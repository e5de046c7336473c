[package]
name = "archived_index_map"
version = "0.1.0"
edition = "2021"

[dependencies]
indexmap = "2"
seahash = "4"
