//! A relocatable, read-in-place archive of an insertion-ordered map from byte-string keys
//! to 32-bit integers.
//!
//! An archive is a byte buffer. Keys are found through a perfect hash index that stores no
//! keys, entries are reached by position, and iteration follows insertion order, all
//! without decoding the buffer first. Every reference inside the buffer is an offset from
//! the place where it is stored, so the bytes may be copied or embedded anywhere.
//!
//! # Layout
//!
//! All integers are little-endian. A reference is a signed 32-bit offset from its own
//! position to its target. A map of `n` pairs has four parts, each aligned to four bytes:
//!
//! | part          | size            | content                                              |
//! |---------------|-----------------|------------------------------------------------------|
//! | displacements | `4 * n`         | for each bucket of the index a slot, a seed, or empty |
//! | pairs         | `12 * n`        | reference to the key's bytes, key length, value       |
//! | pivots        | `4 * n`         | for each slot of the index the place of its pair      |
//! | structure     | `16`            | `n`, then references to the three parts above         |
//!
//! The keys' bytes lie anywhere before the pairs that refer to them. Where the parts lie
//! relative to each other is not fixed: a reader follows the references.
//!
//! # Reading and writing
//!
//! [`serialize_value`] writes an archive of an `indexmap::IndexMap` into a [`Serializer`].
//! [`ArchivedIndexMap::archived_root`] reads a buffer that this library wrote, and
//! [`ArchivedIndexMap::check_archived_root`] a buffer of any origin, after checking it.
//! The contracts are stated over the sequence of key-value pairs that a map holds, which
//! the module [`model`] defines; [`laws`] holds what follows for every archive.

pub mod bytes;
pub mod hasher;
pub mod rel_ptr;
pub mod serializer;
pub mod placement;
pub mod model;
pub mod entry;
pub mod source_map;
pub mod hash_index;
pub mod iter;
pub mod archived;
pub mod equality;
pub mod serialize;
pub mod laws;

pub use archived::ArchivedIndexMap;
pub use iter::{Iter, Keys, RawIter, Values};
pub use serialize::{serialize, serialize_value, IndexMapResolver};
pub use serializer::{SerializeError, Serializer};
