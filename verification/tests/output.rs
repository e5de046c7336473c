use archived_index_map::bytes::{bytes_eq, get_i32, get_u32, put_i32, put_u32};
use archived_index_map::entry::Entry;
use archived_index_map::rel_ptr::{emplace, resolve, MAX_ARCHIVE_LEN};
use archived_index_map::serialize::{checked_end, collect_keys};
use archived_index_map::serializer::{SerializeError, Serializer};
use indexmap::IndexMap;

#[test]
fn unsigned_integers_are_little_endian() {
    let mut out = Vec::new();
    put_u32(&mut out, 0x0403_0201);
    put_u32(&mut out, 0);
    put_u32(&mut out, u32::MAX);
    assert_eq!(out, vec![1u8, 2, 3, 4, 0, 0, 0, 0, 255, 255, 255, 255]);
    assert_eq!(get_u32(&out, 0), 0x0403_0201);
    assert_eq!(get_u32(&out, 4), 0);
    assert_eq!(get_u32(&out, 8), u32::MAX);
    assert_eq!(get_u32(&out, 1), 0x0004_0302);
}

#[test]
fn signed_integers_are_twos_complement() {
    let mut out = Vec::new();
    put_i32(&mut out, -1);
    put_i32(&mut out, i32::MIN);
    put_i32(&mut out, i32::MAX);
    put_i32(&mut out, -12);
    assert_eq!(&out[..4], &[255u8, 255, 255, 255]);
    assert_eq!(&out[4..8], &[0u8, 0, 0, 128]);
    assert_eq!(&out[8..12], &[255u8, 255, 255, 127]);
    assert_eq!(&out[12..], &[244u8, 255, 255, 255]);
    assert_eq!(get_i32(&out, 0), -1);
    assert_eq!(get_i32(&out, 4), i32::MIN);
    assert_eq!(get_i32(&out, 8), i32::MAX);
    assert_eq!(get_i32(&out, 12), -12);
}

#[test]
fn byte_strings_compare_by_content() {
    assert!(bytes_eq(b"", b""));
    assert!(bytes_eq(b"abc", b"abc"));
    assert!(!bytes_eq(b"abc", b"abd"));
    assert!(!bytes_eq(b"abc", b"ab"));
    assert!(!bytes_eq(b"", b"a"));
}

#[test]
fn references_are_relative_to_where_they_are_stored() {
    let mut buf = vec![0u8; 8];
    emplace(8, 2, &mut buf);
    emplace(12, 12, &mut buf);
    emplace(16, 20, &mut buf);
    assert_eq!(&buf[8..12], &[250u8, 255, 255, 255]);
    assert_eq!(resolve(&buf, 8), Some(2));
    assert_eq!(resolve(&buf, 12), Some(12));
    assert_eq!(resolve(&buf, 16), Some(20));
    let mut early = Vec::new();
    put_i32(&mut early, -1);
    assert_eq!(resolve(&early, 0), None);
}

#[test]
fn entry_bytes_and_back() {
    let mut buf = b"..key".to_vec();
    buf.extend_from_slice(&[0u8; 3]);
    let entry = Entry { key: b"key", value: -2 };
    entry.resolve(8, 2, &mut buf);
    assert_eq!(&buf[8..], &[250u8, 255, 255, 255, 3, 0, 0, 0, 254, 255, 255, 255]);
    let back = Entry::read(&buf, 8);
    assert_eq!(back.key, b"key");
    assert_eq!(back.value, -2);
}

#[test]
fn serializer_appends_and_aligns() {
    let mut serializer = Serializer::new();
    assert_eq!(serializer.pos(), 0);
    assert_eq!(serializer.align(4), Ok(0));
    serializer.write(b"abcde").unwrap();
    assert_eq!(serializer.pos(), 5);
    assert_eq!(serializer.align(4), Ok(8));
    assert_eq!(serializer.align(4), Ok(8));
    assert_eq!(serializer.align(0), Ok(8));
    assert_eq!(serializer.align(1), Ok(8));
    assert_eq!(serializer.align(3), Ok(9));
    assert_eq!(serializer.write_u32(0x0102_0304), Ok(9));
    serializer.pad(2).unwrap();
    assert_eq!(
        serializer.as_slice(),
        &[b'a', b'b', b'c', b'd', b'e', 0, 0, 0, 0, 4, 3, 2, 1, 0, 0]
    );
    assert!(serializer.fits(100));
    assert!(serializer.fits(MAX_ARCHIVE_LEN - 15));
    assert!(!serializer.fits(MAX_ARCHIVE_LEN - 14));
    assert_eq!(serializer.into_inner().len(), 15);
}

#[test]
fn output_beyond_the_limit_is_refused() {
    let mut serializer = Serializer::new();
    serializer.write(b"xy").unwrap();
    assert_eq!(serializer.pad(MAX_ARCHIVE_LEN - 1), Err(SerializeError::TooLarge));
    assert_eq!(serializer.pad(usize::MAX), Err(SerializeError::TooLarge));
    assert_eq!(serializer.as_slice(), b"xy");
    assert_eq!(serializer.pos(), 2);
}

#[test]
fn end_of_archive_is_computed_before_writing() {
    let mut map: IndexMap<Vec<u8>, i32> = IndexMap::new();
    map.insert(b"foo".to_vec(), 10);
    map.insert(b"bar".to_vec(), 20);
    map.insert(b"baz".to_vec(), 40);
    map.insert(b"bat".to_vec(), 80);
    let keys = collect_keys(&map);
    assert_eq!(keys, vec![&b"foo"[..], &b"bar"[..], &b"baz"[..], &b"bat"[..]]);
    let max = MAX_ARCHIVE_LEN;
    assert_eq!(checked_end(&keys, 0, 0, max), Some(92));
    assert_eq!(checked_end(&keys, 0, 16, max), Some(108));
    assert_eq!(checked_end(&keys, 1, 0, max), Some(96));
    assert_eq!(checked_end(&keys, 4, 0, max), Some(96));
    assert_eq!(checked_end(&keys, max - 95, 0, max), Some(max - 3));
    assert_eq!(checked_end(&keys, max - 91, 0, max), None);
    assert_eq!(checked_end(&keys, max - 95, 4, max), None);
    assert_eq!(checked_end(&keys, max, 0, max), None);
    assert_eq!(checked_end(&keys, usize::MAX, 0, max), None);
    assert_eq!(checked_end(&keys, 0, usize::MAX, max), None);
    assert_eq!(checked_end(&keys, 0, 0, 92), Some(92));
    assert_eq!(checked_end(&keys, 0, 0, 91), None);
    assert_eq!(checked_end(&keys, 0, 16, 107), None);
    assert_eq!(checked_end(&keys, 0, 0, 0), None);
    assert_eq!(checked_end(&keys, 0, 0, 27), None);
    assert_eq!(checked_end(&keys, 0, 0, usize::MAX), Some(92));
    assert_eq!(checked_end(&keys, usize::MAX - 2, 0, usize::MAX), None);
    let none: Vec<&[u8]> = Vec::new();
    assert_eq!(checked_end(&none, 0, 0, max), Some(0));
    assert_eq!(checked_end(&none, 5, 16, max), Some(24));
    assert_eq!(checked_end(&none, 5, 16, 23), None);
    assert_eq!(checked_end(&none, 0, 0, 0), Some(0));
}

#[test]
fn limit_is_never_beyond_the_largest_archive() {
    assert_eq!(Serializer::new().max_len(), MAX_ARCHIVE_LEN);
    assert_eq!(Serializer::with_limit(usize::MAX).max_len(), MAX_ARCHIVE_LEN);
    assert_eq!(Serializer::with_limit(MAX_ARCHIVE_LEN).max_len(), MAX_ARCHIVE_LEN);
    assert_eq!(Serializer::with_limit(10).max_len(), 10);
    assert_eq!(Serializer::with_limit(0).max_len(), 0);
}

#[test]
fn writes_stop_at_the_limit() {
    let mut serializer = Serializer::with_limit(6);
    assert_eq!(serializer.write(b"abcd"), Ok(()));
    assert_eq!(serializer.write(b"efg"), Err(SerializeError::TooLarge));
    assert_eq!(serializer.write_u32(1), Err(SerializeError::TooLarge));
    assert_eq!(serializer.align(4), Ok(4));
    assert_eq!(serializer.write(b"e"), Ok(()));
    assert_eq!(serializer.align(4), Err(SerializeError::TooLarge));
    assert_eq!(serializer.pad(2), Err(SerializeError::TooLarge));
    assert_eq!(serializer.pad(1), Ok(()));
    assert!(serializer.fits(0));
    assert!(!serializer.fits(1));
    assert_eq!(serializer.write(b""), Ok(()));
    assert_eq!(serializer.as_slice(), b"abcde\0");
}
