use archived_index_map::archived::{check_entries, check_pivots, ArchivedIndexMap};
use archived_index_map::entry::Entry;
use archived_index_map::hash_index::ArchivedHashIndex;
use archived_index_map::serialize::{serialize, serialize_value};
use archived_index_map::serializer::{SerializeError, Serializer};
use indexmap::IndexMap;

fn sample() -> IndexMap<Vec<u8>, i32> {
    let mut map: IndexMap<Vec<u8>, i32> = IndexMap::new();
    map.insert(b"foo".to_vec(), 10);
    map.insert(b"bar".to_vec(), 20);
    map.insert(b"baz".to_vec(), 40);
    map.insert(b"bat".to_vec(), 80);
    map
}

fn archive(map: &IndexMap<Vec<u8>, i32>) -> Vec<u8> {
    let mut serializer = Serializer::new();
    serialize_value(map, &mut serializer).unwrap();
    serializer.into_inner()
}

#[test]
fn checked_access_accepts_what_was_built() {
    let map = sample();
    let buf = archive(&map);
    assert_eq!(buf.len(), 108);
    let archived = ArchivedIndexMap::check_archived_root(&buf).unwrap();
    assert!(archived.eq_index_map(&map));
    assert_eq!(archived.get(b"bat"), Some(80));
    let again = ArchivedIndexMap::check_archived_value(&buf, 92).unwrap();
    assert!(again == archived);
    let empty: IndexMap<Vec<u8>, i32> = IndexMap::new();
    let empty_buf = archive(&empty);
    assert!(ArchivedIndexMap::check_archived_root(&empty_buf).unwrap().is_empty());
}

#[test]
fn checked_access_refuses_a_short_buffer() {
    let buf = archive(&sample());
    assert!(ArchivedIndexMap::check_archived_root(&buf[..15]).is_none());
    assert!(ArchivedIndexMap::check_archived_root(&[]).is_none());
    assert!(ArchivedIndexMap::check_archived_value(&buf, 93).is_none());
    assert!(ArchivedIndexMap::check_archived_value(&buf, 108).is_none());
    assert!(ArchivedIndexMap::check_archived_value(&buf, usize::MAX).is_none());
    assert!(ArchivedIndexMap::check_archived_root(&buf[4..]).is_none());
}

#[test]
fn checked_access_refuses_a_pivot_out_of_range() {
    let mut buf = archive(&sample());
    buf[76] = 4;
    assert!(ArchivedIndexMap::check_archived_root(&buf).is_none());
    assert!(!check_pivots(&buf, 76, 4));
}

#[test]
fn checked_access_refuses_exchanged_pivots() {
    let mut buf = archive(&sample());
    assert!(check_pivots(&buf, 76, 4));
    let first = buf[76];
    buf[76] = buf[80];
    buf[80] = first;
    assert!(check_pivots(&buf, 76, 4));
    assert!(ArchivedIndexMap::check_archived_root(&buf).is_none());
}

#[test]
fn checked_access_refuses_a_key_outside_the_buffer() {
    let mut buf = archive(&sample());
    assert!(check_entries(&buf, 28, 4));
    assert!(Entry::check(&buf, 28));
    buf[32] = 200;
    assert!(!Entry::check(&buf, 28));
    assert!(!check_entries(&buf, 28, 4));
    assert!(ArchivedIndexMap::check_archived_root(&buf).is_none());
    let mut before = archive(&sample());
    before[28..32].copy_from_slice(&[0u8, 0, 0, 128]);
    assert!(!Entry::check(&before, 28));
    assert!(ArchivedIndexMap::check_archived_root(&before).is_none());
    assert!(!Entry::check(&buf, 97));
    assert!(!Entry::check(&buf, usize::MAX));
    assert!(!check_entries(&buf, 100, 1));
    assert!(!check_entries(&buf, 28, usize::MAX));
    assert!(!check_pivots(&buf, 109, 0));
    assert!(check_pivots(&buf, 108, 0));
}

#[test]
fn checked_access_refuses_a_slot_outside_the_table() {
    let mut buf = archive(&sample());
    assert!(ArchivedHashIndex::check(&buf, 4, 0).is_some());
    for bucket in 0..4 {
        buf[4 * bucket..4 * bucket + 4].copy_from_slice(&[7u8, 0, 0, 0]);
    }
    assert!(ArchivedHashIndex::check(&buf, 4, 0).is_none());
    assert!(ArchivedIndexMap::check_archived_root(&buf).is_none());
    assert!(ArchivedHashIndex::check(&buf, 4, 106).is_none());
    assert!(ArchivedHashIndex::check(&buf, usize::MAX, 0).is_none());
    assert!(ArchivedHashIndex::check(&buf, 0, 108).is_some());
    assert!(ArchivedHashIndex::check(&buf, 0, 109).is_none());
}

#[test]
fn checked_access_refuses_a_wrong_count() {
    let mut buf = archive(&sample());
    buf[92] = 3;
    assert!(ArchivedIndexMap::check_archived_root(&buf).is_none());
    buf[92] = 5;
    assert!(ArchivedIndexMap::check_archived_root(&buf).is_none());
    buf[92] = 4;
    buf[95] = 64;
    assert!(ArchivedIndexMap::check_archived_root(&buf).is_none());
}

#[test]
fn checked_access_reads_a_changed_value() {
    let mut buf = archive(&sample());
    buf[36] = 11;
    let archived = ArchivedIndexMap::check_archived_root(&buf).unwrap();
    assert_eq!(archived.get(b"foo"), Some(11));
    assert!(!archived.eq_index_map(&sample()));
}

#[test]
fn archive_that_fits_exactly() {
    let map = sample();
    let mut exact = Serializer::with_limit(108);
    assert_eq!(serialize_value(&map, &mut exact), Ok(92));
    assert_eq!(exact.pos(), 108);
    let mut short = Serializer::with_limit(107);
    assert_eq!(serialize_value(&map, &mut short), Err(SerializeError::TooLarge));
    assert_eq!(short.pos(), 0);
    let mut parts = Serializer::with_limit(92);
    assert!(serialize(&map, &mut parts).is_ok());
    assert_eq!(parts.pos(), 92);
    let mut parts_short = Serializer::with_limit(91);
    assert!(matches!(serialize(&map, &mut parts_short), Err(SerializeError::TooLarge)));
    assert_eq!(parts_short.pos(), 0);
}

#[test]
fn archive_behind_other_bytes_counts_them() {
    let map = sample();
    let mut serializer = Serializer::with_limit(112);
    serializer.write(b"abc").unwrap();
    assert_eq!(serialize_value(&map, &mut serializer), Ok(96));
    let mut short = Serializer::with_limit(111);
    short.write(b"abc").unwrap();
    assert_eq!(serialize_value(&map, &mut short), Err(SerializeError::TooLarge));
    assert_eq!(short.as_slice(), b"abc");
}

#[test]
fn index_that_does_not_fit_is_refused() {
    let keys: Vec<&[u8]> = vec![b"a", b"b", b"c", b"d"];
    let mut short = Serializer::with_limit(15);
    let refused = ArchivedHashIndex::build_and_serialize(&keys, &mut short);
    assert!(matches!(refused, Err(SerializeError::TooLarge)));
    assert_eq!(short.pos(), 0);
    let twice: Vec<&[u8]> = vec![b"a", b"a", b"c", b"d"];
    let refused = ArchivedHashIndex::build_and_serialize(&twice, &mut short);
    assert!(matches!(refused, Err(SerializeError::TooLarge)));
    let mut exact = Serializer::with_limit(16);
    assert!(ArchivedHashIndex::build_and_serialize(&keys, &mut exact).is_ok());
    assert_eq!(exact.pos(), 16);
    let mut room = Serializer::with_limit(16);
    let refused = ArchivedHashIndex::build_and_serialize(&twice, &mut room);
    assert!(matches!(refused, Err(SerializeError::Unplaceable)));
    assert_eq!(room.pos(), 0);
}
