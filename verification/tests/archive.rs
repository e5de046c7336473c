use archived_index_map::archived::ArchivedIndexMap;
use archived_index_map::hasher::hash_key;
use archived_index_map::serialize::{serialize, serialize_value};
use archived_index_map::serializer::Serializer;
use indexmap::IndexMap;
use std::hash::Hasher;

fn sample() -> IndexMap<Vec<u8>, i32> {
    let mut map: IndexMap<Vec<u8>, i32> = IndexMap::new();
    map.insert(String::from("foo").into_bytes(), 10);
    map.insert(String::from("bar").into_bytes(), 20);
    map.insert(String::from("baz").into_bytes(), 40);
    map.insert(String::from("bat").into_bytes(), 80);
    map
}

fn numbered(count: usize) -> IndexMap<Vec<u8>, i32> {
    let mut map: IndexMap<Vec<u8>, i32> = IndexMap::new();
    for i in 0..count {
        map.insert(format!("key-{}", i).into_bytes(), (i as i32) * 3 - 7);
    }
    map
}

fn archive(map: &IndexMap<Vec<u8>, i32>) -> Vec<u8> {
    let mut serializer = Serializer::new();
    serialize_value(map, &mut serializer).unwrap();
    serializer.into_inner()
}

fn collect(archived: &ArchivedIndexMap) -> Vec<(Vec<u8>, i32)> {
    let mut pairs = Vec::new();
    let mut iter = archived.iter();
    while let Some((key, value)) = iter.next() {
        pairs.push((key.to_vec(), value));
    }
    pairs
}

#[test]
fn index_map() {
    let value = sample();

    let mut serializer = Serializer::new();
    serialize_value(&value, &mut serializer).unwrap();
    let result = serializer.into_inner();
    let archived = ArchivedIndexMap::archived_root(result.as_ref());

    assert_eq!(value.len(), archived.len());
    for (k, v) in value.iter() {
        let (ak, av) = archived.get_key_value(k.as_slice()).unwrap();
        assert_eq!(k.as_slice(), ak);
        assert_eq!(*v, av);
    }

    let deserialized = archived.deserialize();
    assert!(value == deserialized);
}

#[test]
fn four_pairs_scenario() {
    let buf = archive(&sample());
    let archived = ArchivedIndexMap::archived_root(&buf);
    assert_eq!(archived.len(), 4);
    assert_eq!(archived.get(b"bar"), Some(20));
    assert_eq!(archived.get_index(2), Some((&b"baz"[..], 40)));
    assert_eq!(
        collect(&archived),
        vec![
            (b"foo".to_vec(), 10),
            (b"bar".to_vec(), 20),
            (b"baz".to_vec(), 40),
            (b"bat".to_vec(), 80),
        ]
    );
    assert_eq!(archived.get(b"missing"), None);
}

#[test]
fn read_back_matches_source() {
    let map = numbered(300);
    let buf = archive(&map);
    let archived = ArchivedIndexMap::archived_root(&buf);
    assert_eq!(archived.len(), map.len());
    let pairs = collect(&archived);
    assert_eq!(pairs.len(), map.len());
    for (i, (key, value)) in map.iter().enumerate() {
        assert_eq!(pairs[i], (key.clone(), *value));
        assert_eq!(archived.get(key), Some(*value));
    }
    for i in 300..600 {
        assert_eq!(archived.get(format!("key-{}", i).as_bytes()), None);
    }
    assert_eq!(archived.get(b""), None);
    assert_eq!(archived.get(b"key-"), None);
}

#[test]
fn get_index_follows_iteration() {
    let map = numbered(40);
    let buf = archive(&map);
    let archived = ArchivedIndexMap::archived_root(&buf);
    let pairs = collect(&archived);
    for i in 0..40 {
        let (key, value) = archived.get_index(i).unwrap();
        assert_eq!((key.to_vec(), value), pairs[i]);
    }
    assert_eq!(archived.get_index(40), None);
    assert_eq!(archived.get_index(41), None);
    assert_eq!(archived.get_index(usize::MAX), None);
}

#[test]
fn get_index_of_is_position_in_iteration() {
    let map = numbered(40);
    let buf = archive(&map);
    let archived = ArchivedIndexMap::archived_root(&buf);
    let pairs = collect(&archived);
    for (i, (key, _)) in pairs.iter().enumerate() {
        assert_eq!(archived.get_index_of(key), Some(i));
    }
    assert_eq!(archived.get_index_of(b"absent"), None);
}

#[test]
fn get_full_gives_place_key_and_value() {
    let buf = archive(&sample());
    let archived = ArchivedIndexMap::archived_root(&buf);
    assert_eq!(archived.get_full(b"baz"), Some((2, &b"baz"[..], 40)));
    assert_eq!(archived.get_full(b"foo"), Some((0, &b"foo"[..], 10)));
    assert_eq!(archived.get_full(b"fo"), None);
    assert_eq!(archived.get_key_value(b"bat"), Some((&b"bat"[..], 80)));
    assert_eq!(archived.get_key_value(b"batt"), None);
}

#[test]
fn contains_key_agrees_with_get() {
    let map = numbered(25);
    let buf = archive(&map);
    let archived = ArchivedIndexMap::archived_root(&buf);
    for i in 0..60 {
        let key = format!("key-{}", i).into_bytes();
        assert_eq!(archived.contains_key(&key), archived.get(&key).is_some());
        assert_eq!(archived.contains_key(&key), i < 25);
    }
}

#[test]
fn first_is_the_first_inserted() {
    let buf = archive(&sample());
    let archived = ArchivedIndexMap::archived_root(&buf);
    assert_eq!(archived.first(), Some((&b"foo"[..], 10)));
    assert!(!archived.is_empty());
}

#[test]
fn keys_and_values_in_order() {
    let buf = archive(&sample());
    let archived = ArchivedIndexMap::archived_root(&buf);
    let mut keys = archived.keys();
    assert_eq!(keys.size_hint(), (4, Some(4)));
    assert_eq!(keys.next(), Some(&b"foo"[..]));
    assert_eq!(keys.next(), Some(&b"bar"[..]));
    assert_eq!(keys.size_hint(), (2, Some(2)));
    assert_eq!(keys.next(), Some(&b"baz"[..]));
    assert_eq!(keys.next(), Some(&b"bat"[..]));
    assert_eq!(keys.next(), None);
    assert_eq!(keys.next(), None);
    let mut values = archived.values();
    assert_eq!(values.next(), Some(10));
    assert_eq!(values.next(), Some(20));
    assert_eq!(values.next(), Some(40));
    assert_eq!(values.size_hint(), (1, Some(1)));
    assert_eq!(values.next(), Some(80));
    assert_eq!(values.next(), None);
}

#[test]
fn iterators_do_not_interfere() {
    let buf = archive(&sample());
    let archived = ArchivedIndexMap::archived_root(&buf);
    let mut one = archived.iter();
    let mut two = archived.iter();
    assert_eq!(one.next(), Some((&b"foo"[..], 10)));
    assert_eq!(one.next(), Some((&b"bar"[..], 20)));
    assert_eq!(two.next(), Some((&b"foo"[..], 10)));
    assert_eq!(one.size_hint(), (2, Some(2)));
    assert_eq!(two.size_hint(), (3, Some(3)));
    let mut raw = archived.raw_iter();
    assert_eq!(raw.size_hint(), (4, Some(4)));
    assert_eq!(raw.next(), Some((&b"foo"[..], 10)));
    assert_eq!(collect(&archived).len(), 4);
}

#[test]
fn empty_map() {
    let map: IndexMap<Vec<u8>, i32> = IndexMap::new();
    let buf = archive(&map);
    assert_eq!(buf.len(), 16);
    let archived = ArchivedIndexMap::archived_root(&buf);
    assert_eq!(archived.len(), 0);
    assert!(archived.is_empty());
    assert_eq!(archived.first(), None);
    assert_eq!(archived.iter().next(), None);
    assert_eq!(archived.keys().next(), None);
    assert_eq!(archived.values().next(), None);
    assert_eq!(archived.get(b"foo"), None);
    assert_eq!(archived.get_index(0), None);
    assert!(!archived.contains_key(b""));
    assert!(archived.deserialize() == map);
}

#[test]
fn empty_key_and_extreme_values() {
    let mut map: IndexMap<Vec<u8>, i32> = IndexMap::new();
    map.insert(Vec::new(), i32::MIN);
    map.insert(vec![0u8], i32::MAX);
    map.insert(vec![0u8, 0u8], -1);
    map.insert(vec![255u8; 70], 0);
    let buf = archive(&map);
    let archived = ArchivedIndexMap::archived_root(&buf);
    assert_eq!(archived.get(b""), Some(i32::MIN));
    assert_eq!(archived.get(&[0u8]), Some(i32::MAX));
    assert_eq!(archived.get(&[0u8, 0u8]), Some(-1));
    assert_eq!(archived.get(&[255u8; 70]), Some(0));
    assert_eq!(archived.get(&[255u8; 69]), None);
    assert!(archived.deserialize() == map);
}

#[test]
fn equality_is_ordered() {
    let map = sample();
    let mut swapped: IndexMap<Vec<u8>, i32> = IndexMap::new();
    swapped.insert(b"foo".to_vec(), 10);
    swapped.insert(b"baz".to_vec(), 40);
    swapped.insert(b"bar".to_vec(), 20);
    swapped.insert(b"bat".to_vec(), 80);
    let buf = archive(&map);
    let same = archive(&sample());
    let other = archive(&swapped);
    let archived = ArchivedIndexMap::archived_root(&buf);
    let archived_same = ArchivedIndexMap::archived_root(&same);
    let archived_other = ArchivedIndexMap::archived_root(&other);
    assert!(archived == archived_same);
    assert!(archived.same_entries(&archived_same));
    assert!(archived != archived_other);
    assert!(!archived.same_entries(&archived_other));
    assert!(archived.eq_index_map(&map));
    assert!(!archived.eq_index_map(&swapped));
    assert!(archived_other.eq_index_map(&swapped));
}

#[test]
fn equality_sees_values_and_lengths() {
    let map = sample();
    let mut changed = sample();
    changed.insert(b"baz".to_vec(), 41);
    let mut shorter = sample();
    shorter.pop();
    let buf = archive(&map);
    let changed_buf = archive(&changed);
    let shorter_buf = archive(&shorter);
    let archived = ArchivedIndexMap::archived_root(&buf);
    assert!(archived != ArchivedIndexMap::archived_root(&changed_buf));
    assert!(archived != ArchivedIndexMap::archived_root(&shorter_buf));
    assert!(!archived.eq_index_map(&changed));
    assert!(!archived.eq_index_map(&shorter));
    assert!(!ArchivedIndexMap::archived_root(&shorter_buf).eq_index_map(&map));
}

#[test]
fn round_trip() {
    for count in [0usize, 1, 2, 3, 17, 250] {
        let map = numbered(count);
        let buf = archive(&map);
        let archived = ArchivedIndexMap::archived_root(&buf);
        let back = archived.deserialize();
        assert!(back == map);
        let keys: Vec<&Vec<u8>> = back.keys().collect();
        let expected: Vec<&Vec<u8>> = map.keys().collect();
        assert_eq!(keys, expected);
    }
}

#[test]
fn keys_that_share_a_bucket_resolve_on_their_own() {
    let map = numbered(64);
    let keys: Vec<&Vec<u8>> = map.keys().collect();
    let mut shared = None;
    for i in 0..keys.len() {
        for j in (i + 1)..keys.len() {
            if shared.is_none() && hash_key(keys[i]) % 64 == hash_key(keys[j]) % 64 {
                shared = Some((i, j));
            }
        }
    }
    let (i, j) = shared.unwrap();
    let buf = archive(&map);
    let archived = ArchivedIndexMap::archived_root(&buf);
    assert_eq!(archived.get_index_of(keys[i]), Some(i));
    assert_eq!(archived.get_index_of(keys[j]), Some(j));
    assert_eq!(archived.get(keys[i]), Some((i as i32) * 3 - 7));
    assert_eq!(archived.get(keys[j]), Some((j as i32) * 3 - 7));
}

#[test]
fn absent_key_on_a_used_slot_is_a_miss() {
    let mut map: IndexMap<Vec<u8>, i32> = IndexMap::new();
    map.insert(b"only".to_vec(), 5);
    let buf = archive(&map);
    let archived = ArchivedIndexMap::archived_root(&buf);
    for i in 0..50 {
        let key = format!("other-{}", i).into_bytes();
        assert_eq!(archived.get(&key), None);
        assert_eq!(archived.get_index_of(&key), None);
        assert!(!archived.contains_key(&key));
    }
    assert_eq!(archived.get(b"only"), Some(5));
}

#[test]
fn hasher_is_the_hasher_of_the_index() {
    let buf = archive(&sample());
    let archived = ArchivedIndexMap::archived_root(&buf);
    for key in [&b"foo"[..], &b""[..], &b"a much longer key than the others, beyond one block"[..]] {
        let mut hasher = archived.hasher();
        hasher.write(key);
        assert_eq!(hasher.finish(), hash_key(key));
    }
    assert_ne!(hash_key(b"foo"), hash_key(b"bar"));
}

#[test]
fn archive_is_relocatable() {
    let map = numbered(20);
    let mut serializer = Serializer::new();
    serializer.write(&[7u8; 13]).unwrap();
    let root = serialize_value(&map, &mut serializer).unwrap();
    assert_eq!(root % 4, 0);
    let mut buf = serializer.into_inner();
    assert_eq!(root + 16, buf.len());
    buf.extend_from_slice(&[9u8; 5]);
    let archived = ArchivedIndexMap::archived_value(&buf, root);
    assert!(archived.eq_index_map(&map));
    assert_eq!(archived.get(b"key-7"), Some(14));
}

#[test]
fn two_maps_in_one_buffer() {
    let first = sample();
    let second = numbered(9);
    let mut serializer = Serializer::new();
    let first_root = serialize_value(&first, &mut serializer).unwrap();
    let second_root = serialize_value(&second, &mut serializer).unwrap();
    let buf = serializer.into_inner();
    assert!(ArchivedIndexMap::archived_value(&buf, first_root).eq_index_map(&first));
    assert!(ArchivedIndexMap::archived_value(&buf, second_root).eq_index_map(&second));
    assert!(ArchivedIndexMap::archived_root(&buf).eq_index_map(&second));
}

#[test]
fn serialize_reports_where_the_parts_are() {
    let map = sample();
    let mut serializer = Serializer::new();
    let resolver = serialize(&map, &mut serializer).unwrap();
    assert_eq!(resolver.index_resolver.displace_pos, 0);
    assert_eq!(resolver.entries_pos, 28);
    assert_eq!(resolver.pivots_pos, 76);
    assert_eq!(serializer.pos(), 92);
    let buf = serializer.into_inner();
    assert_eq!(&buf[16..28], b"foobarbazbat");
    assert_eq!(&buf[28..40], &[244u8, 255, 255, 255, 3, 0, 0, 0, 10, 0, 0, 0]);
}

#[test]
fn many_keys_of_many_lengths() {
    let mut map: IndexMap<Vec<u8>, i32> = IndexMap::new();
    for i in 0..20000usize {
        let mut key = format!("{}:", i).into_bytes();
        key.resize(key.len() + i % 37, (i % 251) as u8);
        map.insert(key, (i as i32).wrapping_mul(2_654_435) - 1_000_000);
    }
    let buf = archive(&map);
    let archived = ArchivedIndexMap::check_archived_root(&buf).unwrap();
    assert_eq!(archived.len(), 20000);
    assert!(archived.eq_index_map(&map));
    for (i, (key, value)) in map.iter().enumerate() {
        assert_eq!(archived.get_full(key), Some((i, key.as_slice(), *value)));
    }
    assert_eq!(archived.get(b"20000:"), None);
    assert!(archived.deserialize() == map);
}
