use archived_index_map::hash_index::ArchivedHashIndex;
use archived_index_map::hasher::{hash_key, hash_key_displaced, new_hasher};
use archived_index_map::placement::{group_keys, plan_table, EMPTY_BUCKET, FIRST_SEED};
use archived_index_map::serializer::{SerializeError, Serializer};
use std::hash::Hasher;

fn names(count: usize) -> Vec<Vec<u8>> {
    (0..count).map(|i| format!("name/{}", i).into_bytes()).collect()
}

fn borrowed(keys: &Vec<Vec<u8>>) -> Vec<&[u8]> {
    keys.iter().map(|key| key.as_slice()).collect()
}

fn slot_in(table: &Vec<u32>, key: &[u8]) -> Option<usize> {
    let len = table.len() as u64;
    if len == 0 {
        return None;
    }
    let displacement = table[(hash_key(key) % len) as usize];
    if displacement == EMPTY_BUCKET {
        None
    } else if displacement < FIRST_SEED {
        Some(displacement as usize)
    } else {
        Some((hash_key_displaced(displacement, key) % len) as usize)
    }
}

#[test]
fn plan_gives_each_key_its_own_slot() {
    for count in [1usize, 2, 5, 33, 500] {
        let owned = names(count);
        let keys = borrowed(&owned);
        let plan = plan_table(&keys).unwrap();
        assert_eq!(plan.table.len(), count);
        assert_eq!(plan.slot_order.len(), count);
        let mut seen = vec![false; count];
        for key in keys.iter() {
            let slot = slot_in(&plan.table, key).unwrap();
            assert!(slot < count);
            assert!(!seen[slot]);
            seen[slot] = true;
            assert_eq!(plan.slot_order[slot], *key);
        }
    }
}

#[test]
fn plan_of_no_keys_is_empty() {
    let keys: Vec<&[u8]> = Vec::new();
    let plan = plan_table(&keys).unwrap();
    assert!(plan.table.is_empty());
    assert!(plan.slot_order.is_empty());
}

#[test]
fn plan_of_one_key_names_slot_zero() {
    let keys: Vec<&[u8]> = vec![b"solo"];
    let plan = plan_table(&keys).unwrap();
    assert_eq!(plan.table, vec![0u32]);
    assert_eq!(plan.slot_order, vec![&b"solo"[..]]);
}

#[test]
fn repeated_key_cannot_be_placed() {
    let keys: Vec<&[u8]> = vec![b"twice", b"once", b"twice"];
    assert!(plan_table(&keys).is_none());
    let mut serializer = Serializer::new();
    serializer.write(b"abc").unwrap();
    let result = ArchivedHashIndex::build_and_serialize(&keys, &mut serializer);
    assert!(matches!(result, Err(SerializeError::Unplaceable)));
    assert_eq!(serializer.as_slice(), b"abc");
}

#[test]
fn groups_list_the_keys_of_each_bucket_in_order() {
    let owned = names(50);
    let keys = borrowed(&owned);
    let groups = group_keys(&keys);
    assert_eq!(groups.len(), 50);
    let mut total = 0;
    for (bucket, group) in groups.iter().enumerate() {
        total += group.len();
        for pair in group.windows(2) {
            assert!(pair[0] < pair[1]);
        }
        for position in group.iter() {
            assert_eq!((hash_key(keys[*position]) % 50) as usize, bucket);
        }
    }
    assert_eq!(total, 50);
}

#[test]
fn buckets_of_several_keys_get_seeds_and_single_keys_get_slots() {
    let owned = names(50);
    let keys = borrowed(&owned);
    let groups = group_keys(&keys);
    let plan = plan_table(&keys).unwrap();
    let mut seeded = 0;
    for (bucket, group) in groups.iter().enumerate() {
        let displacement = plan.table[bucket];
        if group.is_empty() {
            assert_eq!(displacement, EMPTY_BUCKET);
        } else if group.len() == 1 {
            assert!(displacement < 50);
        } else {
            assert!(displacement >= FIRST_SEED && displacement < EMPTY_BUCKET);
            seeded += 1;
        }
    }
    assert!(seeded > 0);
}

#[test]
fn built_index_is_read_back_in_place() {
    let owned = names(12);
    let keys = borrowed(&owned);
    let mut serializer = Serializer::new();
    serializer.write(&[1u8, 2, 3]).unwrap();
    let built = ArchivedHashIndex::build_and_serialize(&keys, &mut serializer).unwrap();
    assert_eq!(built.resolver.displace_pos, 4);
    assert_eq!(serializer.pos(), 4 + 4 * 12);
    let buf = serializer.into_inner();
    assert_eq!(&buf[..4], &[1u8, 2, 3, 0]);
    let index = ArchivedHashIndex::new(&buf, 12, 4);
    assert_eq!(index.len(), 12);
    assert!(!index.is_empty());
    for key in keys.iter() {
        let slot = index.index(key).unwrap();
        assert_eq!(built.slot_order[slot], *key);
    }
}

#[test]
fn index_of_no_keys_knows_no_slot() {
    let keys: Vec<&[u8]> = Vec::new();
    let mut serializer = Serializer::new();
    let built = ArchivedHashIndex::build_and_serialize(&keys, &mut serializer).unwrap();
    assert_eq!(built.resolver.displace_pos, 0);
    let buf = serializer.into_inner();
    assert!(buf.is_empty());
    let index = ArchivedHashIndex::new(&buf, 0, 0);
    assert!(index.is_empty());
    assert_eq!(index.index(b"any"), None);
}

#[test]
fn displaced_hash_writes_the_seed_before_the_key() {
    let mut hasher = new_hasher();
    hasher.write(&[0x01u8, 0x00, 0x00, 0x80]);
    hasher.write(b"key");
    assert_eq!(hasher.finish(), hash_key_displaced(0x8000_0001, b"key"));
    assert_ne!(hash_key_displaced(0x8000_0001, b"key"), hash_key_displaced(0x8000_0002, b"key"));
    assert_ne!(hash_key_displaced(0x8000_0001, b"key"), hash_key(b"key"));
}

#[test]
fn index_structure_bytes() {
    let mut out = vec![0xaau8];
    ArchivedHashIndex::resolve_from_len(
        3,
        100,
        archived_index_map::hash_index::HashIndexResolver { displace_pos: 40 },
        &mut out,
    );
    assert_eq!(out, vec![0xaau8, 3, 0, 0, 0, 192, 255, 255, 255]);
}
