//! How the hash index assigns slots to keys.
//!
//! A table of `n` displacements serves `n` keys. A key's hash picks a bucket. A bucket
//! that one key falls into holds that key's slot directly. A bucket that several keys
//! fall into holds a seed under which a second hash sends them to free slots of their
//! own. The search for seeds goes through the buckets in ascending order and takes
//! the least seed that fits, so the outcome depends on the keys alone.

use crate::bytes::bytes_eq;
use crate::hasher::{displaced_hash, hash_key, hash_key_displaced, key_hash};
use vstd::arithmetic::div_mod::lemma_mod_bound;
use vstd::prelude::*;
use vstd::seq_lib::seq_to_set_is_finite;
use vstd::set::{
    axiom_set_empty_finite, axiom_set_empty_len, axiom_set_insert_finite, axiom_set_insert_len,
    axiom_set_remove_finite, axiom_set_remove_len, axiom_set_union_finite,
};
use vstd::set_lib::{
    lemma_int_range, lemma_len_subset, lemma_set_disjoint_lens, lemma_subset_equality, set_int_range,
};

verus! {

/// The displacement of a bucket that no key falls into.
pub const EMPTY_BUCKET: u32 = 0xffff_ffff;

/// The least displacement that is a seed. Smaller displacements are slots.
pub const FIRST_SEED: u32 = 0x8000_0000;

/// The most keys that one index can serve.
pub const MAX_INDEX_LEN: usize = 0x1fff_ffff;

/// The bucket that `key` falls into in a table of `len` buckets.
pub open spec fn bucket_of(key: Seq<u8>, len: int) -> int {
    key_hash(key) as int % len
}

/// The slot that `seed` sends `key` to in a table of `len` slots.
pub open spec fn displaced_slot(seed: u32, key: Seq<u8>, len: int) -> int {
    displaced_hash(seed, key) as int % len
}

/// The slot where the table expects `key`, if its bucket is in use. The table holds no
/// keys: the slot is where `key` would be if it is present at all.
pub open spec fn slot_of(table: Seq<u32>, key: Seq<u8>) -> Option<int> {
    if table.len() == 0 {
        None
    } else {
        let displacement = table[bucket_of(key, table.len() as int)];
        if displacement == EMPTY_BUCKET {
            None
        } else if displacement < FIRST_SEED {
            Some(displacement as int)
        } else {
            Some(displaced_slot(displacement, key, table.len() as int))
        }
    }
}

/// Every slot that the table names directly lies inside the table.
pub open spec fn table_wf(table: Seq<u32>) -> bool {
    forall|b: int| 0 <= b < table.len() && #[trigger] table[b] < FIRST_SEED ==> table[b] < table.len()
}

/// The table sends each of `keys` to a slot of its own.
pub open spec fn perfect_for(table: Seq<u32>, keys: Seq<Seq<u8>>) -> bool {
    &&& table.len() == keys.len()
    &&& table_wf(table)
    &&& forall|i: int| 0 <= i < keys.len() ==> (#[trigger] slot_of(table, keys[i])) is Some
    &&& forall|i: int, j: int|
        0 <= i < j < keys.len() ==> #[trigger] slot_of(table, keys[i]) != #[trigger] slot_of(
            table,
            keys[j],
        )
}

/// The byte strings behind a sequence of borrowed keys.
pub open spec fn key_views(keys: Seq<&[u8]>) -> Seq<Seq<u8>> {
    Seq::new(keys.len(), |i: int| keys[i]@)
}

/// A sequence of positions as integers.
pub open spec fn ints(positions: Seq<usize>) -> Seq<int> {
    Seq::new(positions.len(), |i: int| positions[i] as int)
}

/// The positions below `end`, in ascending order, of the keys that fall into `bucket`.
pub open spec fn members_below(keys: Seq<Seq<u8>>, bucket: int, end: int) -> Seq<int>
    decreases end,
{
    if end <= 0 {
        Seq::empty()
    } else {
        let rest = members_below(keys, bucket, end - 1);
        if bucket_of(keys[end - 1], keys.len() as int) == bucket {
            rest.push(end - 1)
        } else {
            rest
        }
    }
}

/// The positions, in ascending order, of the keys that fall into `bucket`.
pub open spec fn members(keys: Seq<Seq<u8>>, bucket: int) -> Seq<int> {
    members_below(keys, bucket, keys.len() as int)
}

/// The slots that `seed` sends the keys of `group` to, in the group's order.
pub open spec fn group_slots(keys: Seq<Seq<u8>>, group: Seq<int>, seed: u32) -> Seq<int> {
    Seq::new(group.len(), |a: int| displaced_slot(seed, keys[group[a]], keys.len() as int))
}

/// `seed` sends the keys of `group` to distinct slots, none of them in `taken`.
pub open spec fn seed_fits(keys: Seq<Seq<u8>>, group: Seq<int>, seed: u32, taken: Set<int>) -> bool {
    let slots = group_slots(keys, group, seed);
    &&& slots.no_duplicates()
    &&& forall|a: int| 0 <= a < slots.len() ==> !taken.contains(#[trigger] slots[a])
}

/// `seed` fits and no smaller seed does.
pub open spec fn is_least_fitting_seed(
    keys: Seq<Seq<u8>>,
    group: Seq<int>,
    seed: u32,
    taken: Set<int>,
) -> bool {
    &&& FIRST_SEED <= seed < EMPTY_BUCKET
    &&& seed_fits(keys, group, seed, taken)
    &&& forall|lower: u32| FIRST_SEED <= lower < seed ==> !seed_fits(keys, group, lower, taken)
}

/// The least seed that fits, if any seed does.
pub open spec fn least_fitting_seed(keys: Seq<Seq<u8>>, group: Seq<int>, taken: Set<int>) -> Option<
    u32,
> {
    if exists|seed: u32| is_least_fitting_seed(keys, group, seed, taken) {
        Some(choose|seed: u32| is_least_fitting_seed(keys, group, seed, taken))
    } else {
        None
    }
}

/// The slots taken once every bucket below `end` that several keys fall into has its
/// seed, or `None` if for one of them no seed fits.
pub open spec fn taken_by_groups(keys: Seq<Seq<u8>>, end: int) -> Option<Set<int>>
    decreases end,
{
    if end <= 0 {
        Some(Set::empty())
    } else {
        match taken_by_groups(keys, end - 1) {
            None => None,
            Some(taken) => {
                let group = members(keys, end - 1);
                if group.len() < 2 {
                    Some(taken)
                } else {
                    match least_fitting_seed(keys, group, taken) {
                        None => None,
                        Some(seed) => Some(taken.union(group_slots(keys, group, seed).to_set())),
                    }
                }
            },
        }
    }
}

/// Every bucket that several keys fall into can be given a seed.
pub open spec fn placeable(keys: Seq<Seq<u8>>) -> bool {
    taken_by_groups(keys, keys.len() as int) is Some
}

/// What `members_below` holds: positions below `end`, ascending, of exactly the keys
/// that fall into `bucket`.
pub proof fn lemma_members_below(keys: Seq<Seq<u8>>, bucket: int, end: int)
    requires
        0 <= end <= keys.len(),
    ensures
        members_below(keys, bucket, end).len() <= end,
        forall|a: int|
            0 <= a < members_below(keys, bucket, end).len() ==> {
                let i = #[trigger] members_below(keys, bucket, end)[a];
                0 <= i < end && bucket_of(keys[i], keys.len() as int) == bucket
            },
        forall|a: int, c: int|
            0 <= a < c < members_below(keys, bucket, end).len() ==> members_below(
                keys,
                bucket,
                end,
            )[a] < members_below(keys, bucket, end)[c],
        forall|i: int|
            0 <= i < end && bucket_of(#[trigger] keys[i], keys.len() as int) == bucket
                ==> members_below(keys, bucket, end).contains(i),
    decreases end,
{
    if end > 0 {
        lemma_members_below(keys, bucket, end - 1);
        let rest = members_below(keys, bucket, end - 1);
        let all = members_below(keys, bucket, end);
        if bucket_of(keys[end - 1], keys.len() as int) == bucket {
            assert(all == rest.push(end - 1));
            assert(all[rest.len() as int] == end - 1);
            assert forall|i: int|
                0 <= i < end && bucket_of(#[trigger] keys[i], keys.len() as int)
                    == bucket implies all.contains(i) by {
                if i < end - 1 {
                    let a = choose|a: int| 0 <= a < rest.len() && rest[a] == i;
                    assert(all[a] == i);
                } else {
                    assert(all[rest.len() as int] == i);
                }
            }
        } else {
            assert(all == rest);
        }
    }
}

/// Whether `slot` occurs in `slots`.
fn holds_slot(slots: &Vec<usize>, slot: usize) -> (found: bool)
    ensures
        found == slots@.contains(slot),
{
    let mut i: usize = 0;
    while i < slots.len()
        invariant
            i <= slots@.len(),
            forall|k: int| 0 <= k < i ==> slots@[k] != slot,
        decreases slots@.len() - i,
    {
        if slots[i] == slot {
            return true;
        }
        i += 1;
    }
    false
}

/// The slots that are in use: those whose owner is a key's position. A free slot holds
/// the number of slots.
pub open spec fn taken_slots(owner: Seq<usize>) -> Set<int> {
    Set::new(|s: int| 0 <= s < owner.len() && owner[s] < owner.len())
}

/// Groups the keys by bucket: the result's entry for a bucket lists, in ascending
/// order, the positions of the keys that fall into it.
pub fn group_keys(keys: &Vec<&[u8]>) -> (groups: Vec<Vec<usize>>)
    ensures
        groups@.len() == keys@.len(),
        forall|b: int|
            0 <= b < keys@.len() ==> ints(#[trigger] groups@[b]@) == members(key_views(keys@), b),
{
    let n: usize = keys.len();
    let ghost views = key_views(keys@);
    let mut groups: Vec<Vec<usize>> = Vec::new();
    let mut b: usize = 0;
    while b < n
        invariant
            b <= n,
            groups@.len() == b,
            forall|x: int| 0 <= x < b ==> (#[trigger] groups@[x])@.len() == 0,
        decreases n - b,
    {
        groups.push(Vec::new());
        b += 1;
    }
    let mut i: usize = 0;
    while i < n
        invariant
            i <= n,
            n == keys@.len(),
            views == key_views(keys@),
            groups@.len() == n,
            forall|x: int|
                0 <= x < n ==> ints(#[trigger] groups@[x]@) == members_below(views, x, i as int),
        decreases n - i,
    {
        let bucket: usize = (hash_key(keys[i]) % (n as u64)) as usize;
        let ghost before = groups@;
        groups[bucket].push(i);
        proof {
            assert(views[i as int] == keys@[i as int]@);
            assert(bucket as int == bucket_of(views[i as int], n as int));
            assert forall|x: int| 0 <= x < n implies ints(#[trigger] groups@[x]@) == members_below(
                views,
                x,
                i as int + 1,
            ) by {
                assert(ints(before[x]@) == members_below(views, x, i as int));
                if x == bucket as int {
                    assert(groups@[x]@ == before[x]@.push(i));
                    assert(ints(groups@[x]@) =~= ints(before[x]@).push(i as int));
                } else {
                    assert(groups@[x] == before[x]);
                }
            }
        }
        i += 1;
    }
    groups
}

/// Tries one seed on a group of keys: whether it sends them to distinct free slots.
/// Where it does, `slots` receives those slots in the group's order.
fn try_seed(
    keys: &Vec<&[u8]>,
    group: &Vec<usize>,
    seed: u32,
    owner: &Vec<usize>,
    slots: &mut Vec<usize>,
) -> (fits: bool)
    requires
        keys@.len() > 0,
        owner@.len() == keys@.len(),
        forall|a: int| 0 <= a < group@.len() ==> #[trigger] group@[a] < keys@.len(),
    ensures
        fits == seed_fits(key_views(keys@), ints(group@), seed, taken_slots(owner@)),
        fits ==> ints(final(slots)@) == group_slots(key_views(keys@), ints(group@), seed),
{
    let n: usize = keys.len();
    let ghost views = key_views(keys@);
    let ghost expected = group_slots(views, ints(group@), seed);
    let ghost taken = taken_slots(owner@);
    slots.clear();
    let mut a: usize = 0;
    while a < group.len()
        invariant
            a <= group@.len(),
            n == keys@.len(),
            n > 0,
            owner@.len() == n,
            views == key_views(keys@),
            expected == group_slots(views, ints(group@), seed),
            taken == taken_slots(owner@),
            forall|x: int| 0 <= x < group@.len() ==> #[trigger] group@[x] < n,
            slots@.len() == a,
            forall|x: int| 0 <= x < a ==> #[trigger] slots@[x] as int == expected[x],
            forall|x: int| 0 <= x < a ==> !taken.contains(#[trigger] expected[x]),
            forall|x: int, y: int| 0 <= x < y < a ==> expected[x] != expected[y],
        decreases group@.len() - a,
    {
        let position: usize = group[a];
        let slot: usize = (hash_key_displaced(seed, keys[position]) % (n as u64)) as usize;
        proof {
            assert(views[position as int] == keys@[position as int]@);
            assert(ints(group@)[a as int] == position as int);
            assert(slot as int == expected[a as int]);
        }
        if owner[slot] < n {
            proof {
                assert(taken.contains(expected[a as int]));
            }
            return false;
        }
        if holds_slot(slots, slot) {
            proof {
                let x = choose|x: int| 0 <= x < slots@.len() && slots@[x] == slot;
                assert(slots@[x] as int == expected[x]);
                assert(expected[x] == expected[a as int] && x != a as int);
            }
            return false;
        }
        proof {
            assert forall|x: int| 0 <= x < a implies expected[x] != expected[a as int] by {
                assert(slots@[x] as int == expected[x]);
                assert(slots@[x] != slot);
            }
        }
        slots.push(slot);
        a += 1;
    }
    proof {
        assert(expected.len() == group@.len());
        assert(ints(slots@) =~= expected);
    }
    true
}

/// A bucket and a displaced slot lie inside a table that is not empty.
pub proof fn lemma_slots_in_range(seed: u32, key: Seq<u8>, len: int)
    requires
        len > 0,
    ensures
        0 <= bucket_of(key, len) < len,
        0 <= displaced_slot(seed, key, len) < len,
{
    lemma_mod_bound(key_hash(key) as int, len);
    lemma_mod_bound(displaced_hash(seed, key) as int, len);
}

/// The group holds the same key at two places.
pub open spec fn repeats_key(keys: Seq<Seq<u8>>, group: Seq<int>) -> bool {
    exists|a: int, c: int|
        0 <= a < c < group.len() && #[trigger] keys[group[a]] == #[trigger] keys[group[c]]
}

/// No seed separates a key from itself.
pub proof fn lemma_repeated_key_fits_no_seed(
    keys: Seq<Seq<u8>>,
    group: Seq<int>,
    taken: Set<int>,
)
    requires
        repeats_key(keys, group),
    ensures
        least_fitting_seed(keys, group, taken) is None,
{
    let (a, c) = choose|a: int, c: int|
        0 <= a < c < group.len() && #[trigger] keys[group[a]] == #[trigger] keys[group[c]];
    assert forall|seed: u32| !is_least_fitting_seed(keys, group, seed, taken) by {
        let slots = group_slots(keys, group, seed);
        assert(slots[a] == slots[c]);
    }
}

/// Whether the group holds the same key at two places.
fn has_repeated_key(keys: &Vec<&[u8]>, group: &Vec<usize>) -> (repeated: bool)
    requires
        forall|a: int| 0 <= a < group@.len() ==> #[trigger] group@[a] < keys@.len(),
    ensures
        repeated == repeats_key(key_views(keys@), ints(group@)),
{
    let ghost views = key_views(keys@);
    let ghost places = ints(group@);
    let mut c: usize = 0;
    while c < group.len()
        invariant
            c <= group@.len(),
            views == key_views(keys@),
            places == ints(group@),
            forall|a: int| 0 <= a < group@.len() ==> #[trigger] group@[a] < keys@.len(),
            forall|x: int, y: int|
                0 <= x < y < c ==> #[trigger] views[places[x]] != #[trigger] views[places[y]],
        decreases group@.len() - c,
    {
        let mut a: usize = 0;
        while a < c
            invariant
                a <= c < group@.len(),
                views == key_views(keys@),
                places == ints(group@),
                forall|x: int| 0 <= x < group@.len() ==> #[trigger] group@[x] < keys@.len(),
                forall|x: int|
                    0 <= x < a ==> #[trigger] views[places[x]] != views[places[c as int]],
            decreases c - a,
        {
            if bytes_eq(keys[group[a]], keys[group[c]]) {
                proof {
                    assert(views[places[a as int]] == views[places[c as int]]);
                }
                return true;
            }
            a += 1;
        }
        c += 1;
    }
    false
}

/// Searches the seeds in ascending order for the first that sends the keys of `group`
/// to distinct free slots. Where there is one, `slots` receives those slots in the
/// group's order. A group that holds a key twice is given up at once.
fn find_seed(keys: &Vec<&[u8]>, group: &Vec<usize>, owner: &Vec<usize>, slots: &mut Vec<usize>) -> (seed:
    Option<u32>)
    requires
        keys@.len() > 0,
        owner@.len() == keys@.len(),
        forall|a: int| 0 <= a < group@.len() ==> #[trigger] group@[a] < keys@.len(),
    ensures
        seed == least_fitting_seed(key_views(keys@), ints(group@), taken_slots(owner@)),
        seed is Some ==> is_least_fitting_seed(
            key_views(keys@),
            ints(group@),
            seed->0,
            taken_slots(owner@),
        ),
        seed is Some ==> ints(final(slots)@) == group_slots(key_views(keys@), ints(group@), seed->0),
{
    let ghost views = key_views(keys@);
    let ghost taken = taken_slots(owner@);
    if has_repeated_key(keys, group) {
        proof {
            lemma_repeated_key_fits_no_seed(views, ints(group@), taken);
        }
        return None;
    }
    let mut seed: u32 = FIRST_SEED;
    while seed < EMPTY_BUCKET
        invariant
            FIRST_SEED <= seed <= EMPTY_BUCKET,
            keys@.len() > 0,
            owner@.len() == keys@.len(),
            forall|a: int| 0 <= a < group@.len() ==> #[trigger] group@[a] < keys@.len(),
            views == key_views(keys@),
            taken == taken_slots(owner@),
            forall|lower: u32|
                FIRST_SEED <= lower < seed ==> !seed_fits(views, ints(group@), lower, taken),
        decreases EMPTY_BUCKET - seed,
    {
        if try_seed(keys, group, seed, owner, slots) {
            proof {
                assert(is_least_fitting_seed(views, ints(group@), seed, taken));
                let chosen = choose|other: u32|
                    is_least_fitting_seed(views, ints(group@), other, taken);
                assert(is_least_fitting_seed(views, ints(group@), chosen, taken));
                assert(chosen == seed);
            }
            return Some(seed);
        }
        seed += 1;
    }
    proof {
        assert forall|other: u32| !is_least_fitting_seed(views, ints(group@), other, taken) by {}
    }
    None
}

/// Gives each slot of `slots` to the key at the same place in `group`.
fn claim(owner: &mut Vec<usize>, slots: &Vec<usize>, group: &Vec<usize>)
    requires
        slots@.len() == group@.len(),
        ints(slots@).no_duplicates(),
        forall|a: int| 0 <= a < slots@.len() ==> #[trigger] slots@[a] < old(owner)@.len(),
    ensures
        final(owner)@.len() == old(owner)@.len(),
        forall|a: int|
            0 <= a < slots@.len() ==> final(owner)@[#[trigger] slots@[a] as int] == group@[a],
        forall|s: int|
            0 <= s < old(owner)@.len() && !ints(slots@).contains(s) ==> #[trigger] final(owner)@[s]
                == old(owner)@[s],
{
    let mut a: usize = 0;
    while a < slots.len()
        invariant
            a <= slots@.len(),
            slots@.len() == group@.len(),
            ints(slots@).no_duplicates(),
            owner@.len() == old(owner)@.len(),
            forall|x: int| 0 <= x < slots@.len() ==> #[trigger] slots@[x] < owner@.len(),
            forall|x: int| 0 <= x < a ==> owner@[#[trigger] slots@[x] as int] == group@[x],
            forall|s: int|
                0 <= s < owner@.len() && !ints(slots@).contains(s) ==> #[trigger] owner@[s] == old(
                    owner,
                )@[s],
        decreases slots@.len() - a,
    {
        let ghost before = owner@;
        owner[slots[a]] = group[a];
        proof {
            assert forall|x: int| 0 <= x < a + 1 implies owner@[#[trigger] slots@[x] as int]
                == group@[x] by {
                if x < a {
                    assert(ints(slots@)[x] != ints(slots@)[a as int]);
                    assert(before[slots@[x] as int] == group@[x]);
                }
            }
            assert forall|s: int|
                0 <= s < owner@.len() && !ints(slots@).contains(s) implies #[trigger] owner@[s]
                == old(owner)@[s] by {
                assert(ints(slots@)[a as int] != s);
                assert(before[s] == old(owner)@[s]);
            }
        }
        a += 1;
    }
}

/// Adding items that are new and distinct to a finite set adds their number to its
/// size.
proof fn lemma_union_fresh(base: Set<int>, items: Seq<int>)
    requires
        base.finite(),
        items.no_duplicates(),
        forall|a: int| 0 <= a < items.len() ==> !base.contains(#[trigger] items[a]),
    ensures
        base.union(items.to_set()).finite(),
        base.union(items.to_set()).len() == base.len() + items.len(),
{
    let added = items.to_set();
    seq_to_set_is_finite(items);
    items.unique_seq_to_set();
    assert(base.disjoint(added)) by {
        assert forall|x: int| base.contains(x) implies !added.contains(x) by {
            if items.contains(x) {
                let a = choose|a: int| 0 <= a < items.len() && items[a] == x;
                assert(!base.contains(items[a]));
            }
        }
    }
    lemma_set_disjoint_lens(base, added);
    assert(base + added =~= base.union(added));
    axiom_set_union_finite(base, added);
}

/// Whether the keys of `bucket` have their slots: buckets that several keys fall into
/// are served first, in ascending order, and then the buckets of a single key.
spec fn processed(keys: Seq<Seq<u8>>, bucket: int, groups_done: int, singles_done: int) -> bool {
    let size = members(keys, bucket).len();
    (size >= 2 && bucket < groups_done) || (size == 1 && bucket < singles_done)
}

/// The positions of the keys that have their slots.
spec fn placed_keys(keys: Seq<Seq<u8>>, groups_done: int, singles_done: int) -> Set<int> {
    Set::new(
        |i: int|
            0 <= i < keys.len() && processed(
                keys,
                bucket_of(keys[i], keys.len() as int),
                groups_done,
                singles_done,
            ),
    )
}

/// What holds of a table under construction: the buckets served so far, and no others,
/// have their displacement; each key served is found at a slot that it owns; and as
/// many slots are taken as keys are served.
spec fn placing(
    keys: Seq<Seq<u8>>,
    table: Seq<u32>,
    owner: Seq<usize>,
    groups_done: int,
    singles_done: int,
) -> bool {
    let n = keys.len() as int;
    &&& table.len() == n
    &&& owner.len() == n
    &&& table_wf(table)
    &&& forall|b: int|
        0 <= b < n ==> ((#[trigger] table[b]) != EMPTY_BUCKET <==> processed(
            keys,
            b,
            groups_done,
            singles_done,
        ))
    &&& forall|s: int|
        0 <= s < n && (#[trigger] owner[s]) < n ==> {
            &&& processed(keys, bucket_of(keys[owner[s] as int], n), groups_done, singles_done)
            &&& slot_of(table, keys[owner[s] as int]) == Some(s)
        }
    &&& forall|i: int|
        0 <= i < n && processed(keys, bucket_of(#[trigger] keys[i], n), groups_done, singles_done)
            ==> {
            &&& slot_of(table, keys[i]) is Some
            &&& 0 <= slot_of(table, keys[i])->0 < n
            &&& owner[slot_of(table, keys[i])->0] == i
        }
    &&& taken_slots(owner).finite()
    &&& placed_keys(keys, groups_done, singles_done).finite()
    &&& taken_slots(owner).len() == placed_keys(keys, groups_done, singles_done).len()
}

/// Once a bucket cannot be given a seed, the search has failed for good.
proof fn lemma_groups_stay_unplaceable(keys: Seq<Seq<u8>>, from: int, to: int)
    requires
        from <= to,
        taken_by_groups(keys, from) is None,
    ensures
        taken_by_groups(keys, to) is None,
    decreases to - from,
{
    if from < to {
        lemma_groups_stay_unplaceable(keys, from, to - 1);
    }
}

/// A bucket that fewer than two keys fall into needs no seed.
proof fn lemma_group_skipped(keys: Seq<Seq<u8>>, table: Seq<u32>, owner: Seq<usize>, bucket: int)
    requires
        placing(keys, table, owner, bucket, 0),
        members(keys, bucket).len() < 2,
    ensures
        placing(keys, table, owner, bucket + 1, 0),
{
    assert forall|b: int| processed(keys, b, bucket + 1, 0) == processed(keys, b, bucket, 0) by {}
    assert(placed_keys(keys, bucket + 1, 0) =~= placed_keys(keys, bucket, 0));
}

/// Giving the keys of a bucket the slots that a fitting seed sends them to, and the
/// bucket that seed, serves the bucket.
proof fn lemma_group_placed(
    keys: Seq<Seq<u8>>,
    table: Seq<u32>,
    owner: Seq<usize>,
    bucket: int,
    seed: u32,
    new_owner: Seq<usize>,
)
    requires
        0 <= bucket < keys.len(),
        placing(keys, table, owner, bucket, 0),
        members(keys, bucket).len() >= 2,
        FIRST_SEED <= seed < EMPTY_BUCKET,
        seed_fits(keys, members(keys, bucket), seed, taken_slots(owner)),
        new_owner.len() == keys.len(),
        forall|a: int|
            0 <= a < members(keys, bucket).len() ==> new_owner[#[trigger] group_slots(
                keys,
                members(keys, bucket),
                seed,
            )[a]] as int == members(keys, bucket)[a],
        forall|s: int|
            0 <= s < keys.len() && !group_slots(keys, members(keys, bucket), seed).contains(s)
                ==> #[trigger] new_owner[s] == owner[s],
    ensures
        placing(keys, table.update(bucket, seed), new_owner, bucket + 1, 0),
        taken_slots(new_owner) == taken_slots(owner).union(
            group_slots(keys, members(keys, bucket), seed).to_set(),
        ),
{
    let n = keys.len() as int;
    let group = members(keys, bucket);
    let slots = group_slots(keys, group, seed);
    let new_table = table.update(bucket, seed);
    let taken = taken_slots(owner);
    let new_taken = taken_slots(new_owner);
    let placed = placed_keys(keys, bucket, 0);
    let new_placed = placed_keys(keys, bucket + 1, 0);
    lemma_members_below(keys, bucket, n);
    assert forall|a: int| 0 <= a < slots.len() implies 0 <= #[trigger] slots[a] < n by {
        lemma_slots_in_range(seed, keys[group[a]], n);
    }
    assert forall|b: int|
        processed(keys, b, bucket + 1, 0) == (processed(keys, b, bucket, 0) || b == bucket) by {}
    assert(!processed(keys, bucket, bucket, 0));

    assert forall|s: int| new_taken.contains(s) == (taken.contains(s) || slots.to_set().contains(
        s,
    )) by {
        if slots.contains(s) {
            let a = choose|a: int| 0 <= a < slots.len() && slots[a] == s;
            assert(0 <= slots[a] < n);
            assert(new_owner[slots[a]] as int == group[a]);
        } else if 0 <= s < n {
            assert(new_owner[s] == owner[s]);
        }
    }
    assert(new_taken =~= taken.union(slots.to_set()));
    lemma_union_fresh(taken, slots);

    assert forall|a: int| 0 <= a < group.len() implies !placed.contains(#[trigger] group[a]) by {}
    lemma_union_fresh(placed, group);
    assert forall|i: int| new_placed.contains(i) == (placed.contains(i) || group.to_set().contains(
        i,
    )) by {
        if group.contains(i) {
            let a = choose|a: int| 0 <= a < group.len() && group[a] == i;
            assert(bucket_of(keys[group[a]], n) == bucket);
        }
        if 0 <= i < n && bucket_of(keys[i], n) == bucket {
            assert(group.contains(i));
        }
    }
    assert(new_placed =~= placed.union(group.to_set()));

    assert forall|b: int| 0 <= b < n implies ((#[trigger] new_table[b]) != EMPTY_BUCKET
        <==> processed(keys, b, bucket + 1, 0)) by {
        if b != bucket {
            assert(new_table[b] == table[b]);
        }
    }
    assert(table_wf(new_table)) by {
        assert forall|b: int| 0 <= b < new_table.len() && #[trigger] new_table[b]
            < FIRST_SEED implies new_table[b] < new_table.len() by {
            assert(b != bucket);
            assert(new_table[b] == table[b]);
        }
    }
    assert forall|s: int| 0 <= s < n && (#[trigger] new_owner[s]) < n implies processed(
        keys,
        bucket_of(keys[new_owner[s] as int], n),
        bucket + 1,
        0,
    ) && slot_of(new_table, keys[new_owner[s] as int]) == Some(s) by {
        if slots.contains(s) {
            let a = choose|a: int| 0 <= a < slots.len() && slots[a] == s;
            assert(new_owner[slots[a]] as int == group[a]);
            let i = group[a];
            assert(bucket_of(keys[i], n) == bucket);
            assert(new_table[bucket] == seed);
            assert(slot_of(new_table, keys[i]) == Some(slots[a]));
        } else {
            assert(new_owner[s] == owner[s]);
            let i = owner[s] as int;
            lemma_slots_in_range(seed, keys[i], n);
            assert(processed(keys, bucket_of(keys[i], n), bucket, 0));
            assert(new_table[bucket_of(keys[i], n)] == table[bucket_of(keys[i], n)]);
            assert(slot_of(new_table, keys[i]) == slot_of(table, keys[i]));
        }
    }
    assert forall|i: int|
        0 <= i < n && processed(
            keys,
            bucket_of(#[trigger] keys[i], n),
            bucket + 1,
            0,
        ) implies slot_of(new_table, keys[i]) is Some && 0 <= slot_of(new_table, keys[i])->0 < n
        && new_owner[slot_of(new_table, keys[i])->0] == i by {
        lemma_slots_in_range(seed, keys[i], n);
        if bucket_of(keys[i], n) == bucket {
            assert(group.contains(i));
            let a = choose|a: int| 0 <= a < group.len() && group[a] == i;
            assert(slots[a] == displaced_slot(seed, keys[i], n));
            assert(new_table[bucket] == seed);
            assert(slot_of(new_table, keys[i]) == Some(slots[a]));
            assert(new_owner[slots[a]] as int == group[a]);
        } else {
            assert(new_table[bucket_of(keys[i], n)] == table[bucket_of(keys[i], n)]);
            assert(slot_of(new_table, keys[i]) == slot_of(table, keys[i]));
            let s = slot_of(table, keys[i])->0;
            assert(owner[s] == i);
            assert(taken.contains(s));
            if slots.contains(s) {
                let a = choose|a: int| 0 <= a < slots.len() && slots[a] == s;
                assert(!taken.contains(slots[a]));
            }
            assert(new_owner[s] == owner[s]);
        }
    }
}

/// Gives every bucket that several keys fall into the least seed that fits, going
/// through the buckets in ascending order. Stops and answers `false` at the first
/// bucket for which no seed fits.
fn place_groups(
    keys: &Vec<&[u8]>,
    groups: &Vec<Vec<usize>>,
    table: &mut Vec<u32>,
    owner: &mut Vec<usize>,
) -> (placed: bool)
    requires
        keys@.len() > 0,
        groups@.len() == keys@.len(),
        forall|b: int|
            0 <= b < keys@.len() ==> ints(#[trigger] groups@[b]@) == members(key_views(keys@), b),
        placing(key_views(keys@), old(table)@, old(owner)@, 0, 0),
        taken_slots(old(owner)@) == Set::<int>::empty(),
    ensures
        placed == placeable(key_views(keys@)),
        placed ==> placing(key_views(keys@), final(table)@, final(owner)@, keys@.len() as int, 0),
{
    let n: usize = keys.len();
    let ghost views = key_views(keys@);
    let mut slots: Vec<usize> = Vec::new();
    let mut b: usize = 0;
    while b < n
        invariant
            b <= n,
            n == keys@.len(),
            n > 0,
            views == key_views(keys@),
            groups@.len() == n,
            forall|x: int| 0 <= x < n ==> ints(#[trigger] groups@[x]@) == members(views, x),
            placing(views, table@, owner@, b as int, 0),
            taken_by_groups(views, b as int) == Some(taken_slots(owner@)),
        decreases n - b,
    {
        let group = &groups[b];
        proof {
            lemma_members_below(views, b as int, n as int);
            assert(ints(group@) == members(views, b as int));
            assert forall|a: int| 0 <= a < group@.len() implies #[trigger] group@[a] < n by {
                assert(ints(group@)[a] == group@[a] as int);
            }
        }
        if group.len() >= 2 {
            match find_seed(keys, group, owner, &mut slots) {
                None => {
                    proof {
                        assert(taken_by_groups(views, b as int + 1) is None);
                        lemma_groups_stay_unplaceable(views, b as int + 1, n as int);
                    }
                    return false;
                },
                Some(seed) => {
                    let ghost old_owner = owner@;
                    let ghost old_table = table@;
                    proof {
                        let expected = group_slots(views, ints(group@), seed);
                        assert forall|a: int| 0 <= a < slots@.len() implies #[trigger] slots@[a]
                            < owner@.len() by {
                            assert(ints(slots@)[a] == expected[a]);
                            lemma_slots_in_range(seed, views[ints(group@)[a]], n as int);
                        }
                    }
                    claim(owner, &slots, group);
                    table[b] = seed;
                    proof {
                        let expected = group_slots(views, ints(group@), seed);
                        assert forall|a: int| 0 <= a < members(views, b as int).len() implies owner@[#[trigger] expected[a]] as int
                            == members(views, b as int)[a] by {
                            assert(ints(slots@)[a] == expected[a]);
                            assert(owner@[slots@[a] as int] == group@[a]);
                            assert(ints(group@)[a] == group@[a] as int);
                        }
                        lemma_group_placed(views, old_table, old_owner, b as int, seed, owner@);
                        assert(table@ == old_table.update(b as int, seed));
                    }
                },
            }
        } else {
            proof {
                lemma_group_skipped(views, table@, owner@, b as int);
            }
        }
        b += 1;
    }
    true
}

/// A bucket that no key or several keys fall into takes no slot of its own.
proof fn lemma_single_skipped(keys: Seq<Seq<u8>>, table: Seq<u32>, owner: Seq<usize>, bucket: int)
    requires
        placing(keys, table, owner, keys.len() as int, bucket),
        members(keys, bucket).len() != 1,
    ensures
        placing(keys, table, owner, keys.len() as int, bucket + 1),
{
    let n = keys.len() as int;
    assert forall|b: int| processed(keys, b, n, bucket + 1) == processed(keys, b, n, bucket) by {}
    assert(placed_keys(keys, n, bucket + 1) =~= placed_keys(keys, n, bucket));
}

/// While a key waits for its slot, a slot is free.
proof fn lemma_free_slot_exists(
    keys: Seq<Seq<u8>>,
    table: Seq<u32>,
    owner: Seq<usize>,
    groups_done: int,
    singles_done: int,
    waiting: int,
)
    requires
        placing(keys, table, owner, groups_done, singles_done),
        0 <= waiting < keys.len(),
        !processed(keys, bucket_of(keys[waiting], keys.len() as int), groups_done, singles_done),
    ensures
        exists|s: int| 0 <= s < keys.len() && #[trigger] owner[s] >= keys.len(),
{
    let n = keys.len() as int;
    let range = set_int_range(0, n);
    let placed = placed_keys(keys, groups_done, singles_done);
    let taken = taken_slots(owner);
    lemma_int_range(0, n);
    axiom_set_remove_finite(range, waiting);
    axiom_set_remove_len(range, waiting);
    assert(placed.subset_of(range.remove(waiting)));
    lemma_len_subset(placed, range.remove(waiting));
    if forall|s: int| 0 <= s < n ==> #[trigger] owner[s] < n {
        assert(range.subset_of(taken));
        lemma_len_subset(range, taken);
        assert(false);
    }
}

/// Giving the one key of a bucket a free slot, and the bucket that slot, serves the
/// bucket.
proof fn lemma_single_placed(
    keys: Seq<Seq<u8>>,
    table: Seq<u32>,
    owner: Seq<usize>,
    bucket: int,
    slot: int,
)
    requires
        0 <= bucket < keys.len() <= MAX_INDEX_LEN,
        placing(keys, table, owner, keys.len() as int, bucket),
        members(keys, bucket).len() == 1,
        0 <= slot < keys.len(),
        owner[slot] >= keys.len(),
    ensures
        placing(
            keys,
            table.update(bucket, slot as u32),
            owner.update(slot, members(keys, bucket)[0] as usize),
            keys.len() as int,
            bucket + 1,
        ),
{
    let n = keys.len() as int;
    let group = members(keys, bucket);
    let key = group[0];
    let new_table = table.update(bucket, slot as u32);
    let new_owner = owner.update(slot, key as usize);
    let taken = taken_slots(owner);
    let new_taken = taken_slots(new_owner);
    let placed = placed_keys(keys, n, bucket);
    let new_placed = placed_keys(keys, n, bucket + 1);
    lemma_members_below(keys, bucket, n);
    assert(0 <= key < n && bucket_of(keys[key], n) == bucket);
    assert forall|i: int| 0 <= i < n && bucket_of(#[trigger] keys[i], n) == bucket implies i
        == key by {
        assert(group.contains(i));
    }
    assert forall|b: int|
        processed(keys, b, n, bucket + 1) == (processed(keys, b, n, bucket) || b == bucket) by {}
    assert(!processed(keys, bucket, n, bucket));

    assert(new_taken =~= taken.insert(slot));
    axiom_set_insert_finite(taken, slot);
    axiom_set_insert_len(taken, slot);
    assert(new_placed =~= placed.insert(key));
    axiom_set_insert_finite(placed, key);
    axiom_set_insert_len(placed, key);

    assert forall|b: int| 0 <= b < n implies ((#[trigger] new_table[b]) != EMPTY_BUCKET
        <==> processed(keys, b, n, bucket + 1)) by {
        if b != bucket {
            assert(new_table[b] == table[b]);
        }
    }
    assert(table_wf(new_table)) by {
        assert forall|b: int| 0 <= b < new_table.len() && #[trigger] new_table[b]
            < FIRST_SEED implies new_table[b] < new_table.len() by {
            if b != bucket {
                assert(new_table[b] == table[b]);
            }
        }
    }
    assert forall|s: int| 0 <= s < n && (#[trigger] new_owner[s]) < n implies processed(
        keys,
        bucket_of(keys[new_owner[s] as int], n),
        n,
        bucket + 1,
    ) && slot_of(new_table, keys[new_owner[s] as int]) == Some(s) by {
        if s == slot {
            assert(new_table[bucket] == slot as u32);
            assert(slot_of(new_table, keys[key]) == Some(slot));
        } else {
            assert(new_owner[s] == owner[s]);
            let i = owner[s] as int;
            lemma_slots_in_range(0, keys[i], n);
            assert(processed(keys, bucket_of(keys[i], n), n, bucket));
            assert(new_table[bucket_of(keys[i], n)] == table[bucket_of(keys[i], n)]);
            assert(slot_of(new_table, keys[i]) == slot_of(table, keys[i]));
        }
    }
    assert forall|i: int|
        0 <= i < n && processed(
            keys,
            bucket_of(#[trigger] keys[i], n),
            n,
            bucket + 1,
        ) implies slot_of(new_table, keys[i]) is Some && 0 <= slot_of(new_table, keys[i])->0 < n
        && new_owner[slot_of(new_table, keys[i])->0] == i by {
        lemma_slots_in_range(0, keys[i], n);
        if bucket_of(keys[i], n) == bucket {
            assert(i == key);
            assert(new_table[bucket] == slot as u32);
            assert(slot_of(new_table, keys[i]) == Some(slot));
        } else {
            assert(new_table[bucket_of(keys[i], n)] == table[bucket_of(keys[i], n)]);
            assert(slot_of(new_table, keys[i]) == slot_of(table, keys[i]));
            let s = slot_of(table, keys[i])->0;
            assert(owner[s] == i);
            assert(s != slot);
        }
    }
}

/// Gives the one key of every bucket that a single key falls into the first free slot,
/// going through the buckets in ascending order.
fn place_singles(
    keys: &Vec<&[u8]>,
    groups: &Vec<Vec<usize>>,
    table: &mut Vec<u32>,
    owner: &mut Vec<usize>,
)
    requires
        0 < keys@.len() <= MAX_INDEX_LEN,
        groups@.len() == keys@.len(),
        forall|b: int|
            0 <= b < keys@.len() ==> ints(#[trigger] groups@[b]@) == members(key_views(keys@), b),
        placing(key_views(keys@), old(table)@, old(owner)@, keys@.len() as int, 0),
    ensures
        placing(
            key_views(keys@),
            final(table)@,
            final(owner)@,
            keys@.len() as int,
            keys@.len() as int,
        ),
{
    let n: usize = keys.len();
    let ghost views = key_views(keys@);
    let mut first_empty: usize = 0;
    let mut b: usize = 0;
    while b < n
        invariant
            b <= n,
            n == keys@.len(),
            0 < n <= MAX_INDEX_LEN,
            views == key_views(keys@),
            groups@.len() == n,
            forall|x: int| 0 <= x < n ==> ints(#[trigger] groups@[x]@) == members(views, x),
            placing(views, table@, owner@, n as int, b as int),
            first_empty <= n,
            forall|s: int| 0 <= s < first_empty ==> #[trigger] owner@[s] < n,
        decreases n - b,
    {
        let group = &groups[b];
        proof {
            lemma_members_below(views, b as int, n as int);
            assert(ints(group@) == members(views, b as int));
        }
        if group.len() == 1 {
            let key: usize = group[0];
            proof {
                assert(ints(group@)[0] == key as int);
                lemma_free_slot_exists(views, table@, owner@, n as int, b as int, key as int);
            }
            while owner[first_empty] < n
                invariant
                    n == owner@.len(),
                    first_empty < n,
                    forall|s: int| 0 <= s < first_empty ==> #[trigger] owner@[s] < n,
                    exists|s: int| 0 <= s < n && #[trigger] owner@[s] >= n,
                decreases n - first_empty,
            {
                first_empty += 1;
            }
            proof {
                lemma_single_placed(views, table@, owner@, b as int, first_empty as int);
            }
            owner[first_empty] = key;
            table[b] = first_empty as u32;
            first_empty += 1;
        } else {
            proof {
                lemma_single_skipped(views, table@, owner@, b as int);
            }
        }
        b += 1;
    }
}

/// Once every bucket is served, the table is perfect for the keys and every slot has
/// its key.
proof fn lemma_all_placed(keys: Seq<Seq<u8>>, table: Seq<u32>, owner: Seq<usize>)
    requires
        keys.len() > 0,
        placing(keys, table, owner, keys.len() as int, keys.len() as int),
    ensures
        perfect_for(table, keys),
        forall|s: int| 0 <= s < keys.len() ==> #[trigger] owner[s] < keys.len(),
        forall|s: int|
            0 <= s < keys.len() ==> slot_of(table, keys[#[trigger] owner[s] as int]) == Some(s),
{
    let n = keys.len() as int;
    let range = set_int_range(0, n);
    let placed = placed_keys(keys, n, n);
    let taken = taken_slots(owner);
    assert forall|i: int| 0 <= i < n implies processed(
        keys,
        bucket_of(#[trigger] keys[i], n),
        n,
        n,
    ) by {
        lemma_slots_in_range(0, keys[i], n);
        lemma_members_below(keys, bucket_of(keys[i], n), n);
        assert(members(keys, bucket_of(keys[i], n)).contains(i));
    }
    assert(placed =~= range);
    lemma_int_range(0, n);
    assert(taken.subset_of(range));
    lemma_subset_equality(taken, range);
    assert forall|s: int| 0 <= s < n implies #[trigger] owner[s] < n by {
        assert(range.contains(s));
        assert(taken.contains(s));
    }
    assert forall|i: int, j: int| 0 <= i < j < n implies #[trigger] slot_of(table, keys[i])
        != #[trigger] slot_of(table, keys[j]) by {
        assert(owner[slot_of(table, keys[i])->0] == i);
        assert(owner[slot_of(table, keys[j])->0] == j);
    }
}

/// A displacement table together with the keys in the order of the slots that it
/// gives them.
pub struct TablePlan<'a> {
    /// One displacement for each bucket.
    pub table: Vec<u32>,
    /// For each slot, the key that the table sends there.
    pub slot_order: Vec<&'a [u8]>,
}

/// Builds a displacement table that sends each key to a slot of its own, or answers
/// `None` where there are more keys than an index can serve, or where some keys share
/// a bucket and no seed separates them, as is the case when a key occurs twice.
pub fn plan_table<'a>(keys: &Vec<&'a [u8]>) -> (plan: Option<TablePlan<'a>>)
    ensures
        plan is Some <==> keys@.len() <= MAX_INDEX_LEN && placeable(key_views(keys@)),
        plan is Some ==> {
            let found = plan->0;
            &&& perfect_for(found.table@, key_views(keys@))
            &&& found.slot_order@.len() == keys@.len()
            &&& forall|s: int|
                0 <= s < keys@.len() ==> key_views(keys@).contains(
                    (#[trigger] found.slot_order@[s])@,
                )
            &&& forall|s: int|
                0 <= s < keys@.len() ==> slot_of(found.table@, (#[trigger] found.slot_order@[s])@)
                    == Some(s)
        },
{
    let n: usize = keys.len();
    let ghost views = key_views(keys@);
    let mut table: Vec<u32> = Vec::new();
    let mut owner: Vec<usize> = Vec::new();
    let mut slot_order: Vec<&'a [u8]> = Vec::new();
    if n == 0 {
        return Some(TablePlan { table, slot_order });
    }
    if n > MAX_INDEX_LEN {
        return None;
    }
    let mut b: usize = 0;
    while b < n
        invariant
            b <= n,
            table@.len() == b,
            owner@.len() == b,
            forall|x: int| 0 <= x < b ==> #[trigger] table@[x] == EMPTY_BUCKET,
            forall|x: int| 0 <= x < b ==> #[trigger] owner@[x] == n,
        decreases n - b,
    {
        table.push(EMPTY_BUCKET);
        owner.push(n);
        b += 1;
    }
    proof {
        broadcast use {axiom_set_empty_finite, axiom_set_empty_len};

        assert(taken_slots(owner@) =~= Set::<int>::empty());
        assert(placed_keys(views, 0, 0) =~= Set::<int>::empty());
    }
    let groups = group_keys(keys);
    if !place_groups(keys, &groups, &mut table, &mut owner) {
        return None;
    }
    place_singles(keys, &groups, &mut table, &mut owner);
    proof {
        lemma_all_placed(views, table@, owner@);
    }
    let mut s: usize = 0;
    while s < n
        invariant
            s <= n,
            n == keys@.len(),
            owner@.len() == n,
            forall|x: int| 0 <= x < n ==> #[trigger] owner@[x] < n,
            slot_order@.len() == s,
            forall|x: int| 0 <= x < s ==> #[trigger] slot_order@[x] == keys@[owner@[x] as int],
        decreases n - s,
    {
        slot_order.push(keys[owner[s]]);
        s += 1;
    }
    proof {
        assert forall|s: int| 0 <= s < n implies views.contains((#[trigger] slot_order@[s])@)
            && slot_of(table@, slot_order@[s]@) == Some(s) by {
            let i = owner@[s] as int;
            assert(slot_order@[s] == keys@[i]);
            assert(views[i] == keys@[i]@);
        }
    }
    Some(TablePlan { table, slot_order })
}

} // verus!
