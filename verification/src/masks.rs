//! Which groups collide: the table that a world keeps of the pairs of
//! groups that it was made with.

use std::collections::HashMap;
use vstd::prelude::*;

verus! {

broadcast use vstd::std_specs::hash::group_hash_axioms;

/// The groups that a body of group `group` collides with, given the pairs
/// of groups that were registered as colliding: for every pair that
/// `group` is one of, the other one.
pub open spec fn mask_of(pairs: Seq<(u32, u32)>, group: u32) -> u32
    decreases pairs.len(),
{
    if pairs.len() == 0 {
        0
    } else {
        let before = mask_of(pairs.drop_last(), group);
        let pair = pairs.last();
        let with_second = if pair.0 == group {
            before | pair.1
        } else {
            before
        };
        if pair.1 == group {
            with_second | pair.0
        } else {
            with_second
        }
    }
}

/// `group` is one of the two groups of `pair`.
pub open spec fn names(pair: (u32, u32), group: u32) -> bool {
    pair.0 == group || pair.1 == group
}

/// `group` occurs in one of `pairs`.
pub open spec fn registered(pairs: Seq<(u32, u32)>, group: u32) -> bool {
    exists|i: int| 0 <= i < pairs.len() && #[trigger] names(pairs[i], group)
}

/// The table of the groups that occur in `pairs`, each with the groups it
/// collides with.
pub open spec fn mask_table(pairs: Seq<(u32, u32)>) -> Map<u32, u32> {
    Map::new(|group: u32| registered(pairs, group), |group: u32| mask_of(pairs, group))
}

/// A group that occurs in no pair collides with nothing.
pub proof fn lemma_unregistered_group(pairs: Seq<(u32, u32)>, group: u32)
    requires
        !registered(pairs, group),
    ensures
        mask_of(pairs, group) == 0,
    decreases pairs.len(),
{
    if pairs.len() > 0 {
        let rest = pairs.drop_last();
        assert(!names(pairs[pairs.len() - 1], group));
        assert forall|i: int| 0 <= i < rest.len() implies !#[trigger] names(rest[i], group) by {
            assert(rest[i] == pairs[i]);
            assert(!names(pairs[i], group));
        }
        lemma_unregistered_group(rest, group);
    }
}

/// A group has a place in the table, or collides with nothing.
pub proof fn lemma_unregistered_group_or_found(pairs: Seq<(u32, u32)>, group: u32)
    ensures
        mask_table(pairs).contains_key(group) || mask_of(pairs, group) == 0,
        mask_table(pairs).contains_key(group) ==> mask_table(pairs)[group] == mask_of(pairs, group),
{
    if !mask_table(pairs).contains_key(group) {
        lemma_unregistered_group(pairs, group);
    }
}

/// How the table changes with one more pair: the first group's entry takes
/// in the second group, then the second group's entry takes in the first.
pub proof fn lemma_mask_table_grows(pairs: Seq<(u32, u32)>, pair: (u32, u32))
    ensures
        ({
            let table = mask_table(pairs);
            let first = if table.contains_key(pair.0) {
                table[pair.0]
            } else {
                0
            };
            let halfway = table.insert(pair.0, first | pair.1);
            let second = if halfway.contains_key(pair.1) {
                halfway[pair.1]
            } else {
                0
            };
            mask_table(pairs.push(pair)) == halfway.insert(pair.1, second | pair.0)
        }),
{
    let longer = pairs.push(pair);
    let table = mask_table(pairs);
    let first = if table.contains_key(pair.0) {
        table[pair.0]
    } else {
        0
    };
    let halfway = table.insert(pair.0, first | pair.1);
    let second = if halfway.contains_key(pair.1) {
        halfway[pair.1]
    } else {
        0
    };
    let full = halfway.insert(pair.1, second | pair.0);
    assert(longer.drop_last() =~= pairs);
    assert(longer.last() == pair);
    assert(longer[pairs.len() as int] == pair);
    lemma_unregistered_group_or_found(pairs, pair.0);
    lemma_unregistered_group_or_found(pairs, pair.1);
    assert forall|group: u32| #[trigger]
        full.contains_key(group) <==> registered(longer, group) by {
        if registered(pairs, group) {
            let k = choose|k: int| 0 <= k < pairs.len() && #[trigger] names(pairs[k], group);
            assert(longer[k] == pairs[k]);
            assert(names(longer[k], group));
        }
        if group == pair.0 || group == pair.1 {
            assert(names(longer[pairs.len() as int], group));
        }
        if registered(longer, group) && group != pair.0 && group != pair.1 {
            let k = choose|k: int| 0 <= k < longer.len() && #[trigger] names(longer[k], group);
            assert(k < pairs.len());
            assert(pairs[k] == longer[k]);
            assert(names(pairs[k], group));
        }
    }
    assert forall|group: u32| full.contains_key(group) implies #[trigger] full[group] == mask_of(
        longer,
        group,
    ) by {
        lemma_unregistered_group_or_found(pairs, group);
    }
    assert(full =~= mask_table(longer));
}

/// Registration works both ways: of every pair that was registered, each
/// group collides with all of the other.
pub proof fn lemma_masks_symmetric(pairs: Seq<(u32, u32)>, i: int)
    requires
        0 <= i < pairs.len(),
    ensures
        mask_of(pairs, pairs[i].0) & pairs[i].1 == pairs[i].1,
        mask_of(pairs, pairs[i].1) & pairs[i].0 == pairs[i].0,
    decreases pairs.len(),
{
    let a = pairs[i].0;
    let b = pairs[i].1;
    let rest = pairs.drop_last();
    let last = pairs.last();
    let ma = mask_of(rest, a);
    let mb = mask_of(rest, b);
    if i < pairs.len() - 1 {
        assert(rest[i] == pairs[i]);
        lemma_masks_symmetric(rest, i);
    }
    assert(forall|m: u32, x: u32, y: u32| m & x == x ==> #[trigger] ((m | y) & x) == x)
        by (bit_vector);
    assert(forall|m: u32, x: u32| #[trigger] ((m | x) & x) == x) by (bit_vector);
    assert(forall|m: u32, x: u32, y: u32| #[trigger] (((m | x) | y) & x) == x) by (bit_vector);
}

/// The groups that `group` collides with according to `masks`: none, if the
/// table does not hold the group.
pub(crate) fn mask_in(masks: &HashMap<u32, u32>, group: u32) -> (mask: u32)
    ensures
        mask == (if masks@.contains_key(group) {
            masks@[group]
        } else {
            0
        }),
{
    match masks.get(&group) {
        Some(mask) => *mask,
        None => 0,
    }
}

/// The table of the groups that occur in `pairs`, each with the groups it
/// collides with.
pub(crate) fn build_masks(pairs: &Vec<(u32, u32)>) -> (masks: HashMap<u32, u32>)
    ensures
        masks@ == mask_table(pairs@),
{
    let mut masks: HashMap<u32, u32> = HashMap::new();
    let mut i: usize = 0;
    assert(masks@ =~= mask_table(pairs@.take(0)));
    while i < pairs.len()
        invariant
            i <= pairs@.len(),
            masks@ == mask_table(pairs@.take(i as int)),
        decreases pairs@.len() - i,
    {
        let group_a: u32 = pairs[i].0;
        let group_b: u32 = pairs[i].1;
        proof {
            lemma_mask_table_grows(pairs@.take(i as int), (group_a, group_b));
            assert(pairs@.take(i + 1) =~= pairs@.take(i as int).push((group_a, group_b)));
        }
        let mask_a: u32 = mask_in(&masks, group_a);
        masks.insert(group_a, mask_a | group_b);
        let mask_b: u32 = mask_in(&masks, group_b);
        masks.insert(group_b, mask_b | group_a);
        i += 1;
    }
    assert(pairs@.take(pairs@.len() as int) =~= pairs@);
    masks
}

} // verus!
