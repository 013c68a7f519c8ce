use game2d::pool::Handle;
use game2d::pool::Pool;
use std::collections::HashSet;

#[test]
fn slots_are_taken_from_the_lowest_up_and_freed_slots_first() {
    let mut pool: Pool<char> = Pool::with_capacity(4);
    let a = pool.push('a');
    let b = pool.push('b');
    let c = pool.push('c');
    assert_eq!((a.index(), b.index(), c.index()), (0, 1, 2));

    pool.remove(a);
    pool.remove(c);
    // The slot freed last is taken first.
    let d = pool.push('d');
    let e = pool.push('e');
    let f = pool.push('f');
    assert_eq!((d.index(), e.index(), f.index()), (2, 0, 3));
    assert_eq!(pool.iter(), vec![&'e', &'b', &'d', &'f']);
    assert_eq!(pool.len(), 4);
    assert_eq!(pool.capacity(), 4);
}

#[test]
fn a_full_pool_doubles() {
    let mut pool: Pool<u8> = Pool::with_capacity(3);
    pool.push(1);
    pool.push(2);
    pool.push(3);
    assert_eq!(pool.capacity(), 3);
    let fourth = pool.push(4);
    assert_eq!(pool.capacity(), 6);
    assert_eq!(fourth.index(), 3);
    pool.push(5);
    pool.push(6);
    assert_eq!(pool.capacity(), 6);
    let seventh = pool.push(7);
    assert_eq!(pool.capacity(), 12);
    assert_eq!(seventh.index(), 6);
    assert_eq!(pool.len(), 7);
    assert_eq!(pool.iter(), vec![&1, &2, &3, &4, &5, &6, &7]);
}

#[test]
fn default_pool_has_ten_slots() {
    let pool: Pool<u8> = Pool::new();
    assert_eq!(pool.capacity(), 10);
    assert_eq!(pool.can_push(), true);
}

#[test]
fn a_stale_handle_never_answers_again() {
    let mut pool: Pool<&'static str> = Pool::with_capacity(1);
    let old = pool.push("old");
    assert_eq!(pool.remove(old), Some("old"));
    assert_eq!(pool.get(old), None);
    assert_eq!(pool.remove(old), None);

    // The slot is used again, by a value with an id of its own.
    let new = pool.push("new");
    assert_eq!(new.index(), old.index());
    assert_eq!(new == old, false);
    assert_eq!(pool.get(old), None);
    assert_eq!(pool.get_mut(old).is_none(), true);
    assert_eq!(pool.remove(old), None);
    assert_eq!(pool.get(new), Some(&"new"));
    assert_eq!(pool.len(), 1);
}

#[test]
fn removal_leaves_the_other_values_alone() {
    let mut pool: Pool<i32> = Pool::new();
    let a = pool.push(1);
    let b = pool.push(2);
    let c = pool.push(3);
    assert_eq!(pool.remove(b), Some(2));
    assert_eq!(pool.remove(b), None);
    assert_eq!(pool.get(a), Some(&1));
    assert_eq!(pool.get(c), Some(&3));
    assert_eq!(pool.len(), 2);
}

#[test]
fn a_handle_of_a_larger_pool_answers_nothing() {
    let mut large: Pool<i32> = Pool::with_capacity(8);
    let mut last = large.push(0);
    for i in 1..8 {
        last = large.push(i);
    }
    let mut small: Pool<i32> = Pool::with_capacity(2);
    small.push(7);
    assert_eq!(small.get(last), None);
    assert_eq!(small.remove(last), None);
    assert_eq!(small.get_mut(last).is_none(), true);
    assert_eq!(small.len(), 1);
}

#[test]
fn handle_at_finds_the_handle_of_a_slot_in_use() {
    let mut pool: Pool<i32> = Pool::with_capacity(3);
    let a = pool.push(10);
    let b = pool.push(20);
    pool.remove(a);
    assert_eq!(pool.handle_at(0).is_none(), true);
    assert_eq!(pool.handle_at(1), Some(b));
    assert_eq!(pool.handle_at(2).is_none(), true);
    assert_eq!(pool.handle_at(3).is_none(), true);
    assert_eq!(pool.handles(), vec![b]);
}

#[test]
fn handles_are_equal_and_hash_alike_by_their_id() {
    let mut pool: Pool<i32> = Pool::new();
    let a = pool.push(1);
    let b = pool.push(2);
    let a_again: Handle = a;
    assert_eq!(a == a_again, true);
    assert_eq!(a == b, false);

    let mut seen: HashSet<Handle> = HashSet::new();
    assert_eq!(seen.insert(a), true);
    assert_eq!(seen.insert(b), true);
    assert_eq!(seen.insert(a_again), false);
    assert_eq!(seen.len(), 2);
    assert_eq!(seen.contains(&a), true);
}

#[test]
fn values_can_be_changed_through_get_mut() {
    let mut pool: Pool<String> = Pool::new();
    let a = pool.push(String::from("a"));
    let b = pool.push(String::from("b"));
    pool.get_mut(a).unwrap().push('!');
    assert_eq!(pool.get(a).unwrap(), "a!");
    assert_eq!(pool.get(b).unwrap(), "b");
}
