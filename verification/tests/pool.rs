use t51core::pool::{SlotPool, VecPool};

#[test]
fn test_vec_pool() {
    let mut pool: VecPool<i32> = VecPool::new();

    // Add some items to the pool.
    assert_eq!(pool.push(1), 0);
    assert_eq!(pool.push(2), 1);
    assert_eq!(pool.push(3), 2);

    // Reclaim a bunch of items.
    pool.reclaim(0);
    pool.reclaim(1);

    // Adding more items will fill up the holes first.
    assert_eq!(pool.push(3), 1);
    assert_eq!(pool.push(3), 0);
}

#[test]
fn test_slot_pool() {
    let mut pool: SlotPool<i32> = SlotPool::new();

    // Add some items to the pool.
    assert_eq!(pool.push(1), 0);
    assert_eq!(pool.push(2), 1);
    assert_eq!(pool.push(3), 2);

    // Reclaim a bunch of items.
    pool.reclaim(0);
    pool.reclaim(1);

    // Adding more items will fill up the holes first.
    assert_eq!(pool.push(3), 1);

    // Retrieving a reclaimed slot yields `None`
    assert!(pool.get(0).is_none());

    // Retrieving out of bounds indices yields `None`
    assert!(pool.get(10).is_none());
}

#[test]
fn test_slot_pool_peek_index() {
    let mut pool: SlotPool<i32> = SlotPool::new();

    // Add some items to the pool.
    assert_eq!(pool.push(1), 0);
    assert_eq!(pool.push(2), 1);

    // The next available index is at the tail
    assert_eq!(pool.peek_index(), 2);

    // Reclaim the head
    pool.reclaim(0);

    // Now, the next available index is at the head
    assert_eq!(pool.peek_index(), 0);
}

#[test]
fn vec_pool_values_stay_reachable() {
    let mut pool: VecPool<i32> = VecPool::new();
    let a = pool.push(7);
    let b = pool.push(8);
    assert_eq!(*pool.get(a), 7);
    assert_eq!(*pool.get(b), 8);
    *pool.get_mut(b) = 9;
    assert_eq!(*pool.get(b), 9);
    assert_eq!(pool.len(), 2);
    pool.reclaim(a);
    let c = pool.push(10);
    assert_eq!(c, a);
    assert_eq!(*pool.get(c), 10);
}

#[test]
fn slot_pool_reclaim_returns_value() {
    let mut pool: SlotPool<i32> = SlotPool::new();
    let a = pool.push(4);
    assert!(pool.contains(a));
    assert_eq!(pool.get(a), Some(&4));
    assert_eq!(pool.reclaim(a), Some(4));
    assert!(!pool.contains(a));
    assert_eq!(pool.reclaim(a), None);
    assert_eq!(pool.push(5), a);
    assert_eq!(pool.get(a), Some(&5));
}

#[test]
fn slot_pool_get_mut_changes_the_slot() {
    let mut pool: SlotPool<i32> = SlotPool::new();
    let a = pool.push(1);
    if let Some(v) = pool.get_mut(a) {
        *v = 42;
    }
    assert_eq!(pool.get(a), Some(&42));
    assert!(pool.get_mut(5).is_none());
    pool.reclaim(a);
    assert!(pool.get_mut(a).is_none());
}
