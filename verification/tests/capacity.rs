use brioche_cache::capacity::CacheCapacityPool;

#[test]
fn reserve_takes_exactly_what_fits() {
    let mut pool = CacheCapacityPool::new(100);
    let a = pool.reserve(60).unwrap();
    assert_eq!(a.reserved, 60);
    assert_eq!(pool.available_capacity, 40);
    assert!(pool.reserve(41).is_none());
    assert_eq!(pool.available_capacity, 40);
    let b = pool.reserve(40).unwrap();
    assert_eq!(b.reserved, 40);
    assert_eq!(pool.available_capacity, 0);
}

#[test]
fn empty_reservation_always_succeeds() {
    let mut pool = CacheCapacityPool::new(0);
    let r = pool.reserve(0).unwrap();
    assert_eq!(r.reserved, 0);
    assert_eq!(pool.available_capacity, 0);
}

#[test]
fn reserve_up_to_takes_what_is_left() {
    let mut pool = CacheCapacityPool::new(100);
    let r = pool.reserve_up_to(30);
    assert_eq!(r.reserved, 30);
    assert_eq!(pool.available_capacity, 70);
    let r = pool.reserve_up_to(500);
    assert_eq!(r.reserved, 70);
    assert_eq!(pool.available_capacity, 0);
    let r = pool.reserve_up_to(0);
    assert_eq!(r.reserved, 0);
}

#[test]
fn returning_restores_the_pool() {
    let mut pool = CacheCapacityPool::new(100);
    let mut r = pool.reserve(25).unwrap();
    let mut s = pool.reserve_up_to(1000);
    assert_eq!(pool.available_capacity, 0);
    r.return_to_pool(&mut pool);
    assert_eq!(r.reserved, 0);
    assert_eq!(pool.available_capacity, 25);
    s.return_to_pool(&mut pool);
    assert_eq!(pool.available_capacity, 100);
    // Returning an emptied reservation changes nothing.
    r.return_to_pool(&mut pool);
    assert_eq!(pool.available_capacity, 100);
}
