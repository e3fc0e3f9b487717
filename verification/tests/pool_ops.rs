use ring_pool::pool::{Pool, Ptr};

#[test]
fn test_pool() {
    let mut pool: Pool<usize> = Pool::new();
    let p = pool.allocate(123);
    assert_eq!(*pool.get(p).unwrap().get(), 123);

    assert!(pool.get(p).is_some());
    assert_eq!(pool.get(p).unwrap().get(), &123);

    *pool.get_mut(p).unwrap() = 456;
    assert_eq!(pool.get(p).unwrap().get(), &456);

    assert!(pool.free(p));
    assert!(pool.get(p).is_none());
}

#[test]
fn freed_address_is_never_reissued() {
    let mut pool: Pool<usize> = Pool::new();
    let p = pool.allocate(1);
    assert!(pool.free(p));
    assert!(!pool.free(p));
    let q = pool.allocate(2);
    assert_ne!(p, q);
    assert!(pool.get(p).is_none());
    assert_eq!(*pool.get(q).unwrap().get(), 2);
}

#[test]
fn foreign_handle_fails_silently_in_get() {
    let mut pool_a: Pool<usize> = Pool::new();
    let mut pool_b: Pool<usize> = Pool::new();
    let pa = pool_a.allocate(1);
    let pb = pool_b.allocate(2);
    assert!(pool_a.get(pb).is_none());
    assert!(pool_b.get(pa).is_none());
    assert!(!pool_a.free(pb));
    assert_eq!(*pool_a.get(pa).unwrap().get(), 1);
    assert_eq!(*pool_b.get(pb).unwrap().get(), 2);
}

#[test]
fn dangling_handle_lives_in_no_pool() {
    let pool: Pool<usize> = Pool::new();
    let d = Ptr::dangling();
    assert!(pool.get(d).is_none());
}
