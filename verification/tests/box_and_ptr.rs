use ring_pool::pool::{Pool, Ptr};

#[test]
fn test01_0() {
    let mut pool: Pool<usize> = Pool::new();
    let obj1 = pool.allocate(123);
    let obj2 = pool.allocate(123);

    assert_ne!(obj1, obj2);
}

#[test]
fn test01_1() {
    let mut pool1: Pool<usize> = Pool::new();
    let ptr1 = pool1.allocate(123);

    let pool2: Pool<usize> = pool1;
    let ptr2: Ptr = pool2.get(ptr1).unwrap().into();

    assert_eq!(ptr1, ptr2);
    assert_eq!(*pool2.get(ptr1).unwrap().get(), 123);
    assert_eq!(*pool2.get(ptr2).unwrap().get(), 123);

    let ref1 = pool2.get(ptr1).unwrap();
    assert_eq!(*ref1.get(), 123);

    let ref2 = pool2.get(ptr2).unwrap();
    assert_eq!(*ref2.get(), 123);
}

fn get_pool_and_ptr() -> (Pool<usize>, Ptr) {
    let mut pool: Pool<usize> = Pool::new();
    let ptr = pool.allocate(123);
    (pool, ptr)
}

#[test]
fn test01_box_and_ptr_test() {
    let (pool, ptr) = get_pool_and_ptr();
    let found: Ptr = pool.get(ptr).unwrap().into();
    assert_eq!(found, ptr);

    let refer = pool.get(ptr).unwrap();
    assert_eq!(*refer.get(), 123);
}
