use ring_pool::list::{List, Node};
use ring_pool::pool::{Pool, Ptr, Ref};

fn node_at<'a>(list: &'a List<usize>, p: Ptr) -> Ref<'a, Node<usize>> {
    list.get_ref(p).expect("the handle must resolve in this list")
}

fn forward_values(list: &List<usize>) -> Vec<usize> {
    let mut out = Vec::new();
    let mut r = list.head();
    while !r.get().is_sentinel() {
        out.push(*r.get().value());
        r = node_at(list, r.get().next());
    }
    out
}

fn backward_values(list: &List<usize>) -> Vec<usize> {
    let mut out = Vec::new();
    let mut r = list.tail();
    while !r.get().is_sentinel() {
        out.push(*r.get().value());
        r = node_at(list, r.get().prev());
    }
    out
}

#[test]
fn ring_round_trip_after_mixed_ops() {
    let mut list: List<usize> = List::new();
    list.push_back(1);
    list.push_back(2);
    list.push_front(3);
    let before_one = list.head().get().next();
    assert!(list.insert(before_one, 4));
    let head_ptr: Ptr = list.head().into();
    assert!(list.remove(head_ptr).is_some());
    list.push_back(7);
    let k = 4;

    // walking next from the sentinel k + 1 times returns to the sentinel,
    // and every stop before the last is a value node
    let mut ptr = list.sentinel();
    for step in 0..(k + 1) {
        ptr = node_at(&list, ptr).get().next();
        if step < k {
            assert!(!node_at(&list, ptr).get().is_sentinel());
        }
    }
    assert_eq!(ptr, list.sentinel());

    // and the same backwards
    let mut ptr = list.sentinel();
    for step in 0..(k + 1) {
        ptr = node_at(&list, ptr).get().prev();
        if step < k {
            assert!(!node_at(&list, ptr).get().is_sentinel());
        }
    }
    assert_eq!(ptr, list.sentinel());

    // forward and backward agree on membership and order, reversed
    let mut fwd = forward_values(&list);
    let bwd = backward_values(&list);
    fwd.reverse();
    assert_eq!(fwd, bwd);
}

#[test]
fn emptiness_fresh_and_after_insert() {
    let list: List<usize> = List::new();
    assert!(list.is_empty());
    assert!(list.head().get().is_sentinel());
    assert!(list.tail().get().is_sentinel());
    let h: Ptr = list.head().into();
    let t: Ptr = list.tail().into();
    assert_eq!(h, list.sentinel());
    assert_eq!(t, list.sentinel());

    let mut l1: List<usize> = List::new();
    l1.push_back(1);
    assert!(!l1.is_empty());
    let mut l2: List<usize> = List::new();
    l2.push_front(2);
    assert!(!l2.is_empty());
    let mut l3: List<usize> = List::new();
    let sp = l3.sentinel();
    assert!(l3.insert(sp, 3));
    assert!(!l3.is_empty());
}

#[test]
fn insert_then_traverse_both_ways() {
    let mut list: List<usize> = List::new();
    list.push_back(1);
    list.push_back(2);
    list.push_front(3);
    let before_one = list.head().get().next();
    assert!(list.insert(before_one, 4));
    assert_eq!(forward_values(&list), vec![3, 4, 1, 2]);
    assert_eq!(backward_values(&list), vec![2, 1, 4, 3]);
}

#[test]
fn remove_head_returns_successor() {
    let mut list: List<usize> = List::new();
    list.push_back(1);
    list.push_back(2);
    list.push_front(3);
    let before_one = list.head().get().next();
    assert!(list.insert(before_one, 4));
    assert_eq!(forward_values(&list), vec![3, 4, 1, 2]);

    let head_ptr: Ptr = list.head().into();
    {
        let succ = list.remove(head_ptr).expect("the head is a removable value node");
        assert_eq!(*succ.get().value(), 4);
    }
    assert_eq!(forward_values(&list), vec![4, 1, 2]);
}

#[test]
fn stale_and_foreign_handles_inert() {
    let mut list: List<usize> = List::new();
    list.push_back(10);
    list.push_back(20);
    let removed: Ptr = list.head().into();
    assert!(list.remove(removed).is_some());

    // a handle already removed: absent results, no mutation, no wrong node
    assert!(list.get(removed).is_none());
    assert!(!list.insert(removed, 99));
    assert!(list.remove(removed).is_none());
    assert!(list.get_mut(removed).is_none());
    assert_eq!(forward_values(&list), vec![20]);

    // a handle obtained from a different list's pool
    let mut other: List<usize> = List::new();
    other.push_back(77);
    let foreign: Ptr = other.head().into();
    assert!(list.get(foreign).is_none());
    assert!(!list.insert(foreign, 99));
    assert!(list.remove(foreign).is_none());
    assert!(list.get_mut(foreign).is_none());
    assert_eq!(forward_values(&list), vec![20]);
    assert_eq!(forward_values(&other), vec![77]);
}

#[test]
fn handle_identity_stable_under_growth() {
    let mut pool: Pool<usize> = Pool::new();
    let p = pool.allocate(123);
    let captured: Ptr = pool.get(p).unwrap().into();
    for i in 0..100 {
        pool.allocate(i);
    }
    let r = pool.get(p).unwrap();
    assert_eq!(*r.get(), 123);
    let observed: Ptr = r.into();
    assert_eq!(captured, observed);
    assert_eq!(observed, p);
}

#[test]
fn handle_identity_stable_in_list() {
    let mut list: List<usize> = List::new();
    list.push_back(123);
    let captured: Ptr = list.head().into();
    for i in 0..50 {
        list.push_back(i);
        list.push_front(i);
    }
    let seen = list.get(captured).expect("the old head is still live");
    assert_eq!(*seen.get().value(), 123);
    let observed: Ptr = seen.into();
    assert_eq!(captured, observed);
}

#[test]
fn push_n_remove_all_round_trip() {
    let mut list: List<usize> = List::new();
    for i in 0..5 {
        list.push_back(i);
    }
    for _ in 0..5 {
        let head_ptr: Ptr = list.head().into();
        assert!(list.remove(head_ptr).is_some());
    }
    assert!(list.is_empty());
    assert!(list.head().get().is_sentinel());
    assert!(list.tail().get().is_sentinel());
    let h: Ptr = list.head().into();
    let t: Ptr = list.tail().into();
    assert_eq!(h, list.sentinel());
    assert_eq!(t, list.sentinel());

    // again, taking from the other end this time
    for i in 0..5 {
        list.push_front(i);
    }
    for _ in 0..5 {
        let tail_ptr: Ptr = list.tail().into();
        assert!(list.remove(tail_ptr).is_some());
    }
    let fresh: List<usize> = List::new();
    assert_eq!(list.is_empty(), fresh.is_empty());
    assert_eq!(
        list.head().get().is_sentinel(),
        fresh.head().get().is_sentinel(),
    );
    assert_eq!(
        list.tail().get().is_sentinel(),
        fresh.tail().get().is_sentinel(),
    );
}

#[test]
fn get_mut_is_value_only_and_rejects_sentinel() {
    let mut list: List<usize> = List::new();
    let sp = list.sentinel();
    assert!(list.get_mut(sp).is_none());
    assert!(list.get(sp).is_none());
    assert!(list.get_ref(sp).is_some());

    list.push_back(5);
    let head_ptr: Ptr = list.head().into();
    *list.get_mut(head_ptr).unwrap() = 6;
    assert_eq!(forward_values(&list), vec![6]);
}

#[test]
fn dangling_handle_resolves_nowhere() {
    let mut list: List<usize> = List::new();
    list.push_back(1);
    let d = Ptr::dangling();
    assert!(list.get(d).is_none());
    assert!(list.get_ref(d).is_none());
    assert!(!list.insert(d, 2));
    assert!(list.remove(d).is_none());
    assert_eq!(forward_values(&list), vec![1]);
}

#[test]
fn unchecked_swap_between_lists_breaks_the_rings() {
    let mut list1: List<usize> = List::new();
    list1.push_back(5);
    let mut list2: List<usize> = List::new();
    list2.push_back(6);
    let h1: Ptr = list1.head().into();
    let h2: Ptr = list2.head().into();
    {
        let node1 = list1.get_mut_unchecked(h1).unwrap();
        let node2 = list2.get_mut_unchecked(h2).unwrap();
        std::mem::swap(node1, node2);
    }
    // the payloads moved across ...
    let n1 = node_at(&list1, h1);
    assert_eq!(*n1.get().value(), 6);
    // ... and took their links with them: the head node of one list now
    // points into the other list's pool, so the ring no longer closes
    let astray = n1.get().next();
    assert!(list1.get_ref(astray).is_none());
}
