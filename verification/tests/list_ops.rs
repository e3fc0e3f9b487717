use ring_pool::list::{List, Node};
use ring_pool::pool::{Ptr, Ref};

fn node_at<'a>(list: &'a List<usize>, p: Ptr) -> Ref<'a, Node<usize>> {
    list.get_ref(p).expect("the handle must resolve in this list")
}

#[test]
fn test05_nodes_in_hashmap_test_list() {
    let mut list: List<usize> = List::new();
    assert!(list.head().get().is_sentinel());
    assert!(list.tail().get().is_sentinel());
    assert!(list.is_empty());

    list.push_back(1);
    assert_eq!(*list.head().get().value(), 1);
    assert_eq!(*list.tail().get().value(), 1);
    assert!(node_at(&list, list.head().get().next()).get().is_sentinel());
    assert!(node_at(&list, list.head().get().prev()).get().is_sentinel());

    list.push_back(2);
    assert_eq!(*list.head().get().value(), 1);
    assert_eq!(*list.tail().get().value(), 2);
    assert_eq!(*node_at(&list, list.head().get().next()).get().value(), 2);

    list.push_front(3);
    assert_eq!(*list.head().get().value(), 3);
    assert_eq!(*node_at(&list, list.head().get().next()).get().value(), 1);

    let before_one = list.head().get().next();
    assert!(list.insert(before_one, 4));
    assert_eq!(*list.head().get().value(), 3);
    let n1 = list.head().get().next();
    assert_eq!(*node_at(&list, n1).get().value(), 4);
    let n2 = node_at(&list, n1).get().next();
    assert_eq!(*node_at(&list, n2).get().value(), 1);
    let n3 = node_at(&list, n2).get().next();
    assert_eq!(*node_at(&list, n3).get().value(), 2);

    let head_ptr: Ptr = list.head().into();
    assert!(list.remove(head_ptr).is_some());
    assert_eq!(*list.head().get().value(), 4);

    let second = list.head().get().next();
    let node = list.get_mut(second).unwrap();
    *node = 5;
    assert_eq!(*node_at(&list, second).get().value(), 5);

    let mut list2: List<usize> = List::new();
    list2.push_back(6);
    let h1: Ptr = list.head().into();
    let h2: Ptr = list2.head().into();
    {
        let node1 = list.get_mut_unchecked(h1).unwrap();
        let node2 = list2.get_mut_unchecked(h2).unwrap();
        std::mem::swap(node1, node2);
    }

    {
        let mut list: List<usize> = List::new();
        let head_ptr: Ptr = list.head().into();
        list.insert(head_ptr, 1);
        let sentinel_ptr = list.sentinel();
        list.insert(sentinel_ptr, 2);
        assert_eq!(*list.head().get().value(), 1);
        assert_eq!(*node_at(&list, list.head().get().next()).get().value(), 2);
        let second = list.head().get().next();
        assert!(list.remove(second).is_some());
    }
}

#[test]
fn test06_nodes_in_mepoo_test_list() {
    let mut list: List<usize> = List::new();
    assert!(list.head().get().is_sentinel());
    assert!(list.tail().get().is_sentinel());
    assert!(list.is_empty());

    list.push_back(1);
    assert_eq!(*list.head().get().value(), 1);
    assert_eq!(*list.tail().get().value(), 1);
    assert!(node_at(&list, list.head().get().next()).get().is_sentinel());
    assert!(node_at(&list, list.head().get().prev()).get().is_sentinel());

    list.push_back(2);
    assert_eq!(*list.head().get().value(), 1);
    assert_eq!(*list.tail().get().value(), 2);
    assert_eq!(*node_at(&list, list.head().get().next()).get().value(), 2);

    list.push_front(3);
    assert_eq!(*list.head().get().value(), 3);
    assert_eq!(*node_at(&list, list.head().get().next()).get().value(), 1);

    let before_one = list.head().get().next();
    assert!(list.insert(before_one, 4));
    assert_eq!(*list.head().get().value(), 3);
    let n1 = list.head().get().next();
    assert_eq!(*node_at(&list, n1).get().value(), 4);
    let n2 = node_at(&list, n1).get().next();
    assert_eq!(*node_at(&list, n2).get().value(), 1);
    let n3 = node_at(&list, n2).get().next();
    assert_eq!(*node_at(&list, n3).get().value(), 2);

    let head_ptr: Ptr = list.head().into();
    assert!(list.remove(head_ptr).is_some());
    assert_eq!(*list.head().get().value(), 4);

    let second = list.head().get().next();
    let node = list.get_mut(second).unwrap();
    *node = 5;
    assert_eq!(*node_at(&list, second).get().value(), 5);

    let mut list2: List<usize> = List::new();
    list2.push_back(6);
    let h1: Ptr = list.head().into();
    let h2: Ptr = list2.head().into();
    {
        let node1 = list.get_mut_unchecked(h1).unwrap();
        let node2 = list2.get_mut_unchecked(h2).unwrap();
        std::mem::swap(node1, node2);
    }
}

#[test]
fn test07_nodes_in_arena_test_list() {
    let mut list: List<usize> = List::new();
    assert!(list.head().get().is_sentinel());
    assert!(list.tail().get().is_sentinel());
    assert!(list.is_empty());

    list.push_back(1);
    assert_eq!(*list.head().get().value(), 1);
    assert_eq!(*list.tail().get().value(), 1);
    assert!(node_at(&list, list.head().get().next()).get().is_sentinel());
    assert!(node_at(&list, list.head().get().prev()).get().is_sentinel());

    list.push_back(2);
    assert_eq!(*list.head().get().value(), 1);
    assert_eq!(*list.tail().get().value(), 2);
    assert_eq!(*node_at(&list, list.head().get().next()).get().value(), 2);

    list.push_front(3);
    assert_eq!(*list.head().get().value(), 3);
    assert_eq!(*node_at(&list, list.head().get().next()).get().value(), 1);

    let sentinel_ptr = list.sentinel();
    list.insert(sentinel_ptr, 4);
    let before_one = list.head().get().next();
    assert!(list.insert(before_one, 4));
    assert_eq!(*list.head().get().value(), 3);
    let n1 = list.head().get().next();
    assert_eq!(*node_at(&list, n1).get().value(), 4);
    let n2 = node_at(&list, n1).get().next();
    assert_eq!(*node_at(&list, n2).get().value(), 1);
    let n3 = node_at(&list, n2).get().next();
    assert_eq!(*node_at(&list, n3).get().value(), 2);

    let head_ptr: Ptr = list.head().into();
    assert!(list.remove(head_ptr).is_some());
    assert_eq!(*list.head().get().value(), 4);
}
