use storage_engine::storage_engine::btree4::NodeType;
use storage_engine::storage_engine::cache2::TwoQcache;
use storage_engine::storage_engine::doubly_linked::{DoublyLinkedList, Node};
use storage_engine::storage_engine::LSM::{LSMT, MEM_LIMIT};

#[test]
fn list_push_front_pop_front_is_a_stack() {
    let mut list = DoublyLinkedList::new();
    list.push_front(1);
    list.push_front(2);
    list.push_front(3);
    assert_eq!(list.pop_front(), Some(3));
    assert_eq!(list.pop_front(), Some(2));
    assert_eq!(list.pop_front(), Some(1));
    assert_eq!(list.pop_front(), None);
}

#[test]
fn list_both_ends() {
    let mut list = DoublyLinkedList::new();
    list.push_front("b");
    list.push_back("c");
    list.push_front("a");
    list.push_back("d");
    assert_eq!(list.pop_back(), Some("d"));
    assert_eq!(list.pop_front(), Some("a"));
    assert_eq!(list.pop_back(), Some("c"));
    assert_eq!(list.pop_back(), Some("b"));
    assert_eq!(list.pop_back(), None);
    assert_eq!(list.pop_front(), None);
    // freed slots are reused
    list.push_front("e");
    list.push_back("f");
    assert_eq!(list.pop_front(), Some("e"));
    assert_eq!(list.pop_front(), Some("f"));
}

#[test]
fn list_node_new_is_unlinked() {
    let n = Node::new(5u8);
    assert!(n.next.is_none());
    assert!(n.prev.is_none());
    assert_eq!(n.data, 5);
}

#[test]
fn node_type_is_leaf() {
    assert!(NodeType::Leaf.is_leaf());
    assert!(!NodeType::Internal.is_leaf());
}

#[test]
fn lsm_counts_writes() {
    let mut lsm: LSMT<u32, u32> = LSMT::new();
    assert_eq!(lsm.count(), 0);
    lsm.insert(1, 123);
    lsm.insert(2, 456);
    assert_eq!(lsm.count(), 2);
    assert_eq!(lsm.mem_table().search(2), Some(456));
    assert_eq!(lsm.mem_table().pairs(), vec![(1, 123), (2, 456)]);
    assert_eq!(MEM_LIMIT, 10 * 1024 * 1024);
}

#[test]
fn cache2_access_promotes_to_hot() {
    let mut cache: TwoQcache<u32, u32> = TwoQcache::new();
    assert_eq!(cache.access(&1, 10).copied(), Some(10));
    // a second access of a new key moves it to hot with the new value
    assert_eq!(cache.access(&1, 11).copied(), Some(11));
    assert_eq!(cache.access(&2, 20).copied(), Some(20));
}

#[test]
fn lsm_repeated_key_counts_every_write() {
    let mut temp: LSMT<i32, &str> = LSMT::new();

    temp.insert(1, "123");
    temp.insert(1, "123");
    temp.insert(1, "123");
    temp.insert(1, "123");
    assert_eq!(temp.count(), 4);
    assert_eq!(temp.mem_table().pairs(), vec![(1, "123")]);
}

#[test]
fn lsm_count_write_reports_the_limit() {
    let mut lsm: LSMT<u32, u32> = LSMT::new();
    assert!(!lsm.count_write());
    assert_eq!(lsm.count(), 1);
    lsm.put(5, 50);
    lsm.put(5, 60);
    assert_eq!(lsm.mem_table().pairs(), vec![(5, 50)]);
    assert_eq!(lsm.count(), 1);
}
