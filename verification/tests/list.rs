use lib::list::{List, ListNode};

fn values(list: &List<i32>) -> Vec<i32> {
    list.print().into_iter().copied().collect()
}

fn list_of(items: &[i32]) -> List<i32> {
    let mut list = List::new();
    for &x in items {
        list.insert(x);
    }
    list
}

#[test]
fn list_demo() {
    let mut list = List::new();
    list.insert(1);
    list.insert(2);
    list.insert(3);
    assert_eq!(values(&list), vec![1, 2, 3]);
    list.delete(2);
    assert_eq!(values(&list), vec![1, 2]);
}

#[test]
fn insert_appends_at_back() {
    let mut list = List::new();
    assert!(list.print().is_empty());
    list.insert(4);
    list.insert(9);
    assert_eq!(values(&list), vec![4, 9]);
}

#[test]
fn delete_front() {
    let mut list = list_of(&[1, 2, 3]);
    list.delete(0);
    assert_eq!(values(&list), vec![2, 3]);
}

#[test]
fn delete_middle() {
    let mut list = list_of(&[1, 2, 3, 4]);
    list.delete(1);
    assert_eq!(values(&list), vec![1, 3, 4]);
}

#[test]
fn delete_past_end_changes_nothing() {
    let mut list = list_of(&[1, 2, 3]);
    list.delete(3);
    assert_eq!(values(&list), vec![1, 2, 3]);
    list.delete(100);
    assert_eq!(values(&list), vec![1, 2, 3]);
}

#[test]
fn delete_on_empty_list() {
    let mut list: List<i32> = List::new();
    list.delete(0);
    list.delete(1);
    assert!(list.print().is_empty());
}

#[test]
fn delete_zero_removes_front() {
    let mut list = list_of(&[5, 6]);
    list.delete_zero();
    assert_eq!(values(&list), vec![6]);
    list.delete_zero();
    assert!(list.print().is_empty());
    list.delete_zero();
    assert!(list.print().is_empty());
}

#[test]
fn delete_non_zero_leaves_front_alone() {
    let mut list = list_of(&[5, 6, 7]);
    list.delete_non_zero(0);
    assert_eq!(values(&list), vec![5, 6, 7]);
    list.delete_non_zero(2);
    assert_eq!(values(&list), vec![5, 6]);
    list.delete_non_zero(2);
    assert_eq!(values(&list), vec![5, 6]);
}

#[test]
fn insert_after_deleting_last() {
    let mut list = list_of(&[1, 2, 3]);
    list.delete(2);
    list.insert(8);
    assert_eq!(values(&list), vec![1, 2, 8]);
}

#[test]
fn delete_of_last_undoes_insert() {
    let mut list = list_of(&[3, 1]);
    list.insert(2);
    list.delete(2);
    assert_eq!(values(&list), vec![3, 1]);
}

#[test]
fn list_node_new_has_nothing_after() {
    let node = ListNode::new(3);
    assert_eq!(node.value, 3);
    assert!(node.next.is_none());
}
