use kitties::{LinkedItem, LinkedList};

#[test]
fn append_keeps_insertion_order() {
    let mut l = LinkedList::new();
    l.append(1, 5);
    l.append(1, 3);
    l.append(1, 9);
    assert_eq!(l.members(1), vec![5, 3, 9]);
    assert_eq!(l.members(2), Vec::<u32>::new());
}

#[test]
fn appended_member_appears_once() {
    let mut l = LinkedList::new();
    l.append(7, 1);
    l.append(7, 2);
    let ms = l.members(7);
    assert_eq!(ms.iter().filter(|&&x| x == 2).count(), 1);
}

#[test]
fn remove_then_append_again() {
    let mut l = LinkedList::new();
    l.append(1, 4);
    l.append(1, 8);
    l.remove(1, 8);
    assert_eq!(l.members(1), vec![4]);
    l.append(1, 8);
    assert_eq!(l.members(1), vec![4, 8]);
}

#[test]
fn remove_first_middle_last() {
    let mut l = LinkedList::new();
    for v in [1, 2, 3, 4, 5] {
        l.append(0, v);
    }
    l.remove(0, 3);
    assert_eq!(l.members(0), vec![1, 2, 4, 5]);
    l.remove(0, 1);
    assert_eq!(l.members(0), vec![2, 4, 5]);
    l.remove(0, 5);
    assert_eq!(l.members(0), vec![2, 4]);
}

#[test]
fn remove_absent_member_is_a_no_op() {
    let mut l = LinkedList::new();
    l.append(1, 4);
    l.remove(1, 6);
    l.remove(2, 4);
    assert_eq!(l.members(1), vec![4]);
    assert_eq!(l.members(2), Vec::<u32>::new());
}

#[test]
fn emptied_list_behaves_like_a_fresh_one() {
    let mut l = LinkedList::new();
    l.append(3, 1);
    l.append(3, 2);
    l.remove(3, 1);
    l.remove(3, 2);
    assert_eq!(l.members(3), Vec::<u32>::new());
    l.append(3, 6);
    l.append(4, 6);
    assert_eq!(l.members(3), vec![6]);
    assert_eq!(l.members(4), vec![6]);
    l.remove(3, 6);
    assert_eq!(l.members(3), Vec::<u32>::new());
}

#[test]
fn collections_are_independent() {
    let mut l = LinkedList::new();
    l.append(1, 10);
    l.append(2, 10);
    l.append(1, 11);
    l.remove(2, 10);
    assert_eq!(l.members(1), vec![10, 11]);
    assert_eq!(l.members(2), Vec::<u32>::new());
}

#[test]
fn linked_item_holds_neighbours() {
    let item = LinkedItem { prev: Some(1u32), next: None };
    assert_eq!(item.prev, Some(1));
    assert_eq!(item.next, None);
}
