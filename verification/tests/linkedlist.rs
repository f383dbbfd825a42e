use lists::linkedlist::LinkedList;

#[test]
fn test_basic_front() {
    let mut list = LinkedList::new();

    // Try to break an empty list
    assert_eq!(list.len(), 0);
    assert_eq!(list.pop_front(), None);
    assert_eq!(list.len(), 0);

    // Try to break a one item list
    list.push_front(10);
    assert_eq!(list.len(), 1);
    assert_eq!(list.pop_front(), Some(10));
    assert_eq!(list.len(), 0);
    assert_eq!(list.pop_front(), None);
    assert_eq!(list.len(), 0);

    // Mess around
    list.push_front(10);
    assert_eq!(list.len(), 1);
    list.push_front(20);
    assert_eq!(list.len(), 2);
    list.push_front(30);
    assert_eq!(list.len(), 3);
    assert_eq!(list.pop_front(), Some(30));
    assert_eq!(list.len(), 2);
    list.push_front(40);
    assert_eq!(list.len(), 3);
    assert_eq!(list.pop_front(), Some(40));
    assert_eq!(list.len(), 2);
    assert_eq!(list.pop_front(), Some(20));
    assert_eq!(list.len(), 1);
    assert_eq!(list.pop_front(), Some(10));
    assert_eq!(list.len(), 0);
    assert_eq!(list.pop_front(), None);
    assert_eq!(list.len(), 0);
    assert_eq!(list.pop_front(), None);
    assert_eq!(list.len(), 0);
}

#[test]
fn deque_pop_on_empty_keeps_the_length() {
    let mut list: LinkedList<String> = LinkedList::new();
    assert_eq!(list.pop_front(), None);
    assert_eq!(list.len(), 0);
    list.push_front(String::from("a"));
    assert_eq!(list.pop_front(), Some(String::from("a")));
    assert_eq!(list.pop_front(), None);
    assert_eq!(list.len(), 0);
}

#[test]
fn deque_len_follows_pushes_and_pops() {
    let mut list = LinkedList::new();
    let mut expected = 0;
    for round in 0..50 {
        for i in 0..(round % 7 + 1) {
            list.push_front(round * 100 + i);
            expected += 1;
            assert_eq!(list.len(), expected);
        }
        for _ in 0..(round % 5) {
            if list.pop_front().is_some() {
                expected -= 1;
            }
            assert_eq!(list.len(), expected);
        }
    }
    while list.pop_front().is_some() {
        expected -= 1;
        assert_eq!(list.len(), expected);
    }
    assert_eq!(expected, 0);
    assert_eq!(list.len(), 0);
}

#[test]
fn deque_reuses_vacated_slots_in_order() {
    let mut list = LinkedList::new();
    list.push_front(1);
    list.push_front(2);
    list.push_front(3);
    assert_eq!(list.pop_front(), Some(3));
    assert_eq!(list.pop_front(), Some(2));
    list.push_front(4);
    list.push_front(5);
    list.push_front(6);
    assert_eq!(list.len(), 4);
    assert_eq!(list.pop_front(), Some(6));
    assert_eq!(list.pop_front(), Some(5));
    assert_eq!(list.pop_front(), Some(4));
    assert_eq!(list.pop_front(), Some(1));
    assert_eq!(list.pop_front(), None);
    assert_eq!(list.len(), 0);
}

#[test]
fn deque_long_list() {
    let mut list = LinkedList::new();
    for i in 0..100000 {
        list.push_front(i);
    }
    assert_eq!(list.len(), 100000);
    assert_eq!(list.pop_front(), Some(99999));
    assert_eq!(list.len(), 99999);
    drop(list);
}
