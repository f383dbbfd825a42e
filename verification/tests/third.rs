use lists::third::List;

#[test]
fn third_basics() {
    let list = List::new();
    assert_eq!(list.head(), None);

    let list = list.prepend(1).prepend(2).prepend(3);
    assert_eq!(list.head(), Some(&3));

    let list = list.tail();
    assert_eq!(list.head(), Some(&2));

    let list = list.tail();
    assert_eq!(list.head(), Some(&1));

    let list = list.tail();
    assert_eq!(list.head(), None);

    // Make sure empty tail works
    let list = list.tail();
    assert_eq!(list.head(), None);
}

#[test]
fn third_into_iter() {
    let mut list = List::new();
    assert_eq!(list.head(), None);
    list = list.prepend(4).prepend(5).prepend(6);

    let mut iter = list.into_iter();
    assert_eq!(iter.next(), Some(6));
    assert_eq!(iter.next(), Some(5));
    assert_eq!(iter.next(), Some(4));
    assert_eq!(iter.next(), None);
}

#[test]
fn third_iter() {
    let list = List::new().prepend(1).prepend(2).prepend(3);

    let mut iter = list.iter();
    assert_eq!(iter.next(), Some(&3));
    assert_eq!(iter.next(), Some(&2));
    assert_eq!(iter.next(), Some(&1));
}

#[test]
fn third_iter_mut() {
    let mut list = List::new().prepend(2).prepend(3).prepend(4);
    let mut iter = list.iter_mut();
    if let Some(node) = iter.next() {
        *node = 6;
    }
    assert_eq!(iter.next(), Some(&mut 3));
    assert_eq!(iter.next(), Some(&mut 2));
    assert_eq!(iter.next(), None);
}

fn collect(list: &List<i32>) -> Vec<i32> {
    let mut values = Vec::new();
    let mut iter = list.iter();
    while let Some(elem) = iter.next() {
        values.push(*elem);
    }
    values
}

#[test]
fn third_prepend_and_tail_leave_the_list_as_it_is() {
    let base = List::new().prepend(1).prepend(2);
    let longer = base.prepend(3);
    let shorter = base.tail();
    assert_eq!(collect(&base), vec![2, 1]);
    assert_eq!(collect(&longer), vec![3, 2, 1]);
    assert_eq!(collect(&shorter), vec![1]);
    assert_eq!(collect(&longer.tail()), vec![2, 1]);
}

#[test]
fn third_shared_suffix_outlives_either_list() {
    let base = List::new().prepend(1).prepend(2);
    let left = base.prepend(10);
    let right = base.prepend(20);
    assert_eq!(collect(&left), vec![10, 2, 1]);
    assert_eq!(collect(&right), vec![20, 2, 1]);

    drop(left);
    assert_eq!(collect(&right), vec![20, 2, 1]);
    assert_eq!(collect(&base), vec![2, 1]);

    drop(base);
    assert_eq!(collect(&right), vec![20, 2, 1]);
    assert_eq!(collect(&right.tail()), vec![2, 1]);
}

#[test]
fn third_clear_stops_at_the_first_shared_node() {
    let base = List::new().prepend(1).prepend(2);
    let mut longer = base.prepend(3).prepend(4);
    longer.clear();
    assert_eq!(longer.head(), None);
    assert_eq!(collect(&longer), Vec::<i32>::new());
    assert_eq!(collect(&base), vec![2, 1]);
}

#[test]
fn third_clear_releases_a_long_list() {
    let mut list = List::new();
    for i in 0..200000 {
        list = list.prepend(i);
    }
    assert_eq!(list.head(), Some(&199999));
    list.clear();
    assert_eq!(list.head(), None);
}

#[test]
fn third_long_list() {
    let mut list = List::new();
    for i in 0..100000 {
        list = list.prepend(i);
    }
    drop(list);
}

#[test]
fn third_drop_stops_at_the_first_shared_node() {
    let base = List::new().prepend(1).prepend(2);
    let longer = base.prepend(3).prepend(4);
    drop(longer);
    assert_eq!(collect(&base), vec![2, 1]);
    let other = base.prepend(5);
    drop(base);
    assert_eq!(collect(&other), vec![5, 2, 1]);
}

#[test]
fn third_into_iter_stops_at_the_first_shared_node() {
    let base = List::new().prepend(1).prepend(2);
    let longer = base.prepend(3).prepend(4);

    let mut iter = longer.into_iter();
    assert_eq!(iter.next(), Some(4));
    assert_eq!(iter.next(), Some(3));
    assert_eq!(iter.next(), None);
    assert_eq!(iter.next(), None);
    assert_eq!(collect(&base), vec![2, 1]);
}

#[test]
fn third_into_iter_yields_nothing_when_the_head_is_shared() {
    let base = List::new().prepend(1);
    let same = base.tail().prepend(5);
    let alias = base.prepend(2).tail();

    let mut iter = base.into_iter();
    assert_eq!(iter.next(), None);
    assert_eq!(collect(&alias), vec![1]);
    assert_eq!(collect(&same), vec![5]);
}

#[test]
fn third_into_iter_goes_on_once_the_other_owner_is_gone() {
    let base = List::new().prepend(1).prepend(2);
    let longer = base.prepend(3);
    drop(base);

    let mut iter = longer.into_iter();
    assert_eq!(iter.next(), Some(3));
    assert_eq!(iter.next(), Some(2));
    assert_eq!(iter.next(), Some(1));
    assert_eq!(iter.next(), None);
}

#[test]
fn third_iter_mut_stops_at_the_first_shared_node() {
    let base = List::new().prepend(1).prepend(2);
    let mut longer = base.prepend(3).prepend(4);

    let mut iter = longer.iter_mut();
    if let Some(elem) = iter.next() {
        assert_eq!(*elem, 4);
        *elem = 40;
    }
    if let Some(elem) = iter.next() {
        assert_eq!(*elem, 3);
        *elem = 30;
    }
    assert_eq!(iter.next(), None);
    assert_eq!(iter.next(), None);

    assert_eq!(collect(&longer), vec![40, 30, 2, 1]);
    assert_eq!(collect(&base), vec![2, 1]);
}

#[test]
fn third_iter_mut_yields_nothing_when_the_head_is_shared() {
    let mut base = List::new().prepend(1).prepend(2);
    let longer = base.prepend(3);

    let mut iter = base.iter_mut();
    assert_eq!(iter.next(), None);
    assert_eq!(collect(&base), vec![2, 1]);
    assert_eq!(collect(&longer), vec![3, 2, 1]);
}

#[test]
fn third_iter_mut_changes_are_kept() {
    let mut list = List::new().prepend(2).prepend(3).prepend(4);
    let mut iter = list.iter_mut();
    while let Some(elem) = iter.next() {
        *elem += 100;
    }
    assert_eq!(collect(&list), vec![104, 103, 102]);
    assert_eq!(list.head(), Some(&104));
}

#[test]
fn third_empty_list() {
    let mut list: List<i32> = List::new();
    assert_eq!(list.head(), None);
    assert_eq!(list.tail().head(), None);
    assert_eq!(list.iter().next(), None);
    assert_eq!(list.iter_mut().next(), None);
    list.clear();
    assert_eq!(list.head(), None);
    assert_eq!(list.into_iter().next(), None);
}
