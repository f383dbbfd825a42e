use lists::second::List;

#[test]
fn second_basics() {
    let mut list = List::new();

    // Check empty list behaves right
    assert_eq!(list.pop(), None);

    // Populate list
    list.push(1);
    list.push(2);
    list.push(3);

    // Check normal removal
    assert_eq!(list.pop(), Some(3));
    assert_eq!(list.pop(), Some(2));

    // Push some more just to make sure nothing's corrupted
    list.push(4);
    list.push(5);

    // Check normal removal
    assert_eq!(list.pop(), Some(5));
    assert_eq!(list.pop(), Some(4));

    // Check exhaustion
    assert_eq!(list.pop(), Some(1));
    assert_eq!(list.pop(), None);
}

#[test]
fn peek() {
    let mut list = List::new();

    assert_eq!(list.peek(), None);
    assert_eq!(list.peek_mut(), None);

    list.push(1);
    list.push(2);
    list.push(3);

    assert_eq!(list.peek(), Some(&3));
    assert_eq!(list.peek_mut(), Some(&mut 3));

    list.peek_mut().map(|value| {
        *value = 42
    });

    assert_eq!(list.peek(), Some(&42));
    assert_eq!(list.pop(), Some(42));
}

#[test]
fn second_long_list() {
    let mut list = List::new();
    for i in 0..100000 {
        list.push(i);
    }
    drop(list);
}

#[test]
fn second_into_iter() {
    let mut list = List::new();
    list.push(1);
    list.push(2);
    list.push(3);

    let mut iter = list.into_iter();
    assert_eq!(iter.next(), Some(3));
    assert_eq!(iter.next(), Some(2));
    assert_eq!(iter.next(), Some(1));
    assert_eq!(iter.next(), None);
}

#[test]
fn second_iter() {
    let mut list = List::new();
    list.push(1);
    list.push(2);
    list.push(3);

    let mut iter = list.iter();
    assert_eq!(iter.next(), Some(&3));
    assert_eq!(iter.next(), Some(&2));
    assert_eq!(iter.next(), Some(&1));
}

#[test]
fn second_iter_mut() {
    let mut list = List::new();
    list.push(1);
    list.push(2);
    list.push(3);

    let mut iter = list.iter_mut();
    assert_eq!(iter.next(), Some(&mut 3));
    assert_eq!(iter.next(), Some(&mut 2));
    assert_eq!(iter.next(), Some(&mut 1));
}

#[test]
fn second_pop_on_empty_stays_empty() {
    let mut list: List<String> = List::new();
    assert_eq!(list.pop(), None);
    assert_eq!(list.peek(), None);
    assert_eq!(list.pop(), None);
    list.push(String::from("a"));
    assert_eq!(list.pop(), Some(String::from("a")));
    assert_eq!(list.pop(), None);
}

#[test]
fn second_pops_reverse_pushes() {
    let mut list = List::new();
    list.push('z');
    let pushed = ['a', 'b', 'c', 'd'];
    for x in pushed {
        list.push(x);
    }
    let mut popped = Vec::new();
    for _ in 0..pushed.len() {
        popped.push(list.pop());
    }
    assert_eq!(popped, vec![Some('d'), Some('c'), Some('b'), Some('a')]);
    assert_eq!(list.peek(), Some(&'z'));
}

#[test]
fn second_iter_mut_change_is_seen_by_peek() {
    let mut list = List::new();
    list.push(1);
    list.push(2);
    list.push(3);

    let mut iter = list.iter_mut();
    if let Some(first) = iter.next() {
        *first = 42;
    }
    assert_eq!(list.peek(), Some(&42));
    assert_eq!(list.pop(), Some(42));
    assert_eq!(list.pop(), Some(2));
    assert_eq!(list.pop(), Some(1));
    assert_eq!(list.pop(), None);
}

#[test]
fn second_iter_mut_visits_each_element_once() {
    let mut list = List::new();
    for i in 1..=5 {
        list.push(i);
    }
    let mut iter = list.iter_mut();
    let mut seen = 0;
    while let Some(elem) = iter.next() {
        *elem *= 10;
        seen += 1;
    }
    assert_eq!(seen, 5);
    assert_eq!(iter.next(), None);
    let mut iter = list.iter();
    let mut values = Vec::new();
    while let Some(elem) = iter.next() {
        values.push(*elem);
    }
    assert_eq!(values, vec![50, 40, 30, 20, 10]);
}

#[test]
fn second_iter_does_not_consume() {
    let mut list = List::new();
    list.push(1);
    list.push(2);
    let mut iter = list.iter();
    assert_eq!(iter.next(), Some(&2));
    assert_eq!(iter.next(), Some(&1));
    assert_eq!(iter.next(), None);
    assert_eq!(iter.next(), None);
    assert_eq!(list.peek(), Some(&2));
    assert_eq!(list.pop(), Some(2));
    assert_eq!(list.pop(), Some(1));
}

#[test]
fn second_into_iter_on_empty() {
    let list: List<u8> = List::new();
    let mut iter = list.into_iter();
    assert_eq!(iter.next(), None);
    assert_eq!(iter.next(), None);
}

#[test]
fn second_clear_releases_a_long_list() {
    let mut list = List::new();
    for i in 0..200000 {
        list.push(i);
    }
    list.clear();
    assert_eq!(list.peek(), None);
    list.push(1);
    assert_eq!(list.pop(), Some(1));
}
