use workbench::deque::List;

#[test]
fn basics() {
    let mut list = List::new();

    assert_eq!(list.pop_front(), None);

    list.push_front(1);
    list.push_front(2);
    list.push_front(3);

    assert_eq!(list.pop_front(), Some(3));
    assert_eq!(list.pop_front(), Some(2));

    list.push_front(4);
    list.push_front(5);

    assert_eq!(list.pop_front(), Some(5));
    assert_eq!(list.pop_front(), Some(4));

    assert_eq!(list.pop_front(), Some(1));
    assert_eq!(list.pop_front(), None);

    assert_eq!(list.pop_front(), None);

    list.push_back(1);
    list.push_back(2);
    list.push_back(3);

    assert_eq!(list.pop_back(), Some(3));
    assert_eq!(list.pop_back(), Some(2));

    list.push_back(4);
    list.push_back(5);

    assert_eq!(list.pop_back(), Some(5));
    assert_eq!(list.pop_back(), Some(4));
    assert_eq!(list.pop_back(), Some(1));
    assert_eq!(list.pop_back(), None);
}

#[test]
fn peek() {
    let mut list = List::new();
    assert!(list.peek_front().is_none());
    assert!(list.peek_back().is_none());
    assert!(list.peek_front_mut().is_none());
    assert!(list.peek_back_mut().is_none());

    list.push_front(1);
    list.push_front(2);
    list.push_front(3);

    assert_eq!(&*list.peek_front().unwrap(), &3);
    assert_eq!(&mut *list.peek_front_mut().unwrap(), &mut 3);
    assert_eq!(&*list.peek_back().unwrap(), &1);
    assert_eq!(&mut *list.peek_back_mut().unwrap(), &mut 1);
}

#[test]
fn into_iter() {
    let mut list = List::new();
    list.push_front(1);
    list.push_front(2);
    list.push_front(3);

    let mut iter = list.into_iter();
    assert_eq!(iter.next(), Some(3));
    assert_eq!(iter.next_back(), Some(1));
    assert_eq!(iter.next(), Some(2));
    assert_eq!(iter.next_back(), None);
    assert_eq!(iter.next(), None);
}

#[test]
fn front_pushes_leave_by_the_back_in_order() {
    let mut list = List::new();
    list.push_front('a');
    list.push_front('b');
    list.push_back('z');
    assert_eq!(list.pop_back(), Some('z'));
    assert_eq!(list.pop_back(), Some('a'));
    assert_eq!(list.pop_back(), Some('b'));
    assert_eq!(list.pop_back(), None);
    assert_eq!(list.pop_front(), None);
}

#[test]
fn peeks_change_the_ends_in_place() {
    let mut list = List::new();
    list.push_back(String::from("middle"));
    list.push_front(String::from("first"));
    list.push_back(String::from("last"));
    list.peek_front_mut().unwrap().push('!');
    *list.peek_back_mut().unwrap() = String::from("end");
    assert_eq!(list.peek_front().map(|s| s.as_str()), Some("first!"));
    assert_eq!(list.peek_back().map(|s| s.as_str()), Some("end"));
    assert_eq!(list.pop_front(), Some(String::from("first!")));
    assert_eq!(list.pop_front(), Some(String::from("middle")));
    assert_eq!(list.pop_front(), Some(String::from("end")));
}

#[test]
fn iter_walks_front_to_back_and_reused_nodes_keep_order() {
    let mut list = List::new();
    for i in 0..5 {
        list.push_back(i);
    }
    assert_eq!(list.pop_front(), Some(0));
    assert_eq!(list.pop_back(), Some(4));
    list.push_front(10);
    list.push_back(20);
    let mut seen = Vec::new();
    let mut iter = list.iter();
    while let Some(x) = iter.next() {
        seen.push(*x);
    }
    assert_eq!(seen, vec![10, 1, 2, 3, 20]);
    assert_eq!(iter.next(), None);
}

#[test]
fn a_single_element_is_both_ends() {
    let mut list = List::new();
    list.push_back(7);
    assert_eq!(list.peek_front(), Some(&7));
    assert_eq!(list.peek_back(), Some(&7));
    assert_eq!(list.pop_front(), Some(7));
    assert!(list.peek_back().is_none());
    list.push_front(8);
    assert_eq!(list.pop_back(), Some(8));
    assert!(list.peek_front().is_none());
}

#[test]
fn mixed_draining_hands_out_each_element_once() {
    let mut list = List::new();
    for i in 0..6 {
        list.push_back(i);
    }
    let mut iter = list.into_iter();
    let got = vec![
        iter.next(),
        iter.next_back(),
        iter.next_back(),
        iter.next(),
        iter.next_back(),
        iter.next(),
    ];
    assert_eq!(got, vec![Some(0), Some(5), Some(4), Some(1), Some(3), Some(2)]);
    assert_eq!(iter.next(), None);
    assert_eq!(iter.next_back(), None);
}
