use exercises::linked_list::{LinkedList, LinkedListIterator, Node};

fn list_of(values: &[i32]) -> LinkedList<i32> {
    let mut list: LinkedList<i32> = LinkedList::new();
    for v in values {
        list.push_front(*v);
    }
    list
}

#[test]
fn new_list_is_empty() {
    let list: LinkedList<String> = LinkedList::new();
    assert_eq!(list.get_size(), 0);
    assert!(list.is_empty());
}

#[test]
fn pop_front_on_new_list_gives_none() {
    let mut list: LinkedList<u32> = LinkedList::new();
    assert_eq!(list.pop_front(), None);
    assert_eq!(list.get_size(), 0);
    assert!(list.is_empty());
    assert_eq!(list.pop_front(), None);
}

#[test]
fn pushes_come_back_in_reverse_order() {
    let mut list: LinkedList<u32> = LinkedList::new();
    for i in 1..12 {
        list.push_front(i);
        assert_eq!(list.get_size(), i as usize);
    }
    assert!(!list.is_empty());
    for i in (1..12).rev() {
        assert_eq!(list.pop_front(), Some(i));
        assert_eq!(list.get_size(), (i - 1) as usize);
    }
    assert_eq!(list.pop_front(), None);
    assert_eq!(list.get_size(), 0);
    assert!(list.is_empty());
}

#[test]
fn is_empty_agrees_with_size_in_every_state() {
    let mut list: LinkedList<u8> = LinkedList::new();
    assert_eq!(list.is_empty(), list.get_size() == 0);
    list.push_front(7);
    assert_eq!(list.is_empty(), list.get_size() == 0);
    list.push_front(8);
    assert_eq!(list.is_empty(), list.get_size() == 0);
    list.pop_front();
    assert_eq!(list.is_empty(), list.get_size() == 0);
    list.pop_front();
    assert_eq!(list.is_empty(), list.get_size() == 0);
    list.pop_front();
    assert_eq!(list.is_empty(), list.get_size() == 0);
}

#[test]
fn pop_front_hands_the_value_over() {
    let mut list: LinkedList<String> = LinkedList::new();
    list.push_front(String::from("tail"));
    list.push_front(String::from("head"));
    let first: String = list.pop_front().unwrap();
    assert_eq!(first, "head");
    assert_eq!(list.get_size(), 1);
    assert_eq!(list.pop_front(), Some(String::from("tail")));
}

#[test]
fn to_string_puts_a_space_before_each_value() {
    let mut list: LinkedList<u32> = LinkedList::new();
    assert_eq!(list.to_string(), "");
    list.push_front(1);
    assert_eq!(list.to_string(), " 1");
    list.push_front(2);
    assert_eq!(list.to_string(), " 2 1");
    assert_eq!(list.get_size(), 2);
}

#[test]
fn to_string_shows_each_value_by_its_display() {
    let mut list: LinkedList<String> = LinkedList::new();
    list.push_front(String::from("b c"));
    list.push_front(String::new());
    list.push_front(String::from("a"));
    assert_eq!(list.to_string(), " a  b c");
}

#[test]
fn clone_holds_the_same_values() {
    let list = list_of(&[1, 2, 3]);
    let copy = list.clone();
    let from_list: Vec<i32> = (&list).into_iter().collect();
    let from_copy: Vec<i32> = (&copy).into_iter().collect();
    assert_eq!(from_list, vec![3, 2, 1]);
    assert_eq!(from_copy, from_list);
    assert_eq!(copy.get_size(), 3);
}

#[test]
fn clone_is_independent_of_its_source() {
    let list = list_of(&[1, 2, 3]);
    let mut copy = list.clone();
    copy.push_front(4);
    assert_eq!(copy.pop_front(), Some(4));
    assert_eq!(copy.pop_front(), Some(3));
    copy.push_front(9);
    assert_eq!(list.get_size(), 3);
    assert_eq!(list.to_string(), " 3 2 1");
    assert_eq!(copy.to_string(), " 9 2 1");
    drop(copy);
    assert_eq!(list.to_string(), " 3 2 1");
}

#[test]
fn clone_of_empty_list_is_empty() {
    let list: LinkedList<i32> = LinkedList::new();
    let copy = list.clone();
    assert!(copy.is_empty());
    assert!(copy == list);
}

#[test]
fn list_equals_itself_and_a_list_of_the_same_pushes() {
    let a = list_of(&[5, 6, 7]);
    let b = list_of(&[5, 6, 7]);
    assert!(a == a);
    assert!(a == b);
    assert!(b == a);
    let empty_a: LinkedList<i32> = LinkedList::new();
    let empty_b: LinkedList<i32> = LinkedList::new();
    assert!(empty_a == empty_b);
}

#[test]
fn one_more_push_makes_lists_unequal() {
    let a = list_of(&[5, 6, 7]);
    let mut b = list_of(&[5, 6, 7]);
    b.push_front(8);
    assert!(a != b);
    assert!(b != a);
    let empty: LinkedList<i32> = LinkedList::new();
    assert!(empty != a);
}

#[test]
fn lists_with_different_values_are_unequal() {
    assert!(list_of(&[1, 2, 3]) != list_of(&[1, 2, 4]));
    assert!(list_of(&[1, 2, 3]) != list_of(&[0, 2, 3]));
    assert!(list_of(&[1, 2]) != list_of(&[2, 1]));
}

#[test]
fn list_of_a_value_unequal_to_itself_is_unequal_to_itself() {
    let mut list: LinkedList<f64> = LinkedList::new();
    list.push_front(f64::NAN);
    assert!(list != list);
}

#[test]
fn draining_iteration_empties_the_list() {
    let mut list = list_of(&[1, 2, 3, 4]);
    let mut seen: Vec<i32> = Vec::new();
    while let Some(v) = list.next() {
        seen.push(v);
    }
    assert_eq!(seen, vec![4, 3, 2, 1]);
    assert_eq!(list.get_size(), 0);
    assert!(list.is_empty());
    assert_eq!(list.next(), None);
    list.push_front(5);
    assert_eq!(list.next(), Some(5));
}

#[test]
fn borrowing_iteration_leaves_the_list_alone() {
    let list = list_of(&[1, 2, 3]);
    let mut walk: LinkedListIterator<i32> = (&list).into_iter();
    assert_eq!(walk.next(), Some(3));
    assert_eq!(walk.next(), Some(2));
    assert_eq!(walk.next(), Some(1));
    assert_eq!(walk.next(), None);
    assert_eq!(walk.next(), None);
    let mut again: Vec<i32> = Vec::new();
    for v in &list {
        again.push(v);
    }
    assert_eq!(again, vec![3, 2, 1]);
    assert_eq!(list.get_size(), 3);
}

#[test]
fn norm_of_three_and_four_is_five() {
    let mut list: LinkedList<f64> = LinkedList::new();
    list.push_front(3.0);
    list.push_front(4.0);
    let norm: f64 = (&list).into_iter().map(|x| x * x).sum::<f64>().sqrt();
    assert_eq!(norm, 5.0);
    assert_eq!(list.get_size(), 2);
    assert_eq!(list.pop_front(), Some(4.0));
    assert_eq!(list.pop_front(), Some(3.0));
    let empty: LinkedList<f64> = LinkedList::new();
    let norm: f64 = (&empty).into_iter().map(|x| x * x).sum::<f64>().sqrt();
    assert_eq!(norm, 0.0);
}

#[test]
fn long_list_is_dropped_without_deep_recursion() {
    let mut list: LinkedList<u64> = LinkedList::new();
    for i in 0..100_000u64 {
        list.push_front(i);
    }
    assert_eq!(list.get_size(), 100_000);
    drop(list);
}

#[test]
fn long_list_is_drained_by_iteration() {
    let mut list: LinkedList<u32> = LinkedList::new();
    for i in 0..100_000u32 {
        list.push_front(i);
    }
    let mut count: u32 = 0;
    while let Some(v) = list.next() {
        count += 1;
        assert_eq!(v, 100_000 - count);
    }
    assert_eq!(count, 100_000);
    assert!(list.is_empty());
}

#[test]
fn nodes_compare_by_their_chains() {
    let single = Node::new(1, None);
    assert!(single == Node::new(1, None));
    assert!(single != Node::new(2, None));
    let chain = Node::new(2, Some(Box::new(Node::new(1, None))));
    assert!(chain == Node::new(2, Some(Box::new(Node::new(1, None)))));
    assert!(chain != Node::new(2, None));
    assert!(chain != Node::new(2, Some(Box::new(Node::new(3, None)))));
    assert!(chain.clone() == chain);
}

#[test]
fn long_list_is_cloned_and_compared() {
    let mut list: LinkedList<u32> = LinkedList::new();
    for i in 0..100_000u32 {
        list.push_front(i);
    }
    let mut copy = list.clone();
    assert_eq!(copy.get_size(), 100_000);
    assert!(copy == list);
    assert_eq!(copy.pop_front(), Some(99_999));
    assert!(copy != list);
    assert_eq!(list.get_size(), 100_000);
}

#[test]
fn clone_keeps_the_order_of_the_values() {
    let mut list: LinkedList<String> = LinkedList::new();
    list.push_front(String::from("c"));
    list.push_front(String::from("b"));
    list.push_front(String::from("a"));
    let mut copy = list.clone();
    assert_eq!(copy.pop_front(), Some(String::from("a")));
    assert_eq!(copy.pop_front(), Some(String::from("b")));
    assert_eq!(copy.pop_front(), Some(String::from("c")));
    assert_eq!(copy.pop_front(), None);
    assert_eq!(list.to_string(), " a b c");
}
