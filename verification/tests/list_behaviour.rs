use lru_exercise::id::Id;
use lru_exercise::list::{nodes, List};
use lru_exercise::RefCount;
use std::rc::Rc;

fn chars(list: &List<char>) -> String {
    String::from_iter(list.to_vec())
}

#[test]
fn pops_on_empty_list_give_none() {
    let mut list: List<char> = List::new();
    assert!(list.pop_front().is_none());
    assert!(list.pop_back().is_none());
    assert!(list.is_empty());
}

#[test]
fn push_then_pop_front_gives_back_the_data() {
    let mut list: List<char> = List::new();
    list.push_front('x');
    list.push_front('y');
    list.push_front('z');
    assert_eq!(Some('z'), list.pop_front());
    assert_eq!("yx", chars(&list));
}

#[test]
fn move_to_front_keeps_the_values() {
    let mut list: List<char> = List::new();
    list.push_front('c');
    let b = list.push_front('b');
    list.push_front('a');
    list.move_to_front(&b);
    let mut moved: Vec<char> = list.to_vec();
    assert_eq!(vec!['b', 'a', 'c'], moved);
    moved.sort();
    assert_eq!(vec!['a', 'b', 'c'], moved);
}

#[test]
fn moving_the_tail_to_the_front() {
    let mut list: List<char> = List::new();
    let c = list.push_front('c');
    list.push_front('b');
    list.push_front('a');
    list.move_to_front(&c);
    assert_eq!("cab", chars(&list));
    assert_eq!(Some('b'), list.pop_back());
    assert_eq!("ca", chars(&list));
    assert_eq!(Some('a'), list.pop_back());
    assert_eq!(Some('c'), list.pop_back());
    assert!(list.is_empty());
}

#[test]
fn a_popped_node_with_a_kept_handle_can_be_moved_back_in() {
    let mut list: List<char> = List::new();
    list.push_front('b');
    let a = list.push_front('a');
    assert_eq!(Some('a'), list.pop_front());
    assert_eq!("b", chars(&list));
    assert_eq!(Some(&'a'), list.get(&a));
    assert_eq!(2, nodes(&list).len());
    list.move_to_front(&a);
    assert_eq!("ab", chars(&list));
}

#[test]
fn a_popped_node_without_handles_is_freed() {
    let mut list: List<char> = List::new();
    let b = list.push_front('b');
    list.push_front('a');
    assert_eq!(Some('a'), list.pop_front());
    assert_eq!(vec![b.key.id], nodes(&list));
    // Its slot is used again, by a node of a new identity.
    let c = list.push_front('c');
    assert_eq!(Id(2), c.key.id);
    assert_eq!("cb", chars(&list));
}

#[test]
fn moving_an_unlinked_node_into_an_empty_list_loses_the_tail() {
    let mut list: List<char> = List::new();
    let a = list.push_front('a');
    assert_eq!(Some('a'), list.pop_back());
    list.move_to_front(&a);
    assert_eq!("a", chars(&list));
    // The tail pointer is unset: there is nothing to pop at the back.
    assert!(list.pop_back().is_none());
    assert_eq!("a", chars(&list));
    // Emptying the list from the front restores it.
    assert_eq!(Some('a'), list.pop_front());
    list.push_front('b');
    assert!(!list.is_empty());
    assert_eq!(Some('b'), list.pop_back());
    assert!(list.is_empty());
}

#[test]
fn identities_are_never_reused() {
    let mut list: List<i32> = List::new();
    let first = list.push_front(1);
    list.pop_back();
    let second = list.push_front(2);
    assert_eq!(Id(0), first.key.id);
    assert_eq!(Id(1), second.key.id);
}

#[test]
fn set_replaces_data_in_place() {
    let mut list: List<char> = List::new();
    list.push_front('c');
    let b = list.push_front('b');
    list.push_front('a');
    list.set(&b, 'B');
    assert_eq!("aBc", chars(&list));
}

#[test]
fn handles_follow_the_order() {
    let mut list: List<char> = List::new();
    let c = list.push_front('c');
    let b = list.push_front('b');
    let a = list.push_front('a');
    let ids: Vec<Id> = list.handles().iter().map(|h| h.key.id).collect();
    assert_eq!(vec![a.key.id, b.key.id, c.key.id], ids);
    assert_eq!(vec![Id(2), Id(1), Id(0)], ids);
}

#[test]
fn ref_counts_count_the_lists_own_links() {
    let mut list: List<i32> = List::new();
    list.push_front(3);
    list.push_front(2);
    list.push_front(1);
    let counts = list.to_ref_counts();
    assert_eq!(3, counts.len());
    assert_eq!((Id(2), 1, RefCount { strong: 1, weak: 1 }), counts[0]);
    assert_eq!((Id(1), 2, RefCount { strong: 1, weak: 1 }), counts[1]);
    assert_eq!((Id(0), 3, RefCount { strong: 2, weak: 0 }), counts[2]);

    let mut single: List<i32> = List::new();
    single.push_front(7);
    assert_eq!(vec![(Id(0), 7, RefCount { strong: 2, weak: 0 })], single.to_ref_counts());
}

#[test]
fn ref_counts_include_the_handles_kept() {
    let mut list: List<i32> = List::new();
    let three = list.push_front(3);
    let two = list.push_front(2);
    let one = list.push_front(1);
    let counts = list.to_ref_counts();
    assert_eq!((Id(2), 1, RefCount { strong: 2, weak: 1 }), counts[0]);
    assert_eq!((Id(1), 2, RefCount { strong: 2, weak: 1 }), counts[1]);
    assert_eq!((Id(0), 3, RefCount { strong: 3, weak: 0 }), counts[2]);
    assert_eq!(RefCount { strong: 2, weak: 1 }, RefCount::of(&one.token));
    drop(two);
    assert_eq!(RefCount { strong: 1, weak: 1 }, list.to_ref_counts()[1].2);
    // Moving the last node to the front moves the tail pointer and the
    // backward links with it.
    list.move_to_front(&three);
    let counts = list.to_ref_counts();
    assert_eq!((Id(0), 3, RefCount { strong: 2, weak: 1 }), counts[0]);
    assert_eq!((Id(2), 1, RefCount { strong: 2, weak: 1 }), counts[1]);
    assert_eq!((Id(1), 2, RefCount { strong: 2, weak: 0 }), counts[2]);
    // The new tail is counted by its own link, the tail pointer and the
    // handle that is kept.
    assert_eq!(Some(2), list.pop_back());
    assert_eq!(RefCount { strong: 3, weak: 0 }, list.to_ref_counts()[1].2);
    // Popping the head, whose handle is kept, drops the backward link to it.
    assert_eq!(Some(3), list.pop_front());
    assert_eq!(vec![(Id(2), 1, RefCount { strong: 3, weak: 0 })], list.to_ref_counts());
}

#[test]
fn nodes_lists_the_allocated_nodes() {
    let mut list: List<i32> = List::new();
    assert!(nodes(&list).is_empty());
    list.push_front(1);
    list.push_front(2);
    list.push_front(3);
    list.pop_back();
    let mut ids = nodes(&list);
    ids.sort_by_key(|id| id.0);
    assert_eq!(vec![Id(1), Id(2)], ids);
}

#[test]
fn id_next_counts_up_and_wraps() {
    let mut counter: usize = 5;
    assert_eq!(Id(5), Id::next(&mut counter));
    assert_eq!(6, counter);
    let mut last: usize = usize::MAX;
    assert_eq!(Id(usize::MAX), Id::next(&mut last));
    assert_eq!(0, last);
}

#[test]
fn ref_count_of_an_rc() {
    let a = Rc::new(5);
    assert_eq!(RefCount { strong: 1, weak: 0 }, RefCount::of(&a));
    let b = a.clone();
    let w = Rc::downgrade(&a);
    assert_eq!(RefCount { strong: 2, weak: 1 }, RefCount::of(&b));
    drop(w);
}

#[test]
fn a_default_list_is_empty() {
    let list: List<i32> = List::default();
    assert!(list.is_empty());
    assert!(nodes(&list).is_empty());
}
