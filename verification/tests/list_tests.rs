use lru_exercise::list::List;

fn list_from_str(s: &str) -> List<char> {
    let mut list = List::new();
    for c in s.chars().rev() {
        list.push_front(c);
    }
    list
}

fn list_to_string(list: &List<char>) -> String {
    String::from_iter(list.to_vec())
}

#[test]
fn string_round_trip() {
    let s = "abcdefg";
    assert_eq!(s, list_to_string(&list_from_str(s)));
}

#[test]
fn move_to_front_1() {
    let mut list: List<char> = List::new();
    assert!(list.is_empty());
    let a_node = list.push_front('a');
    assert!(!list.is_empty());
    list.move_to_front(&a_node);
    assert_eq!("a", list_to_string(&list));
}

#[test]
fn move_to_front_2() {
    let mut list: List<char> = List::new();
    let a_node = list.push_front('a');
    let _b_node = list.push_front('b');
    assert_eq!("ba", list_to_string(&list));
    list.move_to_front(&a_node);
    assert_eq!("ab", list_to_string(&list));
}

#[test]
fn move_to_front_3() {
    let mut list: List<char> = List::new();
    let _c_node = list.push_front('c');
    let b_node = list.push_front('b');
    let _a_node = list.push_front('a');
    list.move_to_front(&b_node);
    assert_eq!("bac", list_to_string(&list));
}

#[test]
fn move_to_front() {
    let mut list: List<char> = List::new();
    assert_eq!("", list_to_string(&list));
    assert!(list.is_empty());

    let e_node = list.push_front('e');
    let d_node = list.push_front('d');
    let c_node = list.push_front('c');
    let b_node = list.push_front('b');
    let a_node = list.push_front('a');
    assert_eq!("abcde", list_to_string(&list));

    list.move_to_front(&b_node);
    assert_eq!("bacde", list_to_string(&list));
    assert!(!list.is_empty());

    list.move_to_front(&c_node);
    assert_eq!("cbade", list_to_string(&list));
    assert!(!list.is_empty());

    list.move_to_front(&d_node);
    assert_eq!("dcbae", list_to_string(&list));
    assert!(!list.is_empty());

    list.move_to_front(&e_node);
    assert_eq!("edcba", list_to_string(&list));
    assert!(!list.is_empty());

    list.move_to_front(&a_node);
    assert_eq!("aedcb", list_to_string(&list));
    assert!(!list.is_empty());
}

#[test]
fn pop_back() {
    let mut list = list_from_str("abc");
    assert_eq!("abc", list_to_string(&list));
    assert!(!list.is_empty());

    assert_eq!('c', list.pop_back().unwrap());
    assert_eq!("ab", list_to_string(&list));
    assert!(!list.is_empty());

    assert_eq!('b', list.pop_back().unwrap());
    assert_eq!("a", list_to_string(&list));
    assert!(!list.is_empty());

    assert_eq!('a', list.pop_back().unwrap());
    assert_eq!("", list_to_string(&list));
    assert!(list.is_empty());
}

#[test]
fn pop_front() {
    let mut list = list_from_str("abc");
    assert_eq!("abc", list_to_string(&list));
    assert!(!list.is_empty());

    assert_eq!('a', list.pop_front().unwrap());
    assert_eq!("bc", list_to_string(&list));
    assert!(!list.is_empty());

    assert_eq!('b', list.pop_front().unwrap());
    assert_eq!("c", list_to_string(&list));
    assert!(!list.is_empty());

    assert_eq!('c', list.pop_front().unwrap());
    assert_eq!("", list_to_string(&list));
    assert!(list.is_empty());

    assert!(list.pop_front().is_none());
}
