use algorithms::linked_list::LinkedList;

fn read_all(list: &LinkedList<i32>) -> Vec<i32> {
    let mut out = Vec::new();
    for i in 0..list.len() {
        out.push(*list.get(i as i32).unwrap());
    }
    out
}

#[test]
fn create_numeric_list() {
    let mut list = LinkedList::<i32>::new();
    list.add(1);
    list.add(2);
    list.add(3);
    assert_eq!(3, list.len());
}

#[test]
fn create_string_list() {
    let mut list_str = LinkedList::<String>::new();
    list_str.add("A".to_string());
    list_str.add("B".to_string());
    list_str.add("C".to_string());
    assert_eq!(3, list_str.len());
}

#[test]
fn test_reverse_linked_list_one_node() {
    let mut list = LinkedList::<i32>::new();
    let original_vec = vec![2];
    let reverse_vec = vec![2];
    for i in 0..original_vec.len() {
        list.add(original_vec[i]);
    }
    list.reverse();
    for i in 0..original_vec.len() {
        assert_eq!(reverse_vec[i], *list.get(i as i32).unwrap());
    }
}

#[test]
fn test_reverse_linked_list_1() {
    let mut list = LinkedList::<i32>::new();
    let original_vec = vec![2, 3, 5, 11, 9, 7];
    let reverse_vec = vec![7, 9, 11, 5, 3, 2];
    for i in 0..original_vec.len() {
        list.add(original_vec[i]);
    }
    list.reverse();
    for i in 0..original_vec.len() {
        assert_eq!(reverse_vec[i], *list.get(i as i32).unwrap());
    }
}

#[test]
fn test_reverse_linked_list_2() {
    let mut list = LinkedList::<i32>::new();
    let original_vec = vec![34, 56, 78, 25, 90, 10, 19, 34, 21, 45];
    let reverse_vec = vec![45, 21, 34, 19, 10, 90, 25, 78, 56, 34];
    for i in 0..original_vec.len() {
        list.add(original_vec[i]);
    }
    list.reverse();
    for i in 0..original_vec.len() {
        assert_eq!(reverse_vec[i], *list.get(i as i32).unwrap());
    }
}

#[test]
fn get_returns_appended_values_in_order() {
    let mut list = LinkedList::<i32>::new();
    for v in [4, 8, 15, 16, 23, 42] {
        list.add(v);
    }
    assert_eq!(read_all(&list), vec![4, 8, 15, 16, 23, 42]);
    assert_eq!(list.get(6), None);
    assert_eq!(list.get(100), None);
    assert_eq!(list.get(-1), None);
    assert_eq!(list.get(i32::MIN), None);
}

#[test]
fn get_on_empty_list_is_none() {
    let list = LinkedList::<i32>::new();
    assert_eq!(list.len(), 0);
    assert_eq!(list.get(0), None);
    assert_eq!(list.get(-5), None);
}

#[test]
fn reverse_gives_mirrored_positions() {
    let mut list = LinkedList::<i32>::new();
    let vals = [1, 2, 3, 4, 5];
    for v in vals {
        list.add(v);
    }
    list.reverse();
    for i in 0..vals.len() {
        assert_eq!(*list.get(i as i32).unwrap(), vals[vals.len() - 1 - i]);
    }
    assert_eq!(list.get(5), None);
}

#[test]
fn reverse_twice_restores_order() {
    let mut list = LinkedList::<i32>::new();
    for v in [10, 20, 30, 40] {
        list.add(v);
    }
    list.reverse();
    list.reverse();
    assert_eq!(read_all(&list), vec![10, 20, 30, 40]);
}

#[test]
fn reverse_empty_list_stays_empty() {
    let mut list = LinkedList::<i32>::new();
    list.reverse();
    assert_eq!(list.len(), 0);
    assert_eq!(list.get(0), None);
}

#[test]
fn reverse_single_value_is_unchanged() {
    let mut list = LinkedList::<i32>::new();
    list.add(2);
    list.reverse();
    assert_eq!(list.len(), 1);
    assert_eq!(read_all(&list), vec![2]);
}

#[test]
fn count_follows_appends_and_ignores_reverse() {
    let mut list = LinkedList::<i32>::new();
    for v in 0..7 {
        list.add(v);
        assert_eq!(list.len(), (v + 1) as u32);
    }
    list.reverse();
    assert_eq!(list.len(), 7);
}

#[test]
fn append_after_reverse_goes_to_new_tail() {
    let mut list = LinkedList::<i32>::new();
    for v in [1, 2, 3] {
        list.add(v);
    }
    list.reverse();
    list.add(9);
    assert_eq!(read_all(&list), vec![3, 2, 1, 9]);
    list.reverse();
    assert_eq!(read_all(&list), vec![9, 1, 2, 3]);
}

#[test]
fn default_list_is_empty() {
    let list: LinkedList<String> = Default::default();
    assert_eq!(list.len(), 0);
    assert_eq!(list.get(0), None);
}

#[test]
fn string_values_are_read_back() {
    let mut list = LinkedList::<String>::new();
    list.add("x".to_string());
    list.add("y".to_string());
    list.reverse();
    assert_eq!(list.get(0).map(|s| s.as_str()), Some("y"));
    assert_eq!(list.get(1).map(|s| s.as_str()), Some("x"));
}
