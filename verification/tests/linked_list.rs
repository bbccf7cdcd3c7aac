use linked_collections::linked_list::LinkedList;

#[test]
fn linked_list_from() {
    let mut list = LinkedList::from(vec![1, 2, 3, 4, 5]);
    assert_eq!(list.pop().unwrap(), 1);
    assert_eq!(list.pop().unwrap(), 2);
    assert_eq!(list.pop().unwrap(), 3);
    assert_eq!(list.pop().unwrap(), 4);
    assert_eq!(list.pop().unwrap(), 5);
    assert_eq!(list.pop(), None);
}

#[test]
fn get_tail() {
    let empty: LinkedList<i32> = LinkedList::new();
    assert_eq!(empty.get_tail(), None);
    let has_tail = LinkedList::from(vec![1, 2]);
    assert_eq!(has_tail.get_tail().unwrap(), &2);
    let head_only = LinkedList::from(vec![1]);
    assert_eq!(head_only.get_tail().unwrap(), &1);
    let deep_tail = LinkedList::from(vec![1, 2, 3, 4, 5]);
    assert_eq!(deep_tail.get_tail().unwrap(), &5);
}

#[test]
fn add() {
    let mut list = LinkedList::new();
    list.add(1);
    assert_eq!(list.get_tail().unwrap(), &1);
    list.add(2);
    assert_eq!(list.get_tail().unwrap(), &2);
    list.add(3);
    assert_eq!(list.get_tail().unwrap(), &3);
    list.add(9);
    assert_eq!(list.get_tail().unwrap(), &9);
}

#[test]
fn add_first() {
    let mut list = LinkedList::new();
    list.add(1);
    list.add(2);
    assert_eq!(list.get_head().unwrap(), &1);
    assert_eq!(list.get_tail().unwrap(), &2);
    list.add(3);
    assert_eq!(list.get_head().unwrap(), &1);
    assert_eq!(list.get_tail().unwrap(), &3);
    list.add_first(0);
    assert_eq!(list.get_head().unwrap(), &0);
    assert_eq!(list.get_tail().unwrap(), &3);
    list.add_first(15);
    assert_eq!(list.get_head().unwrap(), &15);
    assert_eq!(list.get_tail().unwrap(), &3);
}

fn elements(list: &LinkedList<i32>) -> Vec<i32> {
    let mut collected = Vec::new();
    let mut iter = list.iter();
    while let Some(value) = iter.next() {
        collected.push(*value);
    }
    collected
}

#[test]
fn add_after() {
    let mut list = LinkedList::new();
    list.add(1);
    list.add(2);
    list.add(3);
    list.add(4);
    assert_eq!(elements(&list), vec![1, 2, 3, 4]);
    list.add_after(5, &3).unwrap();
    assert_eq!(elements(&list), vec![1, 2, 3, 5, 4]);
}

#[test]
fn delete() {
    let mut deep_list = LinkedList::from(vec![1, 2, 3, 4, 5]);
    deep_list.delete(&3);
    assert_eq!(elements(&deep_list), vec![1, 2, 4, 5]);
    deep_list.delete(&1);
    assert_eq!(elements(&deep_list), vec![2, 4, 5]);
    deep_list.delete(&5);
    deep_list.delete(&2);
    assert_eq!(elements(&deep_list), vec![4]);
    deep_list.delete(&4);
    assert_eq!(deep_list.get_head(), None);
}

#[test]
fn delete_match() {
    let mut deep_list = LinkedList::from(vec![1, 2, 3, 4, 5]);
    assert_eq!(deep_list.len(), 5);
    assert_eq!(deep_list.delete_match(|value| value == &3).unwrap(), 3);
    assert_eq!(deep_list.len(), 4);
    assert_eq!(elements(&deep_list), vec![1, 2, 4, 5]);
    assert_eq!(deep_list.delete_match(|value| value == &1).unwrap(), 1);
    assert_eq!(deep_list.len(), 3);
    assert_eq!(elements(&deep_list), vec![2, 4, 5]);
    assert_eq!(deep_list.delete_match(|value| value / 5 == 1).unwrap(), 5);
    assert_eq!(deep_list.len(), 2);
    assert_eq!(elements(&deep_list), vec![2, 4]);
    assert_eq!(deep_list.delete_match(|value| value == &2).unwrap(), 2);
    assert_eq!(deep_list.len(), 1);
    assert_eq!(elements(&deep_list), vec![4]);
    assert_eq!(deep_list.delete_match(|value| value / 2 == 2).unwrap(), 4);
    assert_eq!(deep_list.len(), 0);
    assert_eq!(deep_list.get_head(), None);
}

#[test]
fn linked_list_pop() {
    let mut list = LinkedList::from(vec![1, 2, 3, 4, 5]);
    assert_eq!(list.pop().unwrap(), 1);
    assert_eq!(list.pop().unwrap(), 2);
    assert_eq!(list.pop().unwrap(), 3);
    assert_eq!(list.pop().unwrap(), 4);
    assert_eq!(list.pop().unwrap(), 5);
    assert_eq!(list.pop(), None);
}

#[test]
fn linked_list_peek() {
    let mut list = LinkedList::new();
    assert_eq!(list.peek(), None);
    list.add(1);
    assert_eq!(list.peek(), Some(&1));
    list.add_first(2);
    assert_eq!(list.peek(), Some(&2));
    list.add_first(3);
    assert_eq!(list.peek(), Some(&3));
    list.add(4);
    assert_eq!(list.peek(), Some(&3));
}

#[test]
fn contains() {
    let mut list = LinkedList::new();
    assert!(!list.contains(&0));
    list.add(0);
    assert!(list.contains(&0));
    list.add(1);
    list.add(5);
    list.add(9);
    assert!(list.contains(&1));
    assert!(list.contains(&5));
    assert!(list.contains(&9));
    assert!(!list.contains(&10));
    list.add(10);
    assert!(list.contains(&10));
}

#[derive(PartialOrd, PartialEq, Debug)]
struct SomeInnerObject {
    inner_string: String,
}

#[test]
fn set_head() {
    let mut list = LinkedList::new();
    assert_eq!(list.get_head(), None);
    list.add(SomeInnerObject {
        inner_string: "head".to_string(),
    });
    list.add(SomeInnerObject {
        inner_string: "second".to_string(),
    });
    list.add(SomeInnerObject {
        inner_string: "third".to_string(),
    });
    list.add(SomeInnerObject {
        inner_string: "fourth".to_string(),
    });
    assert_eq!(list.get_head().unwrap().inner_string, "head");
    list.set_head(SomeInnerObject {
        inner_string: "new head".to_string(),
    });
    assert_eq!(list.get_head().unwrap().inner_string, "new head");
    // Pop head, change it and set back
    let mut head = list.pop().unwrap();
    head.inner_string = "changed head".to_string();
    list.set_head(head);
    assert_eq!(list.get_head().unwrap().inner_string, "changed head");
}

#[test]
fn linked_list_len() {
    let mut list = LinkedList::new();
    assert_eq!(list.len(), 0);
    list.add(1);
    assert_eq!(list.len(), 1);
    list.add(5);
    list.add(10);
    list.add(20);
    assert_eq!(list.len(), 4);
    list.pop();
    assert_eq!(list.len(), 3);
    list.pop();
    assert_eq!(list.len(), 2);
    list.pop();
    assert_eq!(list.len(), 1);
    list.pop();
    assert_eq!(list.len(), 0);
}

#[test]
fn into_iter() {
    let list = LinkedList::from(vec![1, 2, 3, 4, 5]);
    let mut iter = list.into_iter();
    assert_eq!(iter.next().unwrap(), 1);
    assert_eq!(iter.next().unwrap(), 2);
    assert_eq!(iter.next().unwrap(), 3);
    assert_eq!(iter.next().unwrap(), 4);
    assert_eq!(iter.next().unwrap(), 5);
    assert_eq!(iter.next(), None);
    assert_eq!(iter.next(), None);
}

#[test]
fn iter() {
    let list = LinkedList::from(vec![1, 2, 3, 4, 5]);
    let mut iter = list.iter();
    assert_eq!(*iter.next().unwrap(), 1);
    assert_eq!(*iter.next().unwrap(), 2);
    assert_eq!(*iter.next().unwrap(), 3);
    assert_eq!(*iter.next().unwrap(), 4);
    assert_eq!(*iter.next().unwrap(), 5);
    assert_eq!(iter.next(), None);
}
