use linked_collections::error::NotFound;
use linked_collections::graph::Graph;
use linked_collections::graph::GraphNode;
use linked_collections::hashmap::HashMap;
use linked_collections::linked_list::LinkedList;
use linked_collections::linked_stack::LinkedStack;
use linked_collections::queue::Queue;
use linked_collections::stack::Stack;
use linked_collections::vector_based::VectorBasedDataStructure;

#[test]
fn it_works() {
    assert_eq!(2 + 2, 4);
}

#[test]
fn chain_length_tracks_reachable_nodes() {
    let mut chain = LinkedList::new();
    assert_eq!(chain.len(), 0);
    chain.add(10);
    chain.add_first(20);
    chain.add(30);
    assert_eq!(chain.len(), 3);
    chain.delete(&10);
    assert_eq!(chain.len(), 2);
    chain.delete(&10); // absent: a no-op, not an error
    assert_eq!(chain.len(), 2);
    chain.pop();
    assert_eq!(chain.len(), 1);
    chain.pop();
    assert_eq!(chain.len(), 0);
    chain.pop();
    assert_eq!(chain.len(), 0);
}

#[test]
fn chain_add_after_traversal_order() {
    let mut chain = LinkedList::new();
    chain.add(1);
    chain.add(2);
    chain.add(3);
    chain.add_after(5, &2).unwrap();
    let mut iter = chain.iter();
    assert_eq!(*iter.next().unwrap(), 1);
    assert_eq!(*iter.next().unwrap(), 2);
    assert_eq!(*iter.next().unwrap(), 5);
    assert_eq!(*iter.next().unwrap(), 3);
    assert_eq!(iter.next(), None);
}

#[test]
fn chain_add_after_missing_anchor() {
    let mut chain = LinkedList::from(vec![1, 2, 3]);
    assert_eq!(chain.add_after(5, &9), Err(NotFound));
    assert_eq!(chain.len(), 3);
    let mut iter = chain.iter();
    assert_eq!(*iter.next().unwrap(), 1);
    assert_eq!(*iter.next().unwrap(), 2);
    assert_eq!(*iter.next().unwrap(), 3);
    assert_eq!(iter.next(), None);
}

#[test]
fn chain_add_after_first_of_duplicates() {
    let mut chain = LinkedList::from(vec![7, 7, 8]);
    chain.add_after(1, &7).unwrap();
    let mut iter = chain.iter();
    assert_eq!(*iter.next().unwrap(), 7);
    assert_eq!(*iter.next().unwrap(), 1);
    assert_eq!(*iter.next().unwrap(), 7);
    assert_eq!(*iter.next().unwrap(), 8);
    assert_eq!(iter.next(), None);
}

#[test]
fn chain_find_and_find_match() {
    let chain = LinkedList::from(vec![4, 8, 15, 16]);
    assert_eq!(chain.find(&15), Some(&15));
    assert_eq!(chain.find(&23), None);
    assert_eq!(chain.find_match(&|v: &i32| v % 2 == 1), Some(&15));
    assert_eq!(chain.find_match(&|v: &i32| *v > 100), None);
    assert!(chain.contains_match(&|v: &i32| *v == 16));
    assert!(!chain.contains_match(&|v: &i32| *v < 0));
}

#[test]
fn chain_get_tail_mut_rewrites_tail() {
    let mut chain = LinkedList::from(vec![1, 2, 3]);
    if let Some(tail) = chain.get_tail_mut() {
        *tail = 30;
    }
    assert_eq!(chain.get_tail(), Some(&30));
    assert_eq!(chain.len(), 3);
    let mut empty: LinkedList<i32> = LinkedList::new();
    assert_eq!(empty.get_tail_mut(), None);
}

#[test]
fn map_uniqueness_last_value_wins() {
    let mut map: HashMap<i32, i32> = HashMap::new();
    map.put(7, 1);
    map.put(7, 2);
    assert_eq!(map.len(), 1);
    assert_eq!(map.get(&7), Some(&2));
    assert_eq!(map.keys().len(), 1);
}

#[test]
fn map_size_accounting() {
    let mut map: HashMap<i32, i32> = HashMap::with_capacity(4);
    for k in 0..10 {
        map.put(k, k * k);
    }
    assert_eq!(map.len(), 10);
    for k in 0..4 {
        assert!(map.remove(&k).is_some());
    }
    assert_eq!(map.len(), 6);
}

#[test]
fn map_round_trip() {
    let mut map: HashMap<i32, i32> = HashMap::new();
    map.put(3, 42);
    assert_eq!(map.remove(&3), Some(42));
    assert_eq!(map.get(&3), None);
}

#[test]
fn map_string_keys_round_trip() {
    let mut map: HashMap<String, u32> = HashMap::with_capacity(3);
    map.put(String::from("alpha"), 1);
    map.put(String::from("beta"), 2);
    map.put(String::from("alpha"), 3);
    assert_eq!(map.len(), 2);
    assert_eq!(map.get(&String::from("alpha")), Some(&3));
    assert_eq!(map.remove(&String::from("beta")), Some(2));
    assert_eq!(map.get(&String::from("beta")), None);
    assert_eq!(map.len(), 1);
}

#[test]
fn single_bucket_uniqueness_and_round_trip() {
    let mut map: HashMap<i32, i32> = HashMap::with_capacity(1);
    map.put(1, 10);
    map.put(2, 20);
    map.put(1, 11);
    assert_eq!(map.len(), 2);
    assert_eq!(map.get(&1), Some(&11));
    assert_eq!(map.remove(&1), Some(11));
    assert_eq!(map.get(&1), None);
    assert_eq!(map.get(&2), Some(&20));
}

#[test]
fn graph_line_dedup() {
    let mut graph: Graph<i32> = Graph::new();
    let a = graph.add_node(1);
    let b = graph.add_node(2);
    graph.add_line(a, b).unwrap();
    graph.add_line(a, b).unwrap();
    let lines = graph.get_node(a).unwrap().get_lines();
    assert_eq!(lines.iter().filter(|t| **t == b).count(), 1);
    assert_eq!(lines.len(), 1);
}

#[test]
fn graph_node_line_dedup_by_index() {
    // two nodes with equal payloads stay distinct edge targets
    let mut graph: Graph<i32> = Graph::new();
    let origin = graph.add_node(0);
    let twin_a = graph.add_node(5);
    let twin_b = graph.add_node(5);
    graph.add_line(origin, twin_a).unwrap();
    graph.add_line(origin, twin_b).unwrap();
    assert_eq!(graph.get_node(origin).unwrap().get_lines(), &vec![twin_a, twin_b]);
}

#[test]
fn graph_remove_line_missing_is_an_error() {
    let mut graph: Graph<i32> = Graph::new();
    let a = graph.add_node(1);
    let b = graph.add_node(2);
    assert_eq!(graph.remove_line(a, b), Err(NotFound));
    assert_eq!(graph.remove_line(9, b), Err(NotFound));
    assert_eq!(graph.add_line(a, 9), Err(NotFound));
    let mut node = GraphNode::new(1);
    assert_eq!(node.remove_line(3), Err(NotFound));
}

#[test]
fn queue_fifo_order() {
    let mut queue = Queue::new();
    queue.enqueue(1);
    queue.enqueue(2);
    queue.enqueue(3);
    assert_eq!(queue.dequeue(), Some(1));
    assert_eq!(queue.dequeue(), Some(2));
    assert_eq!(queue.dequeue(), Some(3));
    assert_eq!(queue.dequeue(), None);
}

#[test]
fn stack_lifo_order() {
    let mut stack = Stack::new();
    stack.push(1);
    stack.push(2);
    stack.push(3);
    assert_eq!(stack.pop(), Some(3));
    assert_eq!(stack.pop(), Some(2));
    assert_eq!(stack.pop(), Some(1));
    assert_eq!(stack.pop(), None);
}

#[test]
fn linked_stack_lifo_order() {
    let mut stack = LinkedStack::new();
    stack.push(1);
    stack.push(2);
    stack.push(3);
    assert_eq!(stack.pop(), Some(3));
    assert_eq!(stack.pop(), Some(2));
    assert_eq!(stack.pop(), Some(1));
    assert_eq!(stack.pop(), None);
}

#[test]
fn map_empty_and_unicode_string_keys() {
    let mut map: HashMap<String, i32> = HashMap::with_capacity(2);
    map.put(String::new(), 1);
    map.put(String::from("héllo wörld"), 2);
    assert_eq!(map.get(&String::new()), Some(&1));
    assert_eq!(map.get(&String::from("héllo wörld")), Some(&2));
    assert_eq!(map.len(), 2);
    assert_eq!(map.remove(&String::new()), Some(1));
    assert_eq!(map.get(&String::new()), None);
}

#[test]
fn map_keys_collide_in_one_bucket_stay_distinct() {
    // with two buckets, keys 0, 2, 4 all land in one bucket
    let mut map: HashMap<i32, i32> = HashMap::with_capacity(2);
    map.put(0, 100);
    map.put(2, 102);
    map.put(4, 104);
    assert_eq!(map.len(), 3);
    assert_eq!(map.get(&0), Some(&100));
    assert_eq!(map.get(&2), Some(&102));
    assert_eq!(map.get(&4), Some(&104));
    let keys = map.keys();
    assert_eq!(keys.len(), 3);
}
