use data_structures::assoc_map::AssocMap;
use data_structures::bst::TreeNode;
use data_structures::graph::Graph;
use data_structures::heap::{HeapOrder, PriorityQueue};
use data_structures::queue::Queue;
use data_structures::sequence::{Sequence, SequenceError};
use data_structures::stack::Stack;

#[test]
fn stack_pops_in_reverse_push_order() {
    let mut s: Stack<i32> = Stack::new();
    for v in [1, 2, 3, 4, 5] {
        s.push(v);
    }
    assert_eq!(s.size(), 5);
    assert_eq!(s.peek(), Some(&5));
    let mut out = Vec::new();
    while let Some(v) = s.pop() {
        out.push(v);
    }
    assert_eq!(out, vec![5, 4, 3, 2, 1]);
    assert!(s.is_empty());
}

#[test]
fn stack_pop_on_empty_is_none() {
    let mut s: Stack<String> = Stack::new();
    assert_eq!(s.pop(), None);
    assert_eq!(s.peek(), None);
    assert_eq!(s.size(), 0);
}

#[test]
fn queue_is_first_in_first_out() {
    let mut q: Queue<&str> = Queue::new();
    for j in ["a", "b", "c", "d", "e"] {
        q.enqueue(j);
    }
    assert_eq!(q.size(), 5);
    assert_eq!(q.front(), Some(&"a"));
    assert_eq!(q.back(), Some(&"e"));
    assert_eq!(q.dequeue(), Some("a"));
    assert_eq!(q.dequeue(), Some("b"));
    assert_eq!(q.dequeue(), Some("c"));
    q.enqueue_front("urgent");
    assert_eq!(q.front(), Some(&"urgent"));
    assert_eq!(q.dequeue(), Some("urgent"));
    assert_eq!(q.dequeue(), Some("d"));
    assert_eq!(q.dequeue(), Some("e"));
    assert_eq!(q.dequeue(), None);
    assert!(q.is_empty());
    assert_eq!(q.front(), None);
    assert_eq!(q.back(), None);
}

#[test]
fn map_get_after_insert_and_overwrite() {
    let mut m: AssocMap<i32> = AssocMap::new();
    assert_eq!(m.insert(1, 12), None);
    assert_eq!(m.insert(2, 8), None);
    assert_eq!(m.get(1), Some(&12));
    assert_eq!(m.size(), 2);
    assert_eq!(m.insert(1, 20), Some(12));
    assert_eq!(m.get(1), Some(&20));
    assert_eq!(m.size(), 2);
    assert!(m.contains(2));
    assert!(!m.contains(3));
    assert_eq!(m.get(3), None);
}

#[test]
fn map_update_in_place_and_count() {
    let mut m: AssocMap<i32> = AssocMap::new();
    m.insert(5, 5);
    if let Some(v) = m.get_mut(5) {
        *v += 3;
    }
    assert_eq!(m.get(5), Some(&8));
    assert!(m.get_mut(6).is_none());
    for k in [1u64, 2, 1, 3, 2, 1, 4, 3, 1] {
        *m.entry_or_insert(k + 100, 0) += 1;
    }
    assert_eq!(m.get(101), Some(&4));
    assert_eq!(m.get(102), Some(&2));
    assert_eq!(m.get(103), Some(&2));
    assert_eq!(m.get(104), Some(&1));
    assert_eq!(*m.entry_or_insert(5, 99), 8);
    assert_eq!(m.remove(5), Some(8));
    assert_eq!(m.remove(5), None);
    assert_eq!(m.size(), 4);
}

fn sample_tree() -> TreeNode {
    let mut t = TreeNode::new(50);
    for v in [30, 70, 20, 40, 60, 80, 10, 25, 35, 65] {
        t.insert(v);
    }
    t
}

#[test]
fn bst_scenario_in_order_and_search() {
    let t = sample_tree();
    let mut sorted = Vec::new();
    t.in_order_traversal(&mut sorted);
    assert_eq!(sorted, vec![10, 20, 25, 30, 35, 40, 50, 60, 65, 70, 80]);
    assert!(!t.search(55));
    assert!(t.search(80));
    assert!(t.search(25));
    assert!(!t.search(15));
}

#[test]
fn bst_duplicates_are_ignored() {
    let mut t = TreeNode::new(255);
    for v in [232, 281, 225, 268, 240, 295, 232, 255] {
        t.insert(v);
    }
    let mut sorted = Vec::new();
    t.in_order_traversal(&mut sorted);
    assert_eq!(sorted, vec![225, 232, 240, 255, 268, 281, 295]);
}

#[test]
fn bst_single_node_traversal() {
    let t = TreeNode::new(7);
    let mut out = vec![1];
    t.in_order_traversal(&mut out);
    assert_eq!(out, vec![1, 7]);
}

fn names(v: &[&str]) -> Vec<String> {
    v.iter().map(|s| s.to_string()).collect()
}

#[test]
fn graph_edges_are_symmetric() {
    let mut g = Graph::new();
    g.add_node("A".to_string());
    g.add_edge("A".to_string(), "B".to_string());
    assert_eq!(g.neighbors(&"A".to_string()), names(&["B"]));
    assert_eq!(g.neighbors(&"B".to_string()), names(&["A"]));
    g.add_edge("A".to_string(), "B".to_string());
    assert_eq!(g.neighbors(&"A".to_string()), names(&["B", "B"]));
    assert_eq!(g.neighbors(&"Z".to_string()), Vec::<String>::new());
}

#[test]
fn graph_bfs_order() {
    let mut g = Graph::new();
    for n in ["Hub", "A", "B", "C", "D", "Lone"] {
        g.add_node(n.to_string());
    }
    g.add_edge("Hub".to_string(), "A".to_string());
    g.add_edge("Hub".to_string(), "B".to_string());
    g.add_edge("A".to_string(), "C".to_string());
    g.add_edge("B".to_string(), "D".to_string());
    g.add_edge("C".to_string(), "D".to_string());
    assert_eq!(g.bfs(&"Hub".to_string()), names(&["Hub", "A", "B", "C", "D"]));
    assert_eq!(g.bfs(&"C".to_string()), names(&["C", "A", "D", "Hub", "B"]));
    assert_eq!(g.bfs(&"Lone".to_string()), names(&["Lone"]));
    assert_eq!(g.bfs(&"Unknown".to_string()), names(&["Unknown"]));
}

#[test]
fn graph_bfs_plant_network() {
    let mut g = Graph::new();
    let edges = [
        ("Storage Tank", "Pump-A"),
        ("Pump-A", "Heat Exchanger"),
        ("Heat Exchanger", "Reactor"),
        ("Reactor", "Separator"),
        ("Separator", "Control Valve"),
        ("Control Valve", "Pump-B"),
        ("Pump-B", "Storage Tank"),
        ("Heat Exchanger", "Control Valve"),
    ];
    for (a, b) in edges {
        g.add_edge(a.to_string(), b.to_string());
    }
    let order = g.bfs(&"Reactor".to_string());
    assert_eq!(
        order,
        names(&[
            "Reactor",
            "Heat Exchanger",
            "Separator",
            "Pump-A",
            "Control Valve",
            "Storage Tank",
            "Pump-B"
        ])
    );
}

#[test]
fn heap_max_scenario() {
    let mut q = PriorityQueue::new_max();
    for p in [3, 9, 5, 7, 2, 8] {
        q.push(p);
    }
    assert_eq!(q.peek(), Some(9));
    let mut out = Vec::new();
    while let Some(p) = q.pop() {
        out.push(p);
    }
    assert_eq!(out, vec![9, 8, 7, 5, 3, 2]);
    assert_eq!(q.pop(), None);
}

#[test]
fn heap_min_orders_ascending() {
    let mut q = PriorityQueue::new(HeapOrder::Min);
    for t in [28, 15, 32, 18, 25, 12, 30] {
        q.push(t);
    }
    assert_eq!(q.order(), HeapOrder::Min);
    assert_eq!(q.size(), 7);
    let all = q.top_k(10);
    assert_eq!(all, vec![12, 15, 18, 25, 28, 30, 32]);
    assert!(q.is_empty());
}

#[test]
fn heap_top_k_leaves_the_rest() {
    let mut q = PriorityQueue::new_max();
    for p in [1013, 1025, 1008, 1032, 995, 1021, 1017, 1025] {
        q.push(p);
    }
    assert_eq!(q.top_k(3), vec![1032, 1025, 1025]);
    assert_eq!(q.size(), 5);
    assert_eq!(q.peek(), Some(1021));
    assert_eq!(q.top_k(0), Vec::<i64>::new());
}

#[test]
fn sequence_append_get_and_capacity() {
    let mut s: Sequence<i32> = Sequence::new();
    assert_eq!(s.capacity(), 0);
    s.append(10);
    assert_eq!(s.capacity(), 1);
    s.append(20);
    assert_eq!(s.capacity(), 2);
    s.append(30);
    assert_eq!(s.capacity(), 4);
    assert_eq!(s.length(), 3);
    assert_eq!(s.get(0), Ok(&10));
    assert_eq!(s.get(2), Ok(&30));
    assert_eq!(s.get(3), Err(SequenceError::IndexOutOfRange));
    assert_eq!(s.remove_last(), Some(30));
    assert_eq!(s.length(), 2);
    assert_eq!(s.capacity(), 4);
}

#[test]
fn sequence_empty_cases() {
    let mut s: Sequence<u8> = Sequence::with_capacity(3);
    assert_eq!(s.capacity(), 3);
    assert_eq!(s.remove_last(), None);
    assert_eq!(s.get(0), Err(SequenceError::IndexOutOfRange));
    for b in [1u8, 2, 3] {
        s.append(b);
    }
    assert_eq!(s.capacity(), 3);
    s.append(4);
    assert_eq!(s.capacity(), 6);
}

#[test]
fn graph_self_loop_and_repeated_edges() {
    let mut g = Graph::new();
    g.add_edge("A".to_string(), "A".to_string());
    assert_eq!(g.neighbors(&"A".to_string()), names(&["A", "A"]));
    g.add_edge("A".to_string(), "B".to_string());
    g.add_edge("B".to_string(), "A".to_string());
    assert_eq!(g.neighbors(&"B".to_string()), names(&["A", "A"]));
    assert_eq!(g.bfs(&"B".to_string()), names(&["B", "A"]));
    assert_eq!(g.node_ids(), names(&["A", "B"]));
}
