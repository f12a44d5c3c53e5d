use maze::dsu::DisjointSet;
use maze::priority_queue::PriorityQueue;
use maze::progress::ProgressTracker;
use maze::cell::Cell;
use maze::queue::Queue;
use maze::solvers::astar::heuristic;
use maze::stack::Stack;

#[test]
fn test_queue_is_fifo() {
    let mut q: Queue<(usize, usize)> = Queue::new();
    assert!(q.is_empty());
    q.enqueue((1, 2));
    q.enqueue((3, 4));
    assert_eq!(q.length(), 2);
    assert_eq!(q.dequeue(), Some((1, 2)));
    assert_eq!(q.dequeue(), Some((3, 4)));
    assert_eq!(q.dequeue(), None);
}

#[test]
fn test_stack_is_lifo() {
    let mut s: Stack<(usize, usize)> = Stack::new();
    assert!(s.is_empty());
    s.push((1, 2));
    s.push((3, 4));
    assert_eq!(s.peek(), Some(&(3, 4)));
    assert_eq!(s.length(), 2);
    assert_eq!(s.pop(), Some((3, 4)));
    assert_eq!(s.pop(), Some((1, 2)));
    assert_eq!(s.pop(), None);
    assert_eq!(s.peek(), None);
}

#[test]
fn test_priority_queue_pops_minimum() {
    let mut pq: PriorityQueue<(usize, usize)> = PriorityQueue::new();
    assert!(pq.is_empty());
    pq.push((5, (0, 5)));
    pq.push((1, (0, 1)));
    pq.push((3, (0, 3)));
    assert_eq!(pq.length(), 3);
    assert_eq!(pq.peek().map(|e| e.0), Some(1));
    assert_eq!(pq.pop(), Some((1, (0, 1))));
    assert_eq!(pq.pop(), Some((3, (0, 3))));
    pq.push((2, (0, 2)));
    assert_eq!(pq.pop(), Some((2, (0, 2))));
    assert_eq!(pq.pop(), Some((5, (0, 5))));
    assert_eq!(pq.pop(), None);
}

#[test]
fn test_priority_queue_tie_priorities() {
    let mut pq: PriorityQueue<usize> = PriorityQueue::new();
    pq.push((7, 1));
    pq.push((7, 2));
    let a = pq.pop().unwrap();
    let b = pq.pop().unwrap();
    assert_eq!(a.0, 7);
    assert_eq!(b.0, 7);
    let mut payloads = vec![a.1, b.1];
    payloads.sort();
    assert_eq!(payloads, vec![1, 2]);
}

#[test]
fn test_disjoint_set_union_find() {
    let mut d = DisjointSet::new(6);
    for i in 0..6 {
        assert_eq!(d.find(i), i);
    }
    d.union(0, 1);
    assert_eq!(d.find(0), d.find(1));
    assert_ne!(d.find(0), d.find(2));
    d.union(2, 3);
    d.union(1, 3);
    assert_eq!(d.find(0), d.find(3));
    assert_eq!(d.find(1), d.find(2));
    assert_ne!(d.find(0), d.find(4));
    // Joining two labels of one component changes nothing.
    let before = d.find(0);
    d.union(0, 2);
    assert_eq!(d.find(0), before);
}

#[test]
fn test_progress_tracker_respects_enabled_flag() {
    let mut on = ProgressTracker::new(true);
    on.record(1, 2, Cell::Path);
    on.record(3, 4, Cell::Wall);
    assert_eq!(on.history, vec![(1, 2, Cell::Path), (3, 4, Cell::Wall)]);

    let mut off = ProgressTracker::new(false);
    off.record(1, 2, Cell::Path);
    assert!(off.history.is_empty());
}

#[test]
fn test_heuristic_is_manhattan_distance() {
    assert_eq!(heuristic((0, 0), (2, 2)), 4);
    assert_eq!(heuristic((5, 1), (1, 3)), 6);
    assert_eq!(heuristic((3, 3), (3, 3)), 0);
}
