use udos::min_queue::MinQueue;

#[test]
fn empty_queue_reports_nothing() {
    let mut queue: MinQueue<i32> = MinQueue::new();
    assert!(queue.is_empty());
    assert_eq!(queue.len(), 0);
    assert_eq!(queue.front(), None);
    assert_eq!(queue.min(), None);
    assert_eq!(queue.pop(), None);
}

#[test]
fn push_and_pop_are_first_in_first_out() {
    let mut queue: MinQueue<i32> = MinQueue::new();
    queue.push(3);
    queue.push(1);
    queue.push(2);
    assert_eq!(queue.len(), 3);
    assert_eq!(queue.front(), Some(&3));
    assert_eq!(queue.pop(), Some(3));
    assert_eq!(queue.pop(), Some(1));
    assert_eq!(queue.pop(), Some(2));
    assert_eq!(queue.pop(), None);
    assert!(queue.is_empty());
}

#[test]
fn min_tracks_the_least_queued_element() {
    let mut queue: MinQueue<i32> = MinQueue::new();
    queue.push(3);
    assert_eq!(queue.min(), Some(&3));
    queue.push(1);
    assert_eq!(queue.min(), Some(&1));
    queue.push(2);
    assert_eq!(queue.min(), Some(&1));
    assert_eq!(queue.pop(), Some(3));
    assert_eq!(queue.min(), Some(&1));
    assert_eq!(queue.pop(), Some(1));
    assert_eq!(queue.min(), Some(&2));
    assert_eq!(queue.pop(), Some(2));
    assert_eq!(queue.min(), None);
}

#[test]
fn min_handles_duplicates_of_the_minimum() {
    let mut queue: MinQueue<i32> = MinQueue::new();
    queue.push(2);
    queue.push(5);
    queue.push(2);
    assert_eq!(queue.min(), Some(&2));
    assert_eq!(queue.pop(), Some(2));
    assert_eq!(queue.min(), Some(&2));
    assert_eq!(queue.pop(), Some(5));
    assert_eq!(queue.min(), Some(&2));
    assert_eq!(queue.pop(), Some(2));
    assert_eq!(queue.min(), None);
}

#[test]
fn sliding_window_minimum_by_push_and_pop() {
    let values = [4, 2, 12, 11, -5, 20, 7, 7, 0];
    let mut queue: MinQueue<i32> = MinQueue::new();
    let mut minima: Vec<i32> = Vec::new();
    for (i, &v) in values.iter().enumerate() {
        queue.push(v);
        if queue.len() > 3 {
            queue.pop();
        }
        if i >= 2 {
            minima.push(*queue.min().unwrap());
        }
    }
    assert_eq!(minima, vec![2, 2, -5, -5, -5, 7, 0]);
}

#[test]
fn front_leaves_the_queue_unchanged() {
    let mut queue: MinQueue<u64> = MinQueue::new();
    queue.push(10);
    queue.push(4);
    assert_eq!(queue.front(), Some(&10));
    assert_eq!(queue.front(), Some(&10));
    assert_eq!(queue.len(), 2);
}
