use dexy::queue::WorkQueue;

#[test]
fn a_new_queue_is_empty() {
    let mut queue = WorkQueue::new();
    assert!(queue.is_empty());
    assert_eq!(queue.len(), 0);
    assert_eq!(queue.pop(), None);
    assert!(queue.is_empty());
}

#[test]
fn directories_leave_the_queue_in_the_order_pushed() {
    let mut queue = WorkQueue::new();
    queue.push("/a".to_string());
    queue.push("/b".to_string());
    queue.push("/c".to_string());
    assert_eq!(queue.len(), 3);
    assert_eq!(queue.pop(), Some("/a".to_string()));
    queue.push("/d".to_string());
    assert_eq!(queue.pop(), Some("/b".to_string()));
    assert_eq!(queue.pop(), Some("/c".to_string()));
    assert_eq!(queue.pop(), Some("/d".to_string()));
    assert_eq!(queue.pop(), None);
}

#[test]
fn extending_appends_all_in_order() {
    let mut queue = WorkQueue::new();
    queue.push("/first".to_string());
    queue.extend(vec!["/x".to_string(), "/y".to_string()]);
    queue.extend(Vec::new());
    assert_eq!(queue.len(), 3);
    assert_eq!(queue.pop(), Some("/first".to_string()));
    assert_eq!(queue.pop(), Some("/x".to_string()));
    assert_eq!(queue.pop(), Some("/y".to_string()));
    assert!(queue.is_empty());
}

#[test]
fn every_pushed_directory_is_popped_exactly_once() {
    let mut queue = WorkQueue::new();
    let mut popped = Vec::new();
    for round in 0..50 {
        queue.push(format!("/d{}", round));
        if round % 3 == 0 {
            popped.push(queue.pop().unwrap());
        }
    }
    while let Some(dir) = queue.pop() {
        popped.push(dir);
    }
    let expected: Vec<String> = (0..50).map(|i| format!("/d{}", i)).collect();
    assert_eq!(popped, expected);
}
