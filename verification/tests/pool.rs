use dexy::pool::{Action, Pool, WorkerState};

fn dirs(names: &[&str]) -> Vec<String> {
    names.iter().map(|n| n.to_string()).collect()
}

#[test]
fn a_new_pool_has_working_workers_and_the_roots_queued() {
    let pool = Pool::new(3, dirs(&["/a", "/b"]));
    assert_eq!(pool.workers(), 3);
    assert_eq!(pool.pending(), 2);
    assert_eq!(pool.idle_count(), 0);
    assert_eq!(pool.processed(), 0);
    assert_eq!(pool.total_known(), 2);
    assert!(!pool.is_quiescent());
    for worker in 0..3 {
        assert_eq!(pool.state_of(worker), WorkerState::Working);
    }
}

#[test]
fn a_single_worker_with_nothing_to_do_exits_at_once() {
    let mut pool = Pool::new(1, Vec::new());
    assert_eq!(pool.acquire(0), Action::Exit);
    assert!(pool.is_quiescent());
    assert_eq!(pool.state_of(0), WorkerState::Terminated);
    assert_eq!(pool.idle_count(), 1);
}

#[test]
fn directories_are_handed_out_in_the_order_queued() {
    let mut pool = Pool::new(1, dirs(&["/a", "/b", "/c"]));
    assert_eq!(pool.acquire(0), Action::Process("/a".to_string()));
    assert!(pool.complete(0, dirs(&["/a/x", "/a/y"])));
    assert_eq!(pool.acquire(0), Action::Process("/b".to_string()));
    assert!(pool.complete(0, Vec::new()));
    assert_eq!(pool.acquire(0), Action::Process("/c".to_string()));
    assert!(pool.complete(0, Vec::new()));
    assert_eq!(pool.acquire(0), Action::Process("/a/x".to_string()));
    assert!(pool.complete(0, Vec::new()));
    assert_eq!(pool.acquire(0), Action::Process("/a/y".to_string()));
    assert!(pool.complete(0, Vec::new()));
    assert_eq!(pool.acquire(0), Action::Exit);
    assert_eq!(pool.processed(), 5);
    assert_eq!(pool.pending(), 0);
}

#[test]
fn progress_counts_traversed_and_known_directories() {
    let mut pool = Pool::new(1, dirs(&["/r"]));
    assert_eq!((pool.processed(), pool.total_known()), (0, 1));
    assert_eq!(pool.acquire(0), Action::Process("/r".to_string()));
    assert_eq!((pool.processed(), pool.total_known()), (0, 0));
    assert!(pool.complete(0, dirs(&["/r/a", "/r/b", "/r/c"])));
    assert_eq!((pool.processed(), pool.pending(), pool.total_known()), (1, 3, 4));
}

#[test]
fn an_empty_queue_does_not_end_the_scan_while_a_worker_holds_a_directory() {
    let mut pool = Pool::new(3, dirs(&["/r"]));
    assert_eq!(pool.acquire(0), Action::Process("/r".to_string()));
    // The queue is empty now, but worker 0 has not published yet.
    assert_eq!(pool.acquire(1), Action::Wait);
    assert_eq!(pool.acquire(2), Action::Wait);
    assert_eq!(pool.acquire(1), Action::Wait);
    assert_eq!(pool.idle_count(), 2);
    assert!(!pool.is_quiescent());
    assert_eq!(pool.state_of(1), WorkerState::Idle);
    assert!(pool.complete(0, dirs(&["/r/a", "/r/b"])));
    // The idle workers wake up for the published directories.
    assert_eq!(pool.acquire(1), Action::Process("/r/a".to_string()));
    assert_eq!(pool.state_of(1), WorkerState::Working);
    assert_eq!(pool.idle_count(), 1);
    assert_eq!(pool.acquire(2), Action::Process("/r/b".to_string()));
    assert_eq!(pool.idle_count(), 0);
}

#[test]
fn workers_exit_only_when_all_are_idle() {
    let mut pool = Pool::new(2, dirs(&["/r"]));
    assert_eq!(pool.acquire(0), Action::Process("/r".to_string()));
    assert_eq!(pool.acquire(1), Action::Wait);
    assert!(pool.complete(0, Vec::new()));
    // Worker 0 is still working until it has asked again.
    assert!(!pool.is_quiescent());
    assert_eq!(pool.acquire(1), Action::Wait);
    // The last worker to go idle makes the pool quiescent and leaves.
    assert_eq!(pool.acquire(0), Action::Exit);
    assert!(pool.is_quiescent());
    assert_eq!(pool.state_of(0), WorkerState::Terminated);
    assert_eq!(pool.state_of(1), WorkerState::Idle);
    assert_eq!(pool.acquire(1), Action::Exit);
    assert_eq!(pool.state_of(1), WorkerState::Terminated);
    assert_eq!(pool.idle_count(), 2);
}

#[test]
fn quiescence_is_final() {
    let mut pool = Pool::new(2, Vec::new());
    assert_eq!(pool.acquire(0), Action::Wait);
    assert_eq!(pool.acquire(1), Action::Exit);
    assert_eq!(pool.acquire(0), Action::Exit);
    for _ in 0..3 {
        assert_eq!(pool.acquire(0), Action::Exit);
        assert_eq!(pool.acquire(1), Action::Exit);
        assert!(!pool.complete(0, dirs(&["/late"])));
        assert!(pool.is_quiescent());
        assert_eq!(pool.pending(), 0);
        assert_eq!(pool.processed(), 0);
    }
}

#[test]
fn a_report_from_an_idle_worker_is_refused() {
    let mut pool = Pool::new(2, Vec::new());
    assert_eq!(pool.acquire(0), Action::Wait);
    assert!(!pool.complete(0, dirs(&["/x"])));
    assert_eq!(pool.pending(), 0);
    assert_eq!(pool.processed(), 0);
    assert_eq!(pool.state_of(0), WorkerState::Idle);
}

#[test]
fn a_worker_is_counted_idle_once_however_often_it_asks() {
    let mut pool = Pool::new(3, Vec::new());
    for _ in 0..5 {
        assert_eq!(pool.acquire(0), Action::Wait);
        assert_eq!(pool.idle_count(), 1);
    }
    for _ in 0..5 {
        assert_eq!(pool.acquire(1), Action::Wait);
        assert_eq!(pool.idle_count(), 2);
    }
    assert!(!pool.is_quiescent());
}

#[test]
fn a_wide_and_shallow_tree_is_handed_out_completely() {
    let workers = 4;
    let children: Vec<String> = (0..100).map(|i| format!("/r/{}", i)).collect();
    let mut pool = Pool::new(workers, dirs(&["/r"]));
    let mut held: Vec<Option<String>> = vec![None; workers];
    let mut seen: Vec<String> = Vec::new();
    let mut exited = vec![false; workers];
    let mut steps = 0;
    while exited.iter().any(|e| !e) {
        steps += 1;
        assert!(steps < 10_000);
        for worker in 0..workers {
            if exited[worker] {
                continue;
            }
            match held[worker].take() {
                Some(dir) => {
                    let found = if dir == "/r" { children.clone() } else { Vec::new() };
                    assert!(pool.complete(worker, found));
                    seen.push(dir);
                }
                None => match pool.acquire(worker) {
                    Action::Process(dir) => held[worker] = Some(dir),
                    Action::Wait => {}
                    Action::Exit => exited[worker] = true,
                },
            }
        }
    }
    assert!(pool.is_quiescent());
    assert_eq!(pool.processed(), 101);
    assert_eq!(seen.len(), 101);
    let mut expected = children.clone();
    expected.push("/r".to_string());
    expected.sort();
    seen.sort();
    assert_eq!(seen, expected);
}
