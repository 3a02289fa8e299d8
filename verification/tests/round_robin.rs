use lib::project4::round_robin::{RoundRobin, QUANTUM};

#[test]
fn own_queue_first_in_order() {
    let mut s = RoundRobin::new(2);
    s.push_to_queue(0, 10);
    s.push_to_queue(0, 11);
    s.push_to_queue(1, 20);
    assert_eq!(s.next_to_run(0), Some(10));
    assert_eq!(s.next_to_run(0), Some(11));
    assert_eq!(s.next_to_run(1), Some(20));
    assert_eq!(s.next_to_run(1), None);
}

#[test]
fn idle_core_steals_from_the_next_busy_core() {
    let mut s = RoundRobin::new(4);
    s.push_to_queue(1, 30);
    s.push_to_queue(3, 40);
    s.push_to_queue(3, 41);
    // Core 2 looks at cores 3, 0, 1 in turn.
    assert_eq!(s.next_to_run(2), Some(40));
    // Core 0 looks at cores 1, 2, 3.
    assert_eq!(s.next_to_run(0), Some(30));
    assert_eq!(s.next_to_run(0), Some(41));
    assert_eq!(s.next_to_run(0), None);
    assert!(s.percores.iter().all(|p| p.run_queue.is_empty()));
}

#[test]
fn a_thread_runs_for_one_quantum() {
    let mut s = RoundRobin::new(1);
    s.push_to_queue(0, 1);
    assert_eq!(s.next_to_run(0), Some(1));
    assert_eq!(s.percores[0].remain, QUANTUM);
    for _ in 0..4 {
        assert!(!s.timer_tick(0));
    }
    assert!(s.timer_tick(0));
    // The thread goes back to the queue and runs again with a fresh slice.
    s.push_to_queue(0, 1);
    assert_eq!(s.next_to_run(0), Some(1));
    assert_eq!(s.percores[0].remain, 5);
}
