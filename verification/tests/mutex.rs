use lib::project4::sync::condition_variable::{ConditionVariable, WaitOutcome};
use lib::project4::sync::mutex::{Mutex, MutexGuard, WouldBlock};

#[test]
fn lock_unlock_hands_over_in_arrival_order() {
    let mut m = Mutex::new(0u32);
    let g1 = m.lock(1).unwrap();
    assert_eq!(m.lock(2), None);
    assert_eq!(m.lock(3), None);
    // Asking again while asleep does not queue twice.
    assert_eq!(m.lock(2), None);
    g1.set(&mut m, 10);
    let g2 = g1.unlock(&mut m).unwrap();
    assert_eq!(g2, MutexGuard { tid: 2 });
    assert_eq!(*g2.get(&m), 10);
    // A newcomer cannot overtake thread 3, which is still asleep.
    assert_eq!(m.try_lock(4), Err(WouldBlock));
    let g3 = g2.unlock(&mut m).unwrap();
    assert_eq!(g3.tid, 3);
    assert_eq!(g3.unlock(&mut m), None);
    let g4 = m.try_lock(4).unwrap();
    assert_eq!(g4.tid, 4);
    assert_eq!(g4.unlock(&mut m), None);
    assert_eq!(m.into_inner(), 10);
}

#[test]
fn condition_variable_waits_and_wakes() {
    let mut m = Mutex::new(Vec::<u32>::new());
    let mut cv = ConditionVariable::new();
    // A consumer finds the buffer empty and sleeps, releasing the mutex.
    let c = m.lock(1).unwrap();
    let empty = c.get(&m).is_empty();
    assert_eq!(cv.wait_while(&mut m, c, empty), WaitOutcome::Parked(None));
    // A second consumer too.
    let c2 = m.lock(2).unwrap();
    assert_eq!(cv.wait_while(&mut m, c2, true), WaitOutcome::Parked(None));
    // A producer adds an item and signals: consumer 1 wakes.
    let p = m.lock(3).unwrap();
    p.set(&mut m, vec![7]);
    let (woken, next) = cv.signal(&mut m, p);
    assert_eq!(woken, Some(1));
    assert_eq!(next, None);
    // Consumer 1 locks again, finds the item, and goes on.
    let c = m.lock(1).unwrap();
    let empty = c.get(&m).is_empty();
    let c = match cv.wait_while(&mut m, c, empty) {
        WaitOutcome::Proceed(g) => g,
        WaitOutcome::Parked(_) => panic!("the item is there"),
    };
    assert_eq!(c.get(&m), &vec![7]);
    // Broadcast wakes the rest; a signal with nobody waiting is lost.
    let (all, next) = cv.broadcast(&mut m, c);
    assert_eq!(all, vec![2]);
    assert_eq!(next, None);
    let g = m.lock(5).unwrap();
    let (woken, next) = cv.signal(&mut m, g);
    assert_eq!(woken, None);
    assert_eq!(next, None);
}

#[test]
fn waiting_hands_the_mutex_to_a_sleeper() {
    let mut m = Mutex::new(());
    let mut cv = ConditionVariable::new();
    let g = m.lock(1).unwrap();
    assert_eq!(m.lock(2), None);
    assert_eq!(cv.wait_while(&mut m, g, true), WaitOutcome::Parked(Some(MutexGuard { tid: 2 })));
}
