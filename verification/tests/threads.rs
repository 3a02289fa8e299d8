use lib::error::KernelError;
use lib::project2::elf::Permission;
use lib::project2::mm_struct::Backing;
use lib::project3::lazy_pager::LazyPager;
use lib::project4::process::{JoinOutcome, ThreadGroup, ThreadState};

fn address_space() -> LazyPager {
    let mut mm = LazyPager::new();
    let rw = Permission { read: true, write: true, executable: false, user: false };
    let ro = Permission { read: true, write: false, executable: false, user: false };
    assert_eq!(mm.mmap(0x10000, 0x4000, rw, Backing::Anonymous), Ok(0x10000));
    assert_eq!(mm.mmap(0x20000, 0x1000, ro, Backing::Anonymous), Ok(0x20000));
    mm
}

#[test]
fn create_checks_the_stack() {
    let mm = address_space();
    let mut g = ThreadGroup::new(1);
    assert_eq!(g.thread_create(&mm, 2, 0x14000), Ok(2));
    assert_eq!(g.thread_create(&mm, 3, 0x21000), Err(KernelError::BadAddress));
    assert_eq!(g.thread_create(&mm, 3, 0x30000), Err(KernelError::BadAddress));
    assert_eq!(g.thread_create(&mm, 3, 0), Err(KernelError::BadAddress));
    assert_eq!(g.thread_create(&mm, 2, 0x12000), Err(KernelError::InvalidArgument));
    assert_eq!(g.threads.len(), 2);
}

#[test]
fn join_receives_the_exit_code_once() {
    let mm = address_space();
    let mut g = ThreadGroup::new(1);
    assert_eq!(g.thread_create(&mm, 2, 0x14000), Ok(2));
    assert_eq!(g.thread_create(&mm, 3, 0x13000), Ok(3));
    // Thread 3 exits first; joining it returns at once.
    assert_eq!(g.exit(3, 7), None);
    assert_eq!(g.thread_join(1, 3), Ok(JoinOutcome::Done(7)));
    assert_eq!(g.thread_join(2, 3), Err(KernelError::InvalidArgument));
    // Joining a running thread blocks; its exit wakes the joiner.
    assert_eq!(g.thread_join(1, 2), Ok(JoinOutcome::Blocked));
    assert_eq!(g.thread_join(3, 2), Err(KernelError::InvalidArgument));
    assert_eq!(g.exit(2, 2), Some(1));
    // Unknown threads and self-joins fail.
    assert_eq!(g.thread_join(1, 9), Err(KernelError::InvalidArgument));
    assert_eq!(g.thread_join(1, 1), Err(KernelError::InvalidArgument));
}

#[test]
fn exit_group_ends_every_running_thread() {
    let mm = address_space();
    let mut g = ThreadGroup::new(1);
    assert_eq!(g.thread_create(&mm, 2, 0x14000), Ok(2));
    assert_eq!(g.thread_create(&mm, 3, 0x13000), Ok(3));
    assert_eq!(g.exit(2, 0), None);
    assert_eq!(g.exit_group(9), vec![1, 3]);
    assert_eq!(g.threads[0].state, ThreadState::Exited(9));
    assert_eq!(g.threads[1].state, ThreadState::Exited(0));
    assert_eq!(g.threads[2].state, ThreadState::Exited(9));
    assert_eq!(g.thread_join(2, 1), Ok(JoinOutcome::Done(9)));
}
