//! The threads of a process and their life cycle: creation, exit, join and
//! the exit of the whole group.
//!
//! Each thread is recorded by id with its state (running, or exited with a
//! code) and whether a join has claimed its exit code. Only the first join
//! of a thread receives the code; a join on a running thread blocks until
//! the thread exits, and its exit names the joiner to wake with the code.
use crate::error::KernelError;
use crate::project3::lazy_pager::LazyPager;
use crate::project2::mm_struct::accessible;
use vstd::prelude::*;

verus! {

/// Whether a thread runs, or has exited with a code.
#[derive(Clone, Copy, Debug, PartialEq, Eq, Structural)]
pub enum ThreadState {
    Running,
    Exited(i32),
}

/// A thread of the process.
#[derive(Clone, Copy, Debug, PartialEq, Eq)]
pub struct ThreadRecord {
    pub tid: u64,
    pub state: ThreadState,
    /// Whether a join has claimed the thread's exit code.
    pub joined: bool,
    /// The thread that waits in a join for this one to exit, if any.
    pub joiner: Option<u64>,
}

/// What a join leads to.
#[derive(Clone, Copy, Debug, PartialEq, Eq)]
pub enum JoinOutcome {
    /// The thread had exited with this code.
    Done(i32),
    /// The thread runs: the caller sleeps until it exits.
    Blocked,
}

/// The threads of a process.
pub struct ThreadGroup {
    pub threads: Vec<ThreadRecord>,
}

/// The index of thread `tid` in `ts`, if it is there.
pub open spec fn find(ts: Seq<ThreadRecord>, tid: u64) -> Option<int> {
    if exists|i: int| 0 <= i < ts.len() && #[trigger] ts[i].tid == tid {
        Some(choose|i: int| 0 <= i < ts.len() && #[trigger] ts[i].tid == tid)
    } else {
        None
    }
}

/// No two threads share an id.
pub open spec fn ids_distinct(ts: Seq<ThreadRecord>) -> bool {
    forall|i: int, j: int| 0 <= i < ts.len() && 0 <= j < ts.len() && i != j ==> #[trigger] ts[i].tid != #[trigger] ts[j].tid
}

/// What `thread_join` of `target` by `caller` gives, with the threads
/// `ts`: the outcome and the threads after it.
/// [`KernelError::InvalidArgument`] when `target` is not a thread of the
/// process, is the caller, or was joined already.
pub open spec fn join_outcome(ts: Seq<ThreadRecord>, caller: u64, target: u64) -> (
    Result<JoinOutcome, KernelError>,
    Seq<ThreadRecord>,
) {
    match find(ts, target) {
        None => (Err(KernelError::InvalidArgument), ts),
        Some(i) => if target == caller || ts[i].joined {
            (Err(KernelError::InvalidArgument), ts)
        } else {
            match ts[i].state {
                ThreadState::Exited(code) => (
                    Ok(JoinOutcome::Done(code)),
                    ts.update(i, ThreadRecord { joined: true, ..ts[i] }),
                ),
                ThreadState::Running => (
                    Ok(JoinOutcome::Blocked),
                    ts.update(i, ThreadRecord { joined: true, joiner: Some(caller), ..ts[i] }),
                ),
            }
        },
    }
}

/// In a table whose ids are distinct, [`find`] names the one record with
/// the id.
proof fn lemma_find(ts: Seq<ThreadRecord>, i: int)
    requires
        ids_distinct(ts),
        0 <= i < ts.len(),
    ensures
        find(ts, ts[i].tid) == Some(i),
{
    let j = choose|j: int| 0 <= j < ts.len() && #[trigger] ts[j].tid == ts[i].tid;
    if j != i {
        assert(ts[i].tid != ts[j].tid);
    }
}

/// Changing a record but its id keeps the ids distinct.
proof fn lemma_update_distinct(ts: Seq<ThreadRecord>, i: int, t: ThreadRecord)
    requires
        ids_distinct(ts),
        0 <= i < ts.len(),
        t.tid == ts[i].tid,
    ensures
        ids_distinct(ts.update(i, t)),
{
    let v = ts.update(i, t);
    assert forall|a: int, b: int| 0 <= a < v.len() && 0 <= b < v.len() && a != b implies #[trigger] v[a].tid
        != #[trigger] v[b].tid by {
        assert(v[a].tid == ts[a].tid && v[b].tid == ts[b].tid);
    }
}

/// Only the first join of a thread receives its exit code: any later join
/// of it fails.
pub proof fn lemma_second_join_fails(ts: Seq<ThreadRecord>, caller: u64, target: u64, caller2: u64)
    requires
        ids_distinct(ts),
        join_outcome(ts, caller, target).0 is Ok,
    ensures
        join_outcome(join_outcome(ts, caller, target).1, caller2, target).0 == Err::<JoinOutcome, KernelError>(
            KernelError::InvalidArgument,
        ),
{
    let i = find(ts, target)->Some_0;
    let ts2 = join_outcome(ts, caller, target).1;
    let t2 = ts2[i];
    assert(t2.tid == target && t2.joined);
    lemma_update_distinct(ts, i, t2);
    assert(ts2 == ts.update(i, t2));
    lemma_find(ts2, i);
}

/// Whether thread `tid` is a thread of `ts` that runs: one that can make a
/// call.
pub open spec fn runs(ts: Seq<ThreadRecord>, tid: u64) -> bool {
    exists|k: int| 0 <= k < ts.len() && #[trigger] ts[k].tid == tid && ts[k].state == ThreadState::Running
}

/// A join of a thread that has exited, and was not joined, receives the
/// code it exited with, whichever running thread makes it.
pub proof fn lemma_join_after_exit(ts: Seq<ThreadRecord>, i: int, code: i32, caller: u64)
    requires
        ids_distinct(ts),
        0 <= i < ts.len(),
        !ts[i].joined,
        runs(ts.update(i, ThreadRecord { state: ThreadState::Exited(code), joiner: None, ..ts[i] }), caller),
    ensures
        join_outcome(
            ts.update(i, ThreadRecord { state: ThreadState::Exited(code), joiner: None, ..ts[i] }),
            caller,
            ts[i].tid,
        ).0 == Ok::<JoinOutcome, KernelError>(JoinOutcome::Done(code)),
{
    let t = ThreadRecord { state: ThreadState::Exited(code), joiner: None, ..ts[i] };
    lemma_update_distinct(ts, i, t);
    let ts2 = ts.update(i, t);
    let k = choose|k: int| 0 <= k < ts2.len() && #[trigger] ts2[k].tid == caller && ts2[k].state == ThreadState::Running;
    assert(k != i);
    assert(caller != ts[i].tid);
    lemma_find(ts2, i);
}

/// A join that blocks on a running thread is recorded, so that the
/// thread's exit names the joiner to wake.
pub proof fn lemma_blocked_join_recorded(ts: Seq<ThreadRecord>, caller: u64, target: u64)
    requires
        ids_distinct(ts),
        join_outcome(ts, caller, target).0 == Ok::<JoinOutcome, KernelError>(JoinOutcome::Blocked),
    ensures
        ({
            let ts2 = join_outcome(ts, caller, target).1;
            find(ts2, target) matches Some(j) && ts2[j].joiner == Some(caller) && ts2[j].state == ThreadState::Running
        }),
{
    let i = find(ts, target)->Some_0;
    let ts2 = join_outcome(ts, caller, target).1;
    lemma_update_distinct(ts, i, ts2[i]);
    assert(ts2 == ts.update(i, ts2[i]));
    lemma_find(ts2, i);
}

impl ThreadGroup {
    /// The threads.
    pub open spec fn view(&self) -> Seq<ThreadRecord> {
        self.threads@
    }

    /// A process with its first thread, `tid`, running.
    pub fn new(tid: u64) -> (r: Self)
        ensures
            r.view() == seq![ThreadRecord { tid, state: ThreadState::Running, joined: false, joiner: None }],
            ids_distinct(r.view()),
    {
        let mut threads: Vec<ThreadRecord> = Vec::new();
        threads.push(ThreadRecord { tid, state: ThreadState::Running, joined: false, joiner: None });
        let r = ThreadGroup { threads };
        assert(r.view() =~= seq![ThreadRecord { tid, state: ThreadState::Running, joined: false, joiner: None }]);
        r
    }

    /// The index of thread `tid`, if it is there.
    pub fn find(&self, tid: u64) -> (r: Option<usize>)
        requires
            ids_distinct(self.view()),
        ensures
            r matches Some(i) ==> find(self.view(), tid) == Some(i as int),
            r is None ==> find(self.view(), tid) is None,
    {
        let mut i: usize = 0;
        while i < self.threads.len()
            invariant
                i <= self.view().len(),
                ids_distinct(self.view()),
                forall|k: int| 0 <= k < i ==> (#[trigger] self.view()[k]).tid != tid,
            decreases self.view().len() - i,
        {
            if self.threads[i].tid == tid {
                proof {
                    let j = choose|j: int| 0 <= j < self.view().len() && #[trigger] self.view()[j].tid == tid;
                    if i as int != j {
                        assert(self.view()[i as int].tid != self.view()[j].tid);
                    }
                }
                return Some(i);
            }
            i = i + 1;
        }
        None
    }

    /// Records thread `tid`, which was just made to run from user stack
    /// `stack` in address space `mm`, and returns its id. The byte below
    /// `stack`, where the thread's first push lands, must lie in memory the
    /// thread may write: [`KernelError::BadAddress`] otherwise, and
    /// [`KernelError::InvalidArgument`] when `tid` is taken; nothing is
    /// recorded then.
    pub fn thread_create(&mut self, mm: &LazyPager, tid: u64, stack: u64) -> (r: Result<usize, KernelError>)
        requires
            ids_distinct(old(self).view()),
            mm@.wf(),
        ensures
            ids_distinct(final(self).view()),
            if stack == 0 || !accessible(mm@.areas, stack - 1, true) {
                r == Err::<usize, KernelError>(KernelError::BadAddress) && final(self).view() == old(self).view()
            } else if find(old(self).view(), tid) is Some {
                r == Err::<usize, KernelError>(KernelError::InvalidArgument) && final(self).view() == old(self).view()
            } else {
                r == Ok::<usize, KernelError>(tid as usize) && final(self).view() == old(self).view().push(
                    ThreadRecord { tid, state: ThreadState::Running, joined: false, joiner: None },
                )
            },
    {
        if stack == 0 || !mm.access_ok(stack - 1, true) {
            return Err(KernelError::BadAddress);
        }
        if self.find(tid).is_some() {
            return Err(KernelError::InvalidArgument);
        }
        let ghost before = self.view();
        self.threads.push(ThreadRecord { tid, state: ThreadState::Running, joined: false, joiner: None });
        proof {
            let v = self.view();
            assert forall|i: int, j: int| 0 <= i < v.len() && 0 <= j < v.len() && i != j implies #[trigger] v[i].tid
                != #[trigger] v[j].tid by {
                if i < before.len() && j < before.len() {
                    assert(v[i] == before[i] && v[j] == before[j]);
                } else if i < before.len() {
                    assert(v[i] == before[i]);
                    assert(!(exists|k: int| 0 <= k < before.len() && #[trigger] before[k].tid == tid));
                } else {
                    assert(v[j] == before[j]);
                    assert(!(exists|k: int| 0 <= k < before.len() && #[trigger] before[k].tid == tid));
                }
            }
        }
        Ok(tid as usize)
    }

    /// `thread_join` of `target` by `caller` (see [`join_outcome`]).
    pub fn thread_join(&mut self, caller: u64, target: u64) -> (r: Result<JoinOutcome, KernelError>)
        requires
            ids_distinct(old(self).view()),
        ensures
            ids_distinct(final(self).view()),
            (r, final(self).view()) == join_outcome(old(self).view(), caller, target),
    {
        let i = match self.find(target) {
            None => return Err(KernelError::InvalidArgument),
            Some(i) => i,
        };
        let t = self.threads[i];
        if target == caller || t.joined {
            return Err(KernelError::InvalidArgument);
        }
        let ghost before = self.view();
        let r = match t.state {
            ThreadState::Exited(code) => {
                self.threads.set(i, ThreadRecord { joined: true, ..t });
                JoinOutcome::Done(code)
            },
            ThreadState::Running => {
                self.threads.set(i, ThreadRecord { joined: true, joiner: Some(caller), ..t });
                JoinOutcome::Blocked
            },
        };
        proof {
            let v = self.view();
            assert forall|a: int, b: int| 0 <= a < v.len() && 0 <= b < v.len() && a != b implies #[trigger] v[a].tid
                != #[trigger] v[b].tid by {
                assert(v[a].tid == before[a].tid && v[b].tid == before[b].tid);
            }
        }
        Ok(r)
    }

    /// Thread `tid`, which runs, exits with `code`. Returns the thread
    /// asleep in a join on it, to be woken with the code, if any.
    pub fn exit(&mut self, tid: u64, code: i32) -> (woken: Option<u64>)
        requires
            ids_distinct(old(self).view()),
            find(old(self).view(), tid) matches Some(i) && old(self).view()[i].state == ThreadState::Running,
        ensures
            ids_distinct(final(self).view()),
            ({
                let i = find(old(self).view(), tid)->Some_0;
                &&& woken == old(self).view()[i].joiner
                &&& final(self).view() == old(self).view().update(
                    i,
                    ThreadRecord { state: ThreadState::Exited(code), joiner: None, ..old(self).view()[i] },
                )
            }),
    {
        let i = match self.find(tid) {
            Some(i) => i,
            None => {
                proof {
                    assert(false);
                }
                return None;
            },
        };
        let t = self.threads[i];
        let ghost before = self.view();
        self.threads.set(i, ThreadRecord { state: ThreadState::Exited(code), joiner: None, ..t });
        proof {
            let v = self.view();
            assert forall|a: int, b: int| 0 <= a < v.len() && 0 <= b < v.len() && a != b implies #[trigger] v[a].tid
                != #[trigger] v[b].tid by {
                assert(v[a].tid == before[a].tid && v[b].tid == before[b].tid);
            }
        }
        t.joiner
    }

    /// Every thread of the process exits with `code`: returns the threads
    /// that still ran, to be killed, the caller among them.
    pub fn exit_group(&mut self, code: i32) -> (killed: Vec<u64>)
        requires
            ids_distinct(old(self).view()),
        ensures
            ids_distinct(final(self).view()),
            final(self).view().len() == old(self).view().len(),
            forall|i: int| 0 <= i < old(self).view().len() ==> #[trigger] final(self).view()[i] == if old(
                self,
            ).view()[i].state == ThreadState::Running {
                ThreadRecord { state: ThreadState::Exited(code), joiner: None, ..old(self).view()[i] }
            } else {
                old(self).view()[i]
            },
            killed@ == old(self).view().filter(|t: ThreadRecord| t.state == ThreadState::Running).map_values(
                |t: ThreadRecord| t.tid,
            ),
    {
        let ghost before = self.view();
        let ghost running = |t: ThreadRecord| t.state == ThreadState::Running;
        let mut killed: Vec<u64> = Vec::new();
        let mut i: usize = 0;
        while i < self.threads.len()
            invariant
                i <= self.view().len(),
                self.view().len() == before.len(),
                forall|k: int| i <= k < before.len() ==> #[trigger] self.view()[k] == before[k],
                forall|k: int| 0 <= k < i ==> #[trigger] self.view()[k] == if before[k].state == ThreadState::Running {
                    ThreadRecord { state: ThreadState::Exited(code), joiner: None, ..before[k] }
                } else {
                    before[k]
                },
                killed@ == before.take(i as int).filter(running).map_values(|t: ThreadRecord| t.tid),
                running == (|t: ThreadRecord| t.state == ThreadState::Running),
            decreases self.view().len() - i,
        {
            let t = self.threads[i];
            proof {
                assert(before.take(i + 1).drop_last() =~= before.take(i as int));
                assert(before.take(i + 1).last() == before[i as int]);
                reveal(Seq::filter);
            }
            if t.state == ThreadState::Running {
                self.threads.set(i, ThreadRecord { state: ThreadState::Exited(code), joiner: None, ..t });
                killed.push(t.tid);
                proof {
                    assert(before.take(i + 1).filter(running) =~= before.take(i as int).filter(running).push(t));
                    assert(killed@ =~= before.take(i + 1).filter(running).map_values(|t: ThreadRecord| t.tid));
                }
            }
            i = i + 1;
        }
        proof {
            assert(before.take(before.len() as int) =~= before);
            let v = self.view();
            assert forall|a: int, b: int| 0 <= a < v.len() && 0 <= b < v.len() && a != b implies #[trigger] v[a].tid
                != #[trigger] v[b].tid by {
                assert(v[a].tid == before[a].tid && v[b].tid == before[b].tid);
            }
        }
        killed
    }
}

} // verus!
