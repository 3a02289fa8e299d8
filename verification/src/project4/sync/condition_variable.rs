//! Condition variable.
//!
//! Threads that find the state guarded by a [`Mutex`] not yet as they need
//! it sleep on a condition variable, releasing the mutex, until another
//! thread signals a change; each woken thread then locks the mutex again and
//! checks once more.
use crate::project4::sync::mutex::{Mutex, MutexGuard};
use vstd::prelude::*;

verus! {

/// A condition variable: the threads asleep on it, the longest waiting
/// first.
pub struct ConditionVariable {
    waiters: Vec<u64>,
}

/// What [`ConditionVariable::wait_while`] leads to.
#[derive(Debug, PartialEq, Eq)]
pub enum WaitOutcome {
    /// The condition does not hold off the thread: it goes on, holding the
    /// mutex.
    Proceed(MutexGuard),
    /// The thread sleeps on the condition variable; the mutex went to the
    /// thread of this guard, if any, which is to be woken.
    Parked(Option<MutexGuard>),
}

impl ConditionVariable {
    /// The threads asleep on this condition variable, the longest waiting
    /// first.
    pub closed spec fn waiters(&self) -> Seq<u64> {
        self.waiters@
    }

    /// A condition variable with no thread asleep on it.
    pub fn new() -> (r: Self)
        ensures
            r.waiters() == Seq::<u64>::empty(),
    {
        let r = ConditionVariable { waiters: Vec::new() };
        assert(r.waiters() =~= Seq::<u64>::empty());
        r
    }

    /// One step of waiting for the thread that holds `m` through `guard`:
    /// `blocked` is what the thread's predicate says of the data. When it
    /// is false the thread goes on with the lock. Otherwise the thread is
    /// queued here and releases `m` (see [`MutexGuard::unlock`]); once
    /// signalled it locks `m` again and checks anew.
    pub fn wait_while<T>(&mut self, m: &mut Mutex<T>, guard: MutexGuard, blocked: bool) -> (r: WaitOutcome)
        requires
            old(m).wf(),
            old(m).holder() == Some(guard.tid),
        ensures
            final(m).wf(),
            final(m).data() == old(m).data(),
            !blocked ==> r == WaitOutcome::Proceed(guard) && final(self).waiters() == old(self).waiters()
                && final(m).holder() == old(m).holder() && final(m).waiters() == old(m).waiters(),
            blocked ==> final(self).waiters() == old(self).waiters().push(guard.tid) && ({
                let w = old(m).waiters();
                if w.len() == 0 {
                    r == WaitOutcome::Parked(None) && final(m).holder() is None && final(m).waiters() == w
                } else {
                    r == WaitOutcome::Parked(Some(MutexGuard { tid: w[0] })) && final(m).holder() == Some(w[0])
                        && final(m).waiters() == w.subrange(1, w.len() as int)
                }
            }),
    {
        if !blocked {
            return WaitOutcome::Proceed(guard);
        }
        self.waiters.push(guard.tid);
        WaitOutcome::Parked(guard.unlock(m))
    }

    /// Wakes the longest waiting thread, if any, and releases `m`: returns
    /// the thread woken here and the guard of the thread that the mutex
    /// went to. A signal with no thread waiting is lost.
    pub fn signal<T>(&mut self, m: &mut Mutex<T>, guard: MutexGuard) -> (r: (Option<u64>, Option<MutexGuard>))
        requires
            old(m).wf(),
            old(m).holder() == Some(guard.tid),
        ensures
            final(m).wf(),
            final(m).data() == old(m).data(),
            old(self).waiters().len() == 0 ==> r.0 is None && final(self).waiters() == old(self).waiters(),
            old(self).waiters().len() > 0 ==> r.0 == Some(old(self).waiters()[0]) && final(self).waiters()
                == old(self).waiters().subrange(1, old(self).waiters().len() as int),
            ({
                let w = old(m).waiters();
                if w.len() == 0 {
                    r.1 is None && final(m).holder() is None && final(m).waiters() == w
                } else {
                    r.1 == Some(MutexGuard { tid: w[0] }) && final(m).holder() == Some(w[0])
                        && final(m).waiters() == w.subrange(1, w.len() as int)
                }
            }),
    {
        let woken = if self.waiters.len() > 0 {
            let t = self.waiters.remove(0);
            assert(self.waiters@ =~= old(self).waiters@.subrange(1, old(self).waiters@.len() as int));
            Some(t)
        } else {
            None
        };
        (woken, guard.unlock(m))
    }

    /// Wakes every waiting thread, the longest waiting first, and releases
    /// `m`: returns the threads woken here and the guard of the thread that
    /// the mutex went to.
    pub fn broadcast<T>(&mut self, m: &mut Mutex<T>, guard: MutexGuard) -> (r: (Vec<u64>, Option<MutexGuard>))
        requires
            old(m).wf(),
            old(m).holder() == Some(guard.tid),
        ensures
            final(m).wf(),
            final(m).data() == old(m).data(),
            r.0@ == old(self).waiters(),
            final(self).waiters() == Seq::<u64>::empty(),
            ({
                let w = old(m).waiters();
                if w.len() == 0 {
                    r.1 is None && final(m).holder() is None && final(m).waiters() == w
                } else {
                    r.1 == Some(MutexGuard { tid: w[0] }) && final(m).holder() == Some(w[0])
                        && final(m).waiters() == w.subrange(1, w.len() as int)
                }
            }),
    {
        let mut woken: Vec<u64> = Vec::new();
        std::mem::swap(&mut woken, &mut self.waiters);
        assert(self.waiters() =~= Seq::<u64>::empty());
        (woken, guard.unlock(m))
    }
}

} // verus!
