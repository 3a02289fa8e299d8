//! Sleeping mutual exclusion lock.
//!
//! A mutex holds its data, the thread that holds the lock, and the threads
//! that sleep waiting for it, the longest waiting first. [`Mutex::lock`]
//! takes the lock when it is free; otherwise the calling thread is queued
//! and must park. Unlocking hands the lock straight to the longest waiting
//! thread, whose guard it returns for the scheduler to wake that thread
//! with, so that no newcomer can overtake a sleeper.
use vstd::prelude::*;

verus! {

/// A mutual exclusion lock over data of type `T`.
pub struct Mutex<T> {
    data: T,
    holder: Option<u64>,
    waiters: Vec<u64>,
}

/// The right of thread `tid` to the data of the mutex it holds.
#[derive(Debug, PartialEq, Eq)]
pub struct MutexGuard {
    pub tid: u64,
}

/// The error of [`Mutex::try_lock`] on a mutex that is held.
#[derive(Clone, Copy, Debug, PartialEq, Eq)]
pub struct WouldBlock;

impl<T> Mutex<T> {
    /// The guarded data.
    pub closed spec fn data(&self) -> T {
        self.data
    }

    /// The thread that holds the lock, if any.
    pub closed spec fn holder(&self) -> Option<u64> {
        self.holder
    }

    /// The threads asleep on the lock, the longest waiting first.
    pub closed spec fn waiters(&self) -> Seq<u64> {
        self.waiters@
    }

    /// Threads wait only while the lock is held, never the holder, and
    /// each at most once.
    pub open spec fn wf(&self) -> bool {
        &&& self.holder() is None ==> self.waiters().len() == 0
        &&& self.holder() matches Some(h) ==> !self.waiters().contains(h)
        &&& self.waiters().no_duplicates()
    }

    /// A free mutex over `t`.
    pub fn new(t: T) -> (r: Self)
        ensures
            r.wf(),
            r.data() == t,
            r.holder() is None,
            r.waiters() == Seq::<u64>::empty(),
    {
        let r = Mutex { data: t, holder: None, waiters: Vec::new() };
        assert(r.waiters() =~= Seq::<u64>::empty());
        r
    }

    /// Asks for the lock on behalf of thread `tid`, which does not hold it:
    /// when it is free, `tid` takes it and gets its guard; otherwise `None`,
    /// and `tid` is queued (once) and must sleep until unlocking hands it
    /// the lock.
    pub fn lock(&mut self, tid: u64) -> (r: Option<MutexGuard>)
        requires
            old(self).wf(),
            old(self).holder() != Some(tid),
        ensures
            final(self).wf(),
            final(self).data() == old(self).data(),
            old(self).holder() is None ==> r == Some(MutexGuard { tid }) && final(self).holder()
                == Some(tid) && final(self).waiters() == old(self).waiters(),
            old(self).holder() is Some ==> r is None && final(self).holder() == old(self).holder()
                && final(self).waiters() == if old(self).waiters().contains(tid) {
                old(self).waiters()
            } else {
                old(self).waiters().push(tid)
            },
    {
        if self.holder.is_none() {
            self.holder = Some(tid);
            return Some(MutexGuard { tid });
        }
        let mut i: usize = 0;
        while i < self.waiters.len()
            invariant
                self.holder == old(self).holder,
                self.holder is Some,
                self.wf(),
                self.data == old(self).data,
                self.waiters@ == old(self).waiters@,
                0 <= i <= self.waiters@.len(),
                forall|j: int| 0 <= j < i ==> self.waiters@[j] != tid,
            decreases self.waiters@.len() - i,
        {
            if self.waiters[i] == tid {
                assert(self.waiters@.contains(tid));
                return None;
            }
            i = i + 1;
        }
        proof {
            assert(!old(self).waiters().contains(tid));
            let w = old(self).waiters().push(tid);
            assert forall|a: int, b: int| 0 <= a < w.len() && 0 <= b < w.len() && a != b implies w[a] != w[b] by {
                if a < old(self).waiters().len() && b < old(self).waiters().len() {
                    assert(w[a] == old(self).waiters()[a] && w[b] == old(self).waiters()[b]);
                } else if a < old(self).waiters().len() {
                    assert(w[a] == old(self).waiters()[a]);
                } else {
                    assert(w[b] == old(self).waiters()[b]);
                }
            }
            let h = self.holder->Some_0;
            if w.contains(h) {
                let k = choose|k: int| 0 <= k < w.len() && w[k] == h;
                if k < old(self).waiters().len() {
                    assert(old(self).waiters()[k] == h);
                }
            }
        }
        self.waiters.push(tid);
        None
    }

    /// Takes the lock for thread `tid` when it is free; [`WouldBlock`]
    /// otherwise, and nothing changes.
    pub fn try_lock(&mut self, tid: u64) -> (r: Result<MutexGuard, WouldBlock>)
        requires
            old(self).wf(),
        ensures
            final(self).wf(),
            final(self).data() == old(self).data(),
            final(self).waiters() == old(self).waiters(),
            old(self).holder() is None ==> r == Ok::<MutexGuard, WouldBlock>(MutexGuard { tid })
                && final(self).holder() == Some(tid),
            old(self).holder() is Some ==> r == Err::<MutexGuard, WouldBlock>(WouldBlock)
                && final(self).holder() == old(self).holder(),
    {
        if self.holder.is_none() {
            self.holder = Some(tid);
            Ok(MutexGuard { tid })
        } else {
            Err(WouldBlock)
        }
    }

    /// The data, given up with the mutex.
    pub fn into_inner(self) -> (r: T)
        ensures
            r == self.data(),
    {
        self.data
    }
}

impl MutexGuard {
    /// Releases mutex `m`: the lock goes to the longest waiting thread,
    /// which leaves the queue and whose guard is returned for it to be
    /// woken with; with no waiter the lock becomes free.
    pub fn unlock<T>(self, m: &mut Mutex<T>) -> (next: Option<MutexGuard>)
        requires
            old(m).wf(),
            old(m).holder() == Some(self.tid),
        ensures
            final(m).wf(),
            final(m).data() == old(m).data(),
            old(m).waiters().len() == 0 ==> next is None && final(m).holder() is None
                && final(m).waiters() == old(m).waiters(),
            old(m).waiters().len() > 0 ==> next == Some(MutexGuard { tid: old(m).waiters()[0] })
                && final(m).holder() == Some(old(m).waiters()[0]) && final(m).waiters() == old(
                m,
            ).waiters().subrange(1, old(m).waiters().len() as int),
    {
        if m.waiters.len() == 0 {
            m.holder = None;
            None
        } else {
            let t = m.waiters.remove(0);
            m.holder = Some(t);
            proof {
                let w = old(m).waiters();
                assert(m.waiters@ =~= w.subrange(1, w.len() as int));
                if m.waiters@.contains(t) {
                    let k = choose|k: int| 0 <= k < m.waiters@.len() && m.waiters@[k] == t;
                    assert(w[k + 1] == t && w[0] == t);
                }
                assert forall|a: int, b: int|
                    0 <= a < m.waiters@.len() && 0 <= b < m.waiters@.len() && a != b implies m.waiters@[a]
                    != m.waiters@[b] by {
                    assert(m.waiters@[a] == w[a + 1] && m.waiters@[b] == w[b + 1]);
                }
            }
            Some(MutexGuard { tid: t })
        }
    }

    /// The data of mutex `m`, which this guard's thread holds.
    pub fn get<'a, T>(&self, m: &'a Mutex<T>) -> (r: &'a T)
        requires
            m.holder() == Some(self.tid),
        ensures
            *r == m.data(),
    {
        &m.data
    }

    /// Replaces the data of mutex `m`, which this guard's thread holds.
    pub fn set<T>(&self, m: &mut Mutex<T>, v: T)
        requires
            old(m).holder() == Some(self.tid),
        ensures
            final(m).data() == v,
            final(m).holder() == old(m).holder(),
            final(m).waiters() == old(m).waiters(),
    {
        m.data = v;
    }
}

} // verus!
