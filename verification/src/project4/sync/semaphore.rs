//! Counting semaphore.
//!
//! A semaphore maintains a number of permits together with the resource the
//! permits grant access to. [`Semaphore::wait`] takes a permit when one is
//! available; otherwise the calling thread is queued and must park until
//! [`Semaphore::signal`] names it as the thread to wake, after which it calls
//! `wait` again. `signal` returns one permit and wakes the longest waiting
//! thread, if any.
use vstd::prelude::*;

verus! {

/// Counting semaphore guarding a resource.
pub struct Semaphore<T> {
    resource: T,
    permits: usize,
    waiters: Vec<u64>,
}

/// A permit granted by [`Semaphore::wait`] to the thread `tid`.
#[derive(Debug, PartialEq, Eq)]
pub struct SemaphorePermits {
    tid: u64,
}

impl SemaphorePermits {
    /// The thread the permit was granted to.
    pub closed spec fn holder(&self) -> u64 {
        self.tid
    }

    /// The thread the permit was granted to.
    pub fn tid(&self) -> (r: u64)
        ensures
            r == self.holder(),
    {
        self.tid
    }
}

/// What asking for a permit does to a semaphore with `p` permits and
/// waiters `w`, for thread `tid`: whether the thread gets a permit, and the
/// permits and waiters after.
pub open spec fn wait_step(p: nat, w: Seq<u64>, tid: u64) -> (bool, nat, Seq<u64>) {
    if p > 0 {
        (true, (p - 1) as nat, w)
    } else {
        (false, 0, if w.contains(tid) { w } else { w.push(tid) })
    }
}

/// What returning a permit does to a semaphore with `p` permits and
/// waiters `w`: the thread woken, if any, and the permits and waiters after.
pub open spec fn signal_step(p: nat, w: Seq<u64>) -> (Option<u64>, nat, Seq<u64>) {
    if w.len() == 0 {
        (None, p + 1, w)
    } else {
        (Some(w[0]), p + 1, w.subrange(1, w.len() as int))
    }
}

/// How many of the threads `tids`, asking in turn on a semaphore with `p`
/// permits and waiters `w`, with no permit returned meanwhile, get a
/// permit.
pub open spec fn granted(p: nat, w: Seq<u64>, tids: Seq<u64>) -> nat
    decreases tids.len(),
{
    if tids.len() == 0 {
        0
    } else {
        let (g, p2, w2) = wait_step(p, w, tids[0]);
        (if g { 1nat } else { 0nat }) + granted(p2, w2, tids.drop_first())
    }
}

/// When `k` threads ask for a permit on a semaphore with `n` permits and
/// none is returned, exactly `min(n, k)` of them get one; the others wait.
pub proof fn lemma_waits_granted(n: nat, w: Seq<u64>, tids: Seq<u64>)
    ensures
        granted(n, w, tids) == if n < tids.len() { n } else { tids.len() },
    decreases tids.len(),
{
    if tids.len() > 0 {
        let (g, p2, w2) = wait_step(n, w, tids[0]);
        lemma_waits_granted(p2, w2, tids.drop_first());
    }
}

/// A permit returned while threads wait goes to the longest waiting one:
/// when it asks again it gets the permit, and the count of permits is back
/// where it was. With no thread waiting, the permit is kept.
pub proof fn lemma_signal_then_wait(p: nat, w: Seq<u64>)
    ensures
        w.len() == 0 ==> signal_step(p, w) == (None::<u64>, p + 1, w),
        w.len() > 0 ==> ({
            let (woken, p1, w1) = signal_step(p, w);
            &&& woken == Some(w[0])
            &&& wait_step(p1, w1, w[0]) == (true, p, w.subrange(1, w.len() as int))
        }),
{
}

impl<T> Semaphore<T> {
    /// The number of available permits.
    pub closed spec fn permits(&self) -> nat {
        self.permits as nat
    }

    /// The threads waiting for a permit, the longest waiting first.
    pub closed spec fn waiters(&self) -> Seq<u64> {
        self.waiters@
    }

    /// The guarded resource.
    pub closed spec fn resource(&self) -> T {
        self.resource
    }

    /// Creates a new semaphore initialized with `permits` permits, guarding
    /// `resource`.
    pub fn new(permits: usize, resource: T) -> (r: Self)
        ensures
            r.permits() == permits,
            r.waiters() == Seq::<u64>::empty(),
            r.resource() == resource,
    {
        Self { resource, permits, waiters: Vec::new() }
    }

    /// Requests a permit for thread `tid`.
    ///
    /// When a permit is available it is taken and returned. Otherwise `None`
    /// is returned and `tid` is queued (once) among the waiters: the thread
    /// must park and call `wait` again when woken.
    pub fn wait(&mut self, tid: u64) -> (r: Option<SemaphorePermits>)
        ensures
            final(self).resource() == old(self).resource(),
            (r is Some, final(self).permits(), final(self).waiters()) == wait_step(
                old(self).permits(),
                old(self).waiters(),
                tid,
            ),
            old(self).permits() > 0 ==> {
                &&& r matches Some(p) && p.holder() == tid
                &&& final(self).permits() == old(self).permits() - 1
                &&& final(self).waiters() == old(self).waiters()
            },
            old(self).permits() == 0 ==> {
                &&& r is None
                &&& final(self).permits() == 0
                &&& final(self).waiters() == if old(self).waiters().contains(tid) {
                    old(self).waiters()
                } else {
                    old(self).waiters().push(tid)
                }
            },
    {
        if self.permits > 0 {
            self.permits = self.permits - 1;
            Some(SemaphorePermits { tid })
        } else {
            let mut i: usize = 0;
            while i < self.waiters.len()
                invariant
                    self.permits == 0,
                    self.resource == old(self).resource,
                    self.waiters@ == old(self).waiters@,
                    0 <= i <= self.waiters@.len(),
                    forall|j: int| 0 <= j < i ==> self.waiters@[j] != tid,
                decreases self.waiters@.len() - i,
            {
                if self.waiters[i] == tid {
                    assert(self.waiters@.contains(tid));
                    return None;
                }
                i = i + 1;
            }
            self.waiters.push(tid);
            None
        }
    }

    /// Returns a permit and names the thread to wake: the longest waiting
    /// one, which is removed from the queue, if any.
    pub fn signal(&mut self) -> (woken: Option<u64>)
        requires
            old(self).permits() < usize::MAX,
        ensures
            final(self).resource() == old(self).resource(),
            (woken, final(self).permits(), final(self).waiters()) == signal_step(
                old(self).permits(),
                old(self).waiters(),
            ),
            final(self).permits() == old(self).permits() + 1,
            old(self).waiters().len() == 0 ==> {
                &&& woken is None
                &&& final(self).waiters() == old(self).waiters()
            },
            old(self).waiters().len() > 0 ==> {
                &&& woken == Some(old(self).waiters()[0])
                &&& final(self).waiters() == old(self).waiters().subrange(
                    1,
                    old(self).waiters().len() as int,
                )
            },
    {
        self.permits = self.permits + 1;
        if self.waiters.len() > 0 {
            let t = self.waiters.remove(0);
            assert(self.waiters@ =~= old(self).waiters@.subrange(1, old(self).waiters@.len() as int));
            Some(t)
        } else {
            None
        }
    }

    /// Releases a permit previously granted by [`Semaphore::wait`]; the same
    /// as [`Semaphore::signal`].
    pub fn release(&mut self, permit: SemaphorePermits) -> (woken: Option<u64>)
        requires
            old(self).permits() < usize::MAX,
        ensures
            final(self).resource() == old(self).resource(),
            final(self).permits() == old(self).permits() + 1,
            old(self).waiters().len() == 0 ==> woken is None && final(self).waiters() == old(
                self,
            ).waiters(),
            old(self).waiters().len() > 0 ==> woken == Some(old(self).waiters()[0])
                && final(self).waiters() == old(self).waiters().subrange(
                1,
                old(self).waiters().len() as int,
            ),
    {
        self.signal()
    }

    /// The resource guarded by the semaphore, for a holder of a permit.
    pub fn resource_ref(&self, permit: &SemaphorePermits) -> (r: &T)
        ensures
            *r == self.resource(),
    {
        &self.resource
    }
}

} // verus!
