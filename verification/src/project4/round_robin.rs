//! Multicore round-robin scheduling.
//!
//! Each core keeps its own queue of ready threads (by thread id) and the
//! time slice left to the thread it runs. A core runs the thread at the
//! front of its own queue; when its queue is empty it steals the front
//! thread of the next core, in core order, whose queue is not. A thread
//! runs for [`QUANTUM`] timer ticks before it is preempted.
use std::collections::VecDeque;
use vstd::prelude::*;

verus! {

/// The time slice of a thread, in timer ticks (one per millisecond).
pub const QUANTUM: isize = 5;

/// The scheduling state of one core.
pub struct PerCore {
    /// The threads ready to run on this core, the next first.
    pub run_queue: VecDeque<u64>,
    /// The ticks left to the thread that runs on this core.
    pub remain: isize,
}

/// A round-robin scheduler over a number of cores.
pub struct RoundRobin {
    pub percores: Vec<PerCore>,
}

/// The core `k` places after `core`, counting round the `n` cores.
pub open spec fn nth_core(core: int, k: int, n: int) -> int {
    if core + k < n {
        core + k
    } else {
        core + k - n
    }
}

/// The first core, from `k` places after `core` on, whose queue in `q` is
/// not empty.
pub open spec fn victim_from(q: Seq<Seq<u64>>, core: int, k: int) -> Option<int>
    decreases q.len() - k,
{
    if k >= q.len() || k < 0 {
        None
    } else if q[nth_core(core, k, q.len() as int)].len() > 0 {
        Some(nth_core(core, k, q.len() as int))
    } else {
        victim_from(q, core, k + 1)
    }
}

/// The core whose thread `core` runs next: itself when its queue is not
/// empty, else the next core round whose queue is not; `None` when every
/// queue is empty.
pub open spec fn victim(q: Seq<Seq<u64>>, core: int) -> Option<int> {
    victim_from(q, core, 0)
}

/// The ready queues of `cores`.
pub open spec fn queues_of(cores: Seq<PerCore>) -> Seq<Seq<u64>> {
    cores.map_values(|p: PerCore| p.run_queue@)
}

/// The time slices left on `cores`.
pub open spec fn remains_of(cores: Seq<PerCore>) -> Seq<isize> {
    cores.map_values(|p: PerCore| p.remain)
}

impl RoundRobin {
    /// The ready queues, by core.
    pub open spec fn queues(&self) -> Seq<Seq<u64>> {
        queues_of(self.percores@)
    }

    /// The time slices left, by core.
    pub open spec fn remains(&self) -> Seq<isize> {
        remains_of(self.percores@)
    }

    /// A scheduler for `ncores` cores with nothing to run.
    pub fn new(ncores: usize) -> (r: Self)
        ensures
            r.queues() == Seq::new(ncores as nat, |i: int| Seq::<u64>::empty()),
            r.remains() == Seq::new(ncores as nat, |i: int| 0isize),
    {
        let mut percores: Vec<PerCore> = Vec::new();
        let mut i: usize = 0;
        while i < ncores
            invariant
                i <= ncores,
                percores@.len() == i,
                queues_of(percores@) == Seq::new(i as nat, |k: int| Seq::<u64>::empty()),
                remains_of(percores@) == Seq::new(i as nat, |k: int| 0isize),
            decreases ncores - i,
        {
            let ghost before = percores@;
            let run_queue: VecDeque<u64> = VecDeque::new();
            percores.push(PerCore { run_queue, remain: 0 });
            proof {
                assert(percores@[i as int].run_queue@ == Seq::<u64>::empty());
                assert forall|k: int| 0 <= k < i implies percores@[k] == before[k] by {}
                let j = i as int;
                assert forall|k: int| 0 <= k <= j implies queues_of(percores@)[k] == Seq::<u64>::empty()
                    && remains_of(percores@)[k] == 0isize by {
                    if k < j {
                        assert(queues_of(before)[k] == Seq::new(j as nat, |k: int| Seq::<u64>::empty())[k]);
                        assert(remains_of(before)[k] == Seq::new(j as nat, |k: int| 0isize)[k]);
                    }
                }
            }
            i = i + 1;
            assert(queues_of(percores@) =~= Seq::new(i as nat, |k: int| Seq::<u64>::empty()));
            assert(remains_of(percores@) =~= Seq::new(i as nat, |k: int| 0isize));
        }
        RoundRobin { percores }
    }

    /// Makes thread `tid` ready on `core`, at the back of its queue.
    pub fn push_to_queue(&mut self, core: usize, tid: u64)
        requires
            core < old(self).percores@.len(),
        ensures
            final(self).queues() == old(self).queues().update(
                core as int,
                old(self).queues()[core as int].push(tid),
            ),
            final(self).remains() == old(self).remains(),
    {
        let mut pc = self.percores.remove(core);
        pc.run_queue.push_back(tid);
        self.percores.insert(core, pc);
        assert(self.queues() =~= old(self).queues().update(
            core as int,
            old(self).queues()[core as int].push(tid),
        ));
        assert(self.remains() =~= old(self).remains());
    }

    /// The thread that `core` runs next (see [`victim`]), taken off the
    /// front of its queue; the core's time slice starts anew. `None` when
    /// every queue is empty, and nothing changes.
    pub fn next_to_run(&mut self, core: usize) -> (r: Option<u64>)
        requires
            core < old(self).percores@.len(),
        ensures
            match victim(old(self).queues(), core as int) {
                None => r is None && final(self).queues() == old(self).queues() && final(self).remains()
                    == old(self).remains(),
                Some(v) => r == Some(old(self).queues()[v][0]) && final(self).queues() == old(
                    self,
                ).queues().update(v, old(self).queues()[v].drop_first()) && final(self).remains()
                    == old(self).remains().update(core as int, QUANTUM),
            },
    {
        let n = self.percores.len();
        let ghost q = self.queues();
        let mut k: usize = 0;
        while k < n
            invariant
                n == self.percores@.len(),
                core < n,
                k <= n,
                self.queues() == q,
                self.remains() == old(self).remains(),
                q == old(self).queues(),
                victim(q, core as int) == victim_from(q, core as int, k as int),
            decreases n - k,
        {
            let c = if k < n - core {
                core + k
            } else {
                k - (n - core)
            };
            if self.percores[c].run_queue.len() > 0 {
                let mut pc = self.percores.remove(c);
                let t = pc.run_queue.pop_front();
                self.percores.insert(c, pc);
                let mut mine = self.percores.remove(core);
                mine.remain = QUANTUM;
                self.percores.insert(core, mine);
                proof {
                    assert(q[c as int] == old(self).percores@[c as int].run_queue@);
                    assert(self.queues() =~= q.update(c as int, q[c as int].drop_first()));
                    assert(self.remains() =~= old(self).remains().update(core as int, QUANTUM));
                }
                return t;
            }
            proof {
                assert(q[c as int] == self.percores@[c as int].run_queue@);
            }
            k = k + 1;
        }
        None
    }

    /// One timer tick on `core`: the running thread's slice shrinks by one
    /// tick; true when it is used up and the thread is to be rescheduled.
    pub fn timer_tick(&mut self, core: usize) -> (r: bool)
        requires
            core < old(self).percores@.len(),
            old(self).remains()[core as int] > isize::MIN,
        ensures
            final(self).queues() == old(self).queues(),
            final(self).remains() == old(self).remains().update(
                core as int,
                (old(self).remains()[core as int] - 1) as isize,
            ),
            r == (old(self).remains()[core as int] - 1 <= 0),
    {
        let mut pc = self.percores.remove(core);
        pc.remain = pc.remain - 1;
        let r = pc.remain <= 0;
        self.percores.insert(core, pc);
        assert(self.queues() =~= old(self).queues());
        assert(self.remains() =~= old(self).remains().update(
            core as int,
            (old(self).remains()[core as int] - 1) as isize,
        ));
        r
    }
}

/// A core finds no thread to run only when every queue is empty: no core
/// idles while a thread is ready anywhere.
pub proof fn lemma_no_idle_while_work(q: Seq<Seq<u64>>, core: int)
    requires
        0 <= core < q.len(),
    ensures
        victim(q, core) is None <==> forall|c: int| 0 <= c < q.len() ==> (#[trigger] q[c]).len() == 0,
        victim(q, core) matches Some(v) ==> 0 <= v < q.len() && q[v].len() > 0,
{
    lemma_victim_from(q, core, 0);
    if victim(q, core) is None {
        assert forall|c: int| 0 <= c < q.len() implies (#[trigger] q[c]).len() == 0 by {
            let k = if c >= core { c - core } else { c + q.len() - core };
            assert(nth_core(core, k, q.len() as int) == c);
        }
    }
}

/// What [`victim_from`] finds from `k` on: a core with a non-empty queue,
/// or none when every core from `k` places on has an empty queue.
proof fn lemma_victim_from(q: Seq<Seq<u64>>, core: int, k: int)
    requires
        0 <= core < q.len(),
        0 <= k <= q.len(),
    ensures
        victim_from(q, core, k) matches Some(v) ==> 0 <= v < q.len() && q[v].len() > 0,
        victim_from(q, core, k) is None ==> forall|j: int|
            k <= j < q.len() ==> q[nth_core(core, j, q.len() as int)].len() == 0,
    decreases q.len() - k,
{
    if k < q.len() {
        lemma_victim_from(q, core, k + 1);
    }
}

/// The slice left after `k` ticks from `r` ticks, and whether the last of
/// them asked for rescheduling.
pub open spec fn after_ticks(r: int, k: nat) -> (int, bool)
    decreases k,
{
    if k == 0 {
        (r, false)
    } else {
        let (left, _) = after_ticks(r, (k - 1) as nat);
        (left - 1, left - 1 <= 0)
    }
}

/// A thread that starts a full time slice is preempted by the
/// [`QUANTUM`]-th tick and by no earlier one.
pub proof fn lemma_quantum(k: nat)
    requires
        1 <= k <= QUANTUM,
    ensures
        after_ticks(QUANTUM as int, k).0 == QUANTUM - k,
        after_ticks(QUANTUM as int, k).1 == (k == QUANTUM),
    decreases k,
{
    reveal_with_fuel(after_ticks, 2);
    if k > 1 {
        lemma_quantum((k - 1) as nat);
    }
}

} // verus!
