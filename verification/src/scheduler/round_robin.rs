use vstd::prelude::*;

use crate::process::{
    clone_queue, lemma_views_push, lemma_views_remove, lemma_views_update, views, Burst, BurstKind,
    ProcView, Process,
};
use crate::scheduler::{queue_wf, tick_transition, Scheduler, SchedulerResult};
use crate::system_state::SystemState;

verus! {

/// A cursor increment that wraps at the top of `usize`; only the cursor's
/// value modulo the ring length ever matters.
pub open spec fn wrap_inc(i: usize) -> usize {
    if i == usize::MAX {
        0
    } else {
        (i + 1) as usize
    }
}

/// Round-robin: an ordered collection treated as a ring, a cursor, and a
/// remaining-quantum counter. Each tick serves the process at the cursor
/// position (modulo the ring length). A completed burst leaves the ring and
/// the next slot starts with a fresh quantum; an exhausted quantum advances
/// the cursor, but the current tick's work still goes to the process that
/// held the slot. Newly enqueued processes join the tail of the ring. An
/// empty ring reports `NoBurstLeft` rather than `Idle` — an asymmetry with
/// the other policies that the driver normalizes.
pub struct RoundRobin {
    pub quantum_time: i32,
    pub processes: Vec<Process>,
    pub kind: BurstKind,
    pub remaining_time: i32,
    pub index: usize,
}

impl RoundRobin {
    pub fn new(processes: Vec<Process>, kind: BurstKind, quantum_time: i32) -> (s: RoundRobin)
        requires
            quantum_time >= 1,
        ensures
            s.queue_spec() == views(processes@),
            s.kind_spec() == kind,
            s.quantum_time == quantum_time,
            s.remaining_time == quantum_time,
            s.index == 0,
            s.policy_wf(),
    {
        RoundRobin { quantum_time, processes, kind, remaining_time: quantum_time, index: 0 }
    }
}

impl Scheduler for RoundRobin {
    open spec fn kind_spec(&self) -> BurstKind {
        self.kind
    }

    open spec fn queue_spec(&self) -> Seq<ProcView> {
        views(self.processes@)
    }

    open spec fn selected(&self, time: i32) -> Option<int> {
        if self.queue_spec().len() == 0 {
            Option::None
        } else {
            let i = (self.index as int) % (self.queue_spec().len() as int);
            if self.queue_spec()[i].arrival > time {
                Option::None
            } else {
                Option::Some(i)
            }
        }
    }

    open spec fn idle_result(&self) -> SchedulerResult {
        if self.queue_spec().len() == 0 {
            SchedulerResult::NoBurstLeft
        } else {
            SchedulerResult::Idle
        }
    }

    /// The remaining-quantum counter stays in `1 ..= quantum_time`.
    open spec fn policy_wf(&self) -> bool {
        1 <= self.remaining_time <= self.quantum_time
    }

    open spec fn tick_extra(&self, post: Self, time: i32) -> bool {
        &&& post.quantum_time == self.quantum_time
        &&& match self.selected(time) {
            Option::None => post.index == self.index && post.remaining_time == self.remaining_time,
            Option::Some(i) => {
                let p = self.queue_spec()[i];
                if p.burst.len() == 0 || p.burst[0].0 != self.kind {
                    post.index == self.index && post.remaining_time == self.remaining_time
                } else if p.burst[0].1 == 1 {
                    post.index == self.index && post.remaining_time == self.quantum_time
                } else if self.remaining_time == 1 {
                    post.index == wrap_inc(self.index) && post.remaining_time == self.quantum_time
                } else {
                    post.index == self.index && post.remaining_time == self.remaining_time - 1
                }
            },
        }
    }

    open spec fn enqueue_extra(&self, post: Self) -> bool {
        &&& post.quantum_time == self.quantum_time
        &&& post.index == self.index
        &&& post.remaining_time == self.remaining_time
    }

    proof fn lemma_selected_arrived(&self, time: i32) {
    }

    proof fn lemma_selects_ready(&self, time: i32) {
    }

    proof fn lemma_idle_result(&self) {
    }

    fn tick(&mut self, system_state: &SystemState) -> (r: SchedulerResult) {
        let ghost pre = self.processes@;
        let length = self.processes.len();
        if length == 0 {
            return SchedulerResult::NoBurstLeft;
        }
        let idx = self.index % length;
        let ghost i = idx as int;
        if self.processes[idx].arrival > system_state.time {
            return SchedulerResult::Idle;
        }
        let mut p = self.processes.remove(idx);
        if p.burst.len() == 0 {
            self.processes.insert(idx, p);
            proof {
                assert(self.processes@ =~= pre);
            }
            return SchedulerResult::NoBurstLeft;
        }
        let b = p.burst[0];
        if b.0 != self.kind {
            self.processes.insert(idx, p);
            proof {
                assert(self.processes@ =~= pre);
            }
            return SchedulerResult::WrongKind;
        }
        let b0 = p.burst.remove(0);
        if b0.1 == 1 {
            self.remaining_time = self.quantum_time;
            proof {
                assert(p@ =~= pre[i]@.pop_front());
                lemma_views_remove(pre, i);
            }
            SchedulerResult::Finished(p)
        } else {
            p.burst.insert(0, Burst(b0.0, b0.1 - 1));
            let snapshot = p.clone();
            proof {
                assert(p@ =~= pre[i]@.dec_front());
            }
            self.processes.insert(idx, p);
            proof {
                assert(self.processes@ =~= pre.update(i, self.processes@[i]));
                lemma_views_update(pre, i, self.processes@[i]);
                assert(views(self.processes@) =~= views(pre).update(i, pre[i]@.dec_front()));
            }
            self.remaining_time = self.remaining_time - 1;
            if self.remaining_time == 0 {
                self.remaining_time = self.quantum_time;
                self.index = if self.index == usize::MAX {
                    0
                } else {
                    self.index + 1
                };
            }
            SchedulerResult::Processing(snapshot)
        }
    }

    fn enqueue(&mut self, proc: Process) {
        proof {
            lemma_views_push(self.processes@, proc);
        }
        self.processes.push(proc);
    }

    fn get_queue(&self) -> (r: Vec<Process>) {
        clone_queue(&self.processes)
    }
}

/// Law: round-robin grants at most `quantum_time` consecutive ticks to one
/// slot. While the selected process keeps working inside its quantum, the
/// cursor stays put and the remaining-quantum counter decreases by exactly
/// one; the tick that exhausts the quantum advances the cursor and resets the
/// counter (the current tick's work still went to the slot's holder); a
/// completed burst leaves the ring and the next slot starts with a fresh
/// quantum. The counter never leaves `1 ..= quantum_time`.
pub proof fn lemma_round_robin_quantum(
    pre: RoundRobin,
    post: RoundRobin,
    time: i32,
    r: SchedulerResult,
)
    requires
        pre.policy_wf(),
        queue_wf(pre.queue_spec()),
        pre.tick_extra(post, time),
        tick_transition(
            pre.queue_spec(),
            post.queue_spec(),
            pre.kind_spec(),
            pre.selected(time),
            pre.idle_result(),
            r,
        ),
    ensures
        post.quantum_time == pre.quantum_time,
        1 <= post.remaining_time <= post.quantum_time,
        r matches SchedulerResult::Processing(p) ==> (if pre.remaining_time == 1 {
            post.index == wrap_inc(pre.index) && post.remaining_time == pre.quantum_time
        } else {
            post.index == pre.index && post.remaining_time == pre.remaining_time - 1
        }),
        r matches SchedulerResult::Finished(p) ==> post.index == pre.index && post.remaining_time
            == pre.quantum_time,
        (r matches SchedulerResult::Idle || r matches SchedulerResult::NoBurstLeft) ==> post.index
            == pre.index && post.remaining_time == pre.remaining_time,
{
}

} // verus!
