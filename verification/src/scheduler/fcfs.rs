use vstd::prelude::*;

use crate::process::{
    clone_queue, lemma_views_push, lemma_views_remove, lemma_views_update, views, Burst, BurstKind,
    ProcView, Process,
};
use crate::scheduler::{Scheduler, SchedulerResult};
use crate::system_state::SystemState;

verus! {

/// First-come-first-served: a FIFO queue. The front element is always the one
/// selected; a newly enqueued process goes to the back, regardless of its
/// original arrival time. Strict run-to-completion per burst, no preemption.
pub struct FCFS {
    pub processes: Vec<Process>,
    pub kind: BurstKind,
}

impl FCFS {
    pub fn new(processes: Vec<Process>, kind: BurstKind) -> (s: FCFS)
        ensures
            s.queue_spec() == views(processes@),
            s.kind_spec() == kind,
    {
        FCFS { processes, kind }
    }
}

impl Scheduler for FCFS {
    open spec fn kind_spec(&self) -> BurstKind {
        self.kind
    }

    open spec fn queue_spec(&self) -> Seq<ProcView> {
        views(self.processes@)
    }

    open spec fn selected(&self, time: i32) -> Option<int> {
        if self.queue_spec().len() == 0 || self.queue_spec()[0].arrival > time {
            Option::None
        } else {
            Option::Some(0int)
        }
    }

    open spec fn idle_result(&self) -> SchedulerResult {
        SchedulerResult::Idle
    }

    open spec fn policy_wf(&self) -> bool {
        true
    }

    open spec fn tick_extra(&self, post: Self, time: i32) -> bool {
        true
    }

    open spec fn enqueue_extra(&self, post: Self) -> bool {
        true
    }

    proof fn lemma_selected_arrived(&self, time: i32) {
    }

    proof fn lemma_selects_ready(&self, time: i32) {
    }

    proof fn lemma_idle_result(&self) {
    }

    fn tick(&mut self, system_state: &SystemState) -> (r: SchedulerResult) {
        let ghost pre = self.processes@;
        if self.processes.len() == 0 {
            return SchedulerResult::Idle;
        }
        if self.processes[0].arrival > system_state.time {
            return SchedulerResult::Idle;
        }
        let mut p = self.processes.remove(0);
        if p.burst.len() == 0 {
            self.processes.insert(0, p);
            proof {
                assert(self.processes@ =~= pre);
            }
            return SchedulerResult::NoBurstLeft;
        }
        let b = p.burst[0];
        if b.0 != self.kind {
            self.processes.insert(0, p);
            proof {
                assert(self.processes@ =~= pre);
            }
            return SchedulerResult::WrongKind;
        }
        let b0 = p.burst.remove(0);
        if b0.1 == 1 {
            proof {
                assert(p@ =~= pre[0]@.pop_front());
                lemma_views_remove(pre, 0);
            }
            SchedulerResult::Finished(p)
        } else {
            p.burst.insert(0, Burst(b0.0, b0.1 - 1));
            let snapshot = p.clone();
            proof {
                assert(p@ =~= pre[0]@.dec_front());
            }
            self.processes.insert(0, p);
            proof {
                assert(self.processes@ =~= pre.update(0, self.processes@[0]));
                lemma_views_update(pre, 0, self.processes[0]);
                assert(views(self.processes@) =~= views(pre).update(0, pre[0]@.dec_front()));
            }
            SchedulerResult::Processing(snapshot)
        }
    }

    fn enqueue(&mut self, proc: Process) {
        let ghost pre = self.processes@;
        let ghost pv = proc@;
        proof {
            lemma_views_push(pre, proc);
        }
        self.processes.push(proc);
    }

    fn get_queue(&self) -> (r: Vec<Process>) {
        clone_queue(&self.processes)
    }
}

} // verus!
