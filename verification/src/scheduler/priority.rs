use vstd::prelude::*;

use crate::process::{
    clone_queue, lemma_views_push, lemma_views_remove, lemma_views_update, views, Burst, BurstKind,
    ProcView, Process,
};
use crate::scheduler::{Scheduler, SchedulerResult};
use crate::system_state::SystemState;

verus! {

/// The queue position a priority policy selects from a non-empty queue: the
/// numerically smallest `priority` value wins ("lower number = more urgent"),
/// and between equal priorities the earliest queue position — insertion
/// order — wins. The tie-break is a deliberate, documented choice: the
/// binary-heap structure this policy is usually built on guarantees none.
pub open spec fn min_pri_idx(q: Seq<ProcView>) -> int
    recommends
        q.len() > 0,
    decreases q.len(),
{
    if q.len() <= 1 {
        0
    } else {
        let j = min_pri_idx(q.drop_last());
        if q.last().priority < q[j].priority {
            q.len() - 1
        } else {
            j
        }
    }
}

pub proof fn lemma_min_pri_idx(q: Seq<ProcView>)
    requires
        q.len() > 0,
    ensures
        0 <= min_pri_idx(q) < q.len(),
        forall|k: int| 0 <= k < q.len() ==> q[min_pri_idx(q)].priority <= (#[trigger] q[k]).priority,
        forall|k: int| 0 <= k < min_pri_idx(q) ==> (#[trigger] q[k]).priority > q[min_pri_idx(
            q,
        )].priority,
    decreases q.len(),
{
    if q.len() > 1 {
        lemma_min_pri_idx(q.drop_last());
        assert(forall|k: int| 0 <= k < q.len() - 1 ==> q.drop_last()[k] == (#[trigger] q[k]));
    }
}

/// The minimal position with the properties of [`lemma_min_pri_idx`] is
/// unique: any position that is minimal in priority and strictly preceded
/// only by greater priorities is `min_pri_idx`.
pub proof fn lemma_min_pri_idx_unique(q: Seq<ProcView>, i: int)
    requires
        0 <= i < q.len(),
        forall|k: int| 0 <= k < q.len() ==> q[i].priority <= (#[trigger] q[k]).priority,
        forall|k: int| 0 <= k < i ==> (#[trigger] q[k]).priority > q[i].priority,
    ensures
        i == min_pri_idx(q),
    decreases q.len(),
{
    if q.len() > 1 {
        let d = q.drop_last();
        assert(forall|k: int| 0 <= k < q.len() - 1 ==> d[k] == (#[trigger] q[k]));
        lemma_min_pri_idx(d);
        let j = min_pri_idx(d);
        if i == q.len() - 1 {
            assert(q[j].priority > q[i].priority);
            assert(q.last().priority < d[j].priority);
        } else {
            lemma_min_pri_idx_unique(d, i);
            assert(q.last().priority >= q[i].priority);
        }
    }
}

/// Priority scheduling: the process with the numerically smallest priority is
/// always the one selected next, preempting partially processed work at tick
/// granularity. The queue itself keeps insertion order; selection scans for
/// the minimum, so equal priorities are served in insertion order. Selection
/// always targets the current minimum: if that process has not arrived yet,
/// the tick reports `Idle` even when another queued process is ready.
pub struct Priority {
    pub processes: Vec<Process>,
    pub kind: BurstKind,
}

impl Priority {
    pub fn new(processes: Vec<Process>, kind: BurstKind) -> (s: Priority)
        ensures
            s.queue_spec() == views(processes@),
            s.kind_spec() == kind,
    {
        Priority { processes, kind }
    }
}

impl Scheduler for Priority {
    open spec fn kind_spec(&self) -> BurstKind {
        self.kind
    }

    open spec fn queue_spec(&self) -> Seq<ProcView> {
        views(self.processes@)
    }

    open spec fn selected(&self, time: i32) -> Option<int> {
        if self.queue_spec().len() == 0 {
            Option::None
        } else {
            let i = min_pri_idx(self.queue_spec());
            if self.queue_spec()[i].arrival > time {
                Option::None
            } else {
                Option::Some(i)
            }
        }
    }

    open spec fn idle_result(&self) -> SchedulerResult {
        SchedulerResult::Idle
    }

    open spec fn policy_wf(&self) -> bool {
        true
    }

    open spec fn tick_extra(&self, post: Self, time: i32) -> bool {
        true
    }

    open spec fn enqueue_extra(&self, post: Self) -> bool {
        true
    }

    proof fn lemma_selected_arrived(&self, time: i32) {
        if self.queue_spec().len() > 0 {
            lemma_min_pri_idx(self.queue_spec());
        }
    }

    proof fn lemma_selects_ready(&self, time: i32) {
        if self.queue_spec().len() > 0 {
            lemma_min_pri_idx(self.queue_spec());
        }
    }

    proof fn lemma_idle_result(&self) {
    }

    fn tick(&mut self, system_state: &SystemState) -> (r: SchedulerResult) {
        let ghost pre = self.processes@;
        if self.processes.len() == 0 {
            return SchedulerResult::Idle;
        }
        let mut best: usize = 0;
        let mut j: usize = 1;
        while j < self.processes.len()
            invariant
                self.processes@ == pre,
                pre.len() > 0,
                best < j,
                j <= pre.len(),
                forall|k: int| 0 <= k < j ==> pre[best as int]@.priority <= (#[trigger] pre[k])@.priority,
                forall|k: int| 0 <= k < best ==> (#[trigger] pre[k])@.priority > pre[best as int]@.priority,
            decreases pre.len() - j,
        {
            if self.processes[j].priority < self.processes[best].priority {
                best = j;
            }
            j = j + 1;
        }
        proof {
            assert(forall|k: int|
                0 <= k < pre.len() ==> (#[trigger] views(pre)[k]) == pre[k]@);
            lemma_min_pri_idx_unique(views(pre), best as int);
        }
        if self.processes[best].arrival > system_state.time {
            return SchedulerResult::Idle;
        }
        let ghost i = best as int;
        let mut p = self.processes.remove(best);
        if p.burst.len() == 0 {
            self.processes.insert(best, p);
            proof {
                assert(self.processes@ =~= pre);
            }
            return SchedulerResult::NoBurstLeft;
        }
        let b = p.burst[0];
        if b.0 != self.kind {
            self.processes.insert(best, p);
            proof {
                assert(self.processes@ =~= pre);
            }
            return SchedulerResult::WrongKind;
        }
        let b0 = p.burst.remove(0);
        if b0.1 == 1 {
            proof {
                assert(p@ =~= pre[i]@.pop_front());
                lemma_views_remove(pre, i);
            }
            SchedulerResult::Finished(p)
        } else {
            p.burst.insert(0, Burst(b0.0, b0.1 - 1));
            let snapshot = p.clone();
            proof {
                assert(p@ =~= pre[i]@.dec_front());
            }
            self.processes.insert(best, p);
            proof {
                assert(self.processes@ =~= pre.update(i, self.processes@[i]));
                lemma_views_update(pre, i, self.processes@[i]);
                assert(views(self.processes@) =~= views(pre).update(i, pre[i]@.dec_front()));
            }
            SchedulerResult::Processing(snapshot)
        }
    }

    fn enqueue(&mut self, proc: Process) {
        proof {
            lemma_views_push(self.processes@, proc);
        }
        self.processes.push(proc);
    }

    fn get_queue(&self) -> (r: Vec<Process>) {
        clone_queue(&self.processes)
    }
}

/// Law: whenever the priority policy selects a process, no queued process has
/// a numerically smaller priority value, among equal priorities the earliest
/// queue position wins, and the selected process has arrived.
pub proof fn lemma_priority_selects_min(p: &Priority, time: i32)
    ensures
        match p.selected(time) {
            Option::Some(i) => {
                &&& 0 <= i < p.queue_spec().len()
                &&& p.queue_spec()[i].arrival <= time
                &&& forall|k: int|
                    0 <= k < p.queue_spec().len() ==> p.queue_spec()[i].priority <= (
                    #[trigger] p.queue_spec()[k]).priority
                &&& forall|k: int|
                    0 <= k < i ==> (#[trigger] p.queue_spec()[k]).priority
                        > p.queue_spec()[i].priority
            },
            Option::None => p.queue_spec().len() == 0 || p.queue_spec()[min_pri_idx(
                p.queue_spec(),
            )].arrival > time,
        },
{
    if p.queue_spec().len() > 0 {
        lemma_min_pri_idx(p.queue_spec());
    }
}

} // verus!
