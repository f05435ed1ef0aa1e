use vstd::prelude::*;

use crate::process::{bursts_wf, views, BurstKind, ProcView, Process};
use crate::system_state::SystemState;

pub mod fcfs;
pub mod priority;
pub mod round_robin;

verus! {

/// The outcome of one policy tick.
#[derive(Debug)]
pub enum SchedulerResult {
    /// The selected process's front burst reached zero and was popped; the
    /// process left this policy's queue and is handed back to the driver,
    /// which either retires it or transfers it to the other resource.
    Finished(Process),
    /// The selected process was charged one tick of work and remains queued;
    /// the payload is a read-only snapshot of it.
    Processing(Process),
    /// No ready process this tick.
    Idle,
    /// The selected process's front burst does not demand this policy's
    /// resource: a wiring defect.
    WrongKind,
    /// The selected process has no burst left. Round-robin also reports an
    /// empty ring this way; on a non-empty queue it is a wiring defect.
    NoBurstLeft,
}

/// Every queued process has a well-formed burst sequence.
pub open spec fn queue_wf(q: Seq<ProcView>) -> bool {
    forall|i: int| 0 <= i < q.len() ==> (#[trigger] q[i]).wf()
}

/// How one policy tick transforms a queue, and what it returns.
///
/// `pre` and `post` are the queue before and after, `kind` the policy's
/// resource, `sel` the position the policy selects (`None` when the queue is
/// empty or the candidate has not arrived), `idle` what the policy reports
/// when it selects nothing, and `r` the tick's result.
pub open spec fn tick_transition(
    pre: Seq<ProcView>,
    post: Seq<ProcView>,
    kind: BurstKind,
    sel: Option<int>,
    idle: SchedulerResult,
    r: SchedulerResult,
) -> bool {
    match sel {
        Option::None => post == pre && r == idle,
        Option::Some(i) => {
            &&& 0 <= i < pre.len()
            &&& if pre[i].burst.len() == 0 {
                post == pre && r == SchedulerResult::NoBurstLeft
            } else if pre[i].burst[0].0 != kind {
                post == pre && r == SchedulerResult::WrongKind
            } else if pre[i].burst[0].1 == 1 {
                &&& post == pre.remove(i)
                &&& r matches SchedulerResult::Finished(p) && p@ == pre[i].pop_front()
            } else {
                &&& post == pre.update(i, pre[i].dec_front())
                &&& r matches SchedulerResult::Processing(p) && p@ == pre[i].dec_front()
            }
        },
    }
}

/// A scheduling policy owning the queue of one resource.
///
/// `tick` advances exactly one ready process by one tick; `enqueue` makes the
/// policy the sole owner of a process; `get_queue` is a read-only snapshot of
/// the current membership.
pub trait Scheduler: Sized {
    /// The resource kind this policy serves.
    spec fn kind_spec(&self) -> BurstKind;

    /// The queue contents, in this policy's internal order.
    spec fn queue_spec(&self) -> Seq<ProcView>;

    /// The queue position this policy selects at the given time, if any.
    spec fn selected(&self, time: i32) -> Option<int>;

    /// What a tick returns when the policy selects nothing.
    spec fn idle_result(&self) -> SchedulerResult;

    /// Policy-private well-formedness (bookkeeping counters in range).
    spec fn policy_wf(&self) -> bool;

    /// What one tick does to the policy's private bookkeeping, beyond the
    /// queue transformation stated by [`tick_transition`].
    spec fn tick_extra(&self, post: Self, time: i32) -> bool;

    /// What an enqueue does to the policy's private bookkeeping.
    spec fn enqueue_extra(&self, post: Self) -> bool;

    /// A selected process stands in the queue and has arrived: no policy ever
    /// selects a process before `time >= arrival`.
    proof fn lemma_selected_arrived(&self, time: i32)
        ensures
            match self.selected(time) {
                Option::Some(i) => 0 <= i < self.queue_spec().len() && self.queue_spec()[i].arrival
                    <= time,
                Option::None => true,
            },
    ;

    /// A non-empty queue whose processes have all arrived is never idled
    /// past: the policy selects one of them.
    proof fn lemma_selects_ready(&self, time: i32)
        ensures
            (self.queue_spec().len() > 0 && (forall|i: int|
                0 <= i < self.queue_spec().len() ==> (#[trigger] self.queue_spec()[i]).arrival
                    <= time)) ==> self.selected(time) is Some,
    ;

    /// Selecting nothing reports `Idle`, except that an empty queue may be
    /// reported as `NoBurstLeft` (round-robin does): on a non-empty queue a
    /// `NoBurstLeft` can only come from a selected process without bursts.
    proof fn lemma_idle_result(&self)
        ensures
            self.idle_result() == SchedulerResult::Idle || (self.idle_result()
                == SchedulerResult::NoBurstLeft && self.queue_spec().len() == 0),
    ;

    /// Examine the selected process, if any, and charge it one tick of work
    /// on this policy's resource.
    fn tick(&mut self, system_state: &SystemState) -> (r: SchedulerResult)
        requires
            queue_wf(old(self).queue_spec()),
            old(self).policy_wf(),
        ensures
            final(self).kind_spec() == old(self).kind_spec(),
            final(self).policy_wf(),
            tick_transition(
                old(self).queue_spec(),
                final(self).queue_spec(),
                old(self).kind_spec(),
                old(self).selected(system_state.time),
                old(self).idle_result(),
                r,
            ),
            old(self).tick_extra(*final(self), system_state.time),
    ;

    /// Insert a process at the back of this policy's queue, preserving all
    /// existing entries.
    fn enqueue(&mut self, proc: Process)
        requires
            bursts_wf(proc@.burst),
            old(self).policy_wf(),
        ensures
            final(self).kind_spec() == old(self).kind_spec(),
            final(self).policy_wf(),
            final(self).queue_spec() == old(self).queue_spec().push(proc@),
            old(self).enqueue_extra(*final(self)),
    ;

    /// A read-only snapshot of the queue's current membership.
    fn get_queue(&self) -> (r: Vec<Process>)
        ensures
            views(r@) == self.queue_spec(),
    ;
}

/// Law: one tick never touches any queued process other than the selected
/// one, and the selected process's front burst loses exactly one tick of
/// work — it is popped precisely when that one tick was its last.
pub proof fn lemma_tick_changes_only_selected(
    pre: Seq<ProcView>,
    post: Seq<ProcView>,
    kind: BurstKind,
    sel: Option<int>,
    idle: SchedulerResult,
    r: SchedulerResult,
)
    requires
        tick_transition(pre, post, kind, sel, idle, r),
        queue_wf(pre),
    ensures
        sel is None ==> post == pre,
        sel matches Some(i) ==> match r {
            SchedulerResult::Processing(p) => {
                &&& post.len() == pre.len()
                &&& forall|j: int| 0 <= j < pre.len() && j != i ==> post[j] == pre[j]
                &&& post[i].burst.len() == pre[i].burst.len()
                &&& post[i].burst[0].1 == pre[i].burst[0].1 - 1
                &&& forall|k: int| 1 <= k < pre[i].burst.len() ==> post[i].burst[k]
                    == pre[i].burst[k]
                &&& p@ == post[i]
            },
            SchedulerResult::Finished(p) => {
                &&& pre[i].burst[0].1 == 1
                &&& post.len() == pre.len() - 1
                &&& forall|j: int| 0 <= j < i ==> post[j] == pre[j]
                &&& forall|j: int| i <= j < post.len() ==> post[j] == pre[j + 1]
                &&& p@ == pre[i].pop_front()
            },
            SchedulerResult::Idle => false,
            _ => post == pre,
        },
{
    match sel {
        Option::Some(i) => {
            if pre[i].burst.len() > 0 && pre[i].burst[0].0 == kind {
                if pre[i].burst[0].1 == 1 {
                    assert(post == pre.remove(i));
                    assert forall|j: int| 0 <= j < i implies post[j] == pre[j] by {
                        assert(pre.remove(i)[j] == pre[j]);
                    }
                    assert forall|j: int| i <= j < post.len() implies post[j] == pre[j + 1] by {
                        assert(pre.remove(i)[j] == pre[j + 1]);
                    }
                } else {
                    assert(post == pre.update(i, pre[i].dec_front()));
                    assert(post[i] == pre[i].dec_front());
                    assert forall|j: int| 0 <= j < pre.len() && j != i implies post[j] == pre[j] by {
                        assert(pre.update(i, pre[i].dec_front())[j] == pre[j]);
                    }
                }
            }
        },
        Option::None => {},
    }
}

} // verus!
