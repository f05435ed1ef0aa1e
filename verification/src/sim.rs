use vstd::prelude::*;

use crate::process::{
    clone_queue, lemma_views_push, sum_bursts, views, Burst, BurstKind, ProcView, Process,
};
use crate::scheduler::{queue_wf, tick_transition, Scheduler, SchedulerResult};
use crate::system_state::SystemState;
use vstd::multiset::Multiset;

verus! {

/// What one resource was doing during a tick, as shown by a display.
pub enum SchedulerState {
    Processing(Process),
    Idle,
}

impl SchedulerState {
    /// The display state for one tick's result: any tick that charged a
    /// process work shows that process; everything else shows an idle
    /// resource. A `WrongKind` result is a wiring defect the driver never
    /// lets through, so it is excluded here.
    pub fn from_result(r: &SchedulerResult) -> (s: SchedulerState)
        requires
            !(r matches SchedulerResult::WrongKind),
        ensures
            match r {
                SchedulerResult::Finished(p) => s matches SchedulerState::Processing(q) && q@
                    == p@,
                SchedulerResult::Processing(p) => s matches SchedulerState::Processing(q) && q@
                    == p@,
                _ => s matches SchedulerState::Idle,
            },
    {
        match r {
            SchedulerResult::Finished(p) => SchedulerState::Processing(p.clone()),
            SchedulerResult::Processing(p) => SchedulerState::Processing(p.clone()),
            _ => SchedulerState::Idle,
        }
    }
}

/// A read-only per-tick snapshot: both tick results, both queues' membership,
/// the finished list and the remaining arrival backlog. External log and
/// visualizer collaborators fold over the sequence of these; they never
/// mutate simulation state.
pub struct TickEntry {
    pub cpu_process: SchedulerResult,
    pub io_process: SchedulerResult,
    pub cpu_queue: Vec<Process>,
    pub io_queue: Vec<Process>,
    pub finished_processes: Vec<Process>,
    pub yet_to_arrive: Vec<Process>,
}

/// Every process in a policy's queue is correctly routed: well-formed bursts,
/// at least one burst left, and a front burst demanding this resource.
pub open spec fn routed_ok(q: Seq<ProcView>, kind: BurstKind) -> bool {
    forall|i: int|
        0 <= i < q.len() ==> (#[trigger] q[i]).wf() && q[i].burst.len() > 0 && q[i].burst[0].0
            == kind
}

/// The arrival backlog is sorted by arrival time, and every process in it is
/// well-formed and starts with a CPU burst (the load-time convention; an
/// empty burst sequence is rejected as malformed input before a simulation
/// ever starts).
pub open spec fn backlog_ok(b: Seq<ProcView>) -> bool {
    &&& forall|i: int|
        0 <= i < b.len() ==> (#[trigger] b[i]).wf() && b[i].burst.len() > 0 && b[i].burst[0].0
            == BurstKind::Cpu
    &&& forall|i: int, j: int| 0 <= i <= j < b.len() ==> b[i].arrival <= b[j].arrival
}

/// How many processes the driver admits from the front of the backlog at the
/// given time: the longest prefix whose arrival times have passed.
pub open spec fn n_admit(b: Seq<ProcView>, time: i32) -> int
    decreases b.len(),
{
    if b.len() == 0 {
        0
    } else if b[0].arrival <= time {
        1 + n_admit(b.drop_first(), time)
    } else {
        0
    }
}

pub proof fn lemma_n_admit_bounds(b: Seq<ProcView>, time: i32)
    ensures
        0 <= n_admit(b, time) <= b.len(),
    decreases b.len(),
{
    if b.len() > 0 && b[0].arrival <= time {
        lemma_n_admit_bounds(b.drop_first(), time);
    }
}

/// The process a `Finished` result retires, if it has no bursts left.
pub open spec fn finished_of(r: SchedulerResult) -> Seq<ProcView> {
    match r {
        SchedulerResult::Finished(p) => if p@.burst.len() == 0 {
            seq![p@]
        } else {
            Seq::empty()
        },
        _ => Seq::empty(),
    }
}

/// The pids of a queue, with multiplicity.
pub open spec fn pids_of(q: Seq<ProcView>) -> Multiset<i32> {
    q.map_values(|p: ProcView| p.pid).to_multiset()
}

/// The process a `Finished` result hands to the other resource: the one with
/// bursts left. (Its counterpart, [`finished_of`], names the one retired.)
pub open spec fn handed_off(r: SchedulerResult) -> Seq<ProcView> {
    match r {
        SchedulerResult::Finished(p) => if p@.burst.len() > 0 {
            seq![p@]
        } else {
            Seq::empty()
        },
        _ => Seq::empty(),
    }
}

/// The view a pending hand-off holds, if any.
pub open spec fn view_of_pending(o: Option<Process>) -> Seq<ProcView> {
    match o {
        Option::Some(p) => seq![p@],
        Option::None => Seq::empty(),
    }
}

/// The pid a pending hand-off holds, if any.
pub open spec fn pid_of_pending(o: Option<Process>) -> Multiset<i32> {
    match o {
        Option::Some(p) => Multiset::empty().insert(p@.pid),
        Option::None => Multiset::empty(),
    }
}

/// A pending hand-off, if present, is a well-formed process whose next burst
/// demands the given resource.
pub open spec fn pending_ok(o: Option<Process>, kind: BurstKind) -> bool {
    match o {
        Option::Some(p) => p@.wf() && p@.burst.len() > 0 && p@.burst[0].0 == kind,
        Option::None => true,
    }
}

pub proof fn lemma_pids_empty(q: Seq<ProcView>)
    requires
        q.len() == 0,
    ensures
        pids_of(q) == Multiset::<i32>::empty(),
{
    let f = |x: ProcView| x.pid;
    q.map_values(f).to_multiset_ensures();
    assert forall|a: i32| pids_of(q).count(a) == 0 by {
        assert(!q.map_values(f).contains(a));
    }
    assert(pids_of(q) =~= Multiset::<i32>::empty());
}

pub proof fn lemma_pids_concat(a: Seq<ProcView>, b: Seq<ProcView>)
    ensures
        pids_of(a + b) == pids_of(a).add(pids_of(b)),
{
    let f = |p: ProcView| p.pid;
    assert((a + b).map_values(f) =~= a.map_values(f) + b.map_values(f));
    vstd::seq_lib::lemma_multiset_commutative(a.map_values(f), b.map_values(f));
}

pub proof fn lemma_pids_push(q: Seq<ProcView>, p: ProcView)
    ensures
        pids_of(q.push(p)) == pids_of(q).insert(p.pid),
{
    let f = |x: ProcView| x.pid;
    assert(q.push(p).map_values(f) =~= q.map_values(f).push(p.pid));
    q.map_values(f).to_multiset_ensures();
    assert(q.map_values(f).push(p.pid).to_multiset() =~= q.map_values(f).to_multiset().insert(
        p.pid,
    ));
}

pub proof fn lemma_pids_update_same(q: Seq<ProcView>, i: int, p: ProcView)
    requires
        0 <= i < q.len(),
        p.pid == q[i].pid,
    ensures
        pids_of(q.update(i, p)) == pids_of(q),
{
    let f = |x: ProcView| x.pid;
    assert(q.update(i, p).map_values(f) =~= q.map_values(f));
}

pub proof fn lemma_pids_remove(q: Seq<ProcView>, i: int)
    requires
        0 <= i < q.len(),
    ensures
        pids_of(q.remove(i)) == pids_of(q).remove(q[i].pid),
        pids_of(q.remove(i)).insert(q[i].pid) == pids_of(q),
{
    let f = |x: ProcView| x.pid;
    assert(q.remove(i).map_values(f) =~= q.map_values(f).remove(i));
    q.map_values(f).to_multiset_ensures();
    assert(q.map_values(f).remove(i).to_multiset() =~= q.map_values(f).to_multiset().remove(
        q.map_values(f)[i],
    ));
    assert(q.map_values(f)[i] == q[i].pid);
    assert(q.map_values(f).to_multiset().count(q[i].pid) > 0) by {
        assert(q.map_values(f).contains(q[i].pid)) by {
            assert(q.map_values(f)[i] == q[i].pid);
        }
    }
    assert(pids_of(q).remove(q[i].pid).insert(q[i].pid) =~= pids_of(q));
}

/// The total demand still queued: every process's bursts, summed.
pub open spec fn work_of(q: Seq<ProcView>) -> int
    decreases q.len(),
{
    if q.len() == 0 {
        0
    } else {
        work_of(q.drop_last()) + sum_bursts(q.last().burst)
    }
}

/// The demand one tick consumed: one unit when it charged a process, none
/// when the resource sat idle.
pub open spec fn tick_work_delta(r: SchedulerResult) -> int {
    match r {
        SchedulerResult::Processing(_) => 1,
        SchedulerResult::Finished(_) => 1,
        _ => 0,
    }
}

/// The demand a `Finished` result carries out of its queue.
pub open spec fn handed_work(r: SchedulerResult) -> int {
    match r {
        SchedulerResult::Finished(p) => sum_bursts(p@.burst),
        _ => 0,
    }
}

/// The demand a pending hand-off holds, if any.
pub open spec fn work_of_pending(o: Option<Process>) -> int {
    match o {
        Option::Some(p) => sum_bursts(p@.burst),
        Option::None => 0,
    }
}

pub proof fn lemma_work_concat(a: Seq<ProcView>, b: Seq<ProcView>)
    ensures
        work_of(a + b) == work_of(a) + work_of(b),
    decreases b.len(),
{
    if b.len() == 0 {
        assert(a + b =~= a);
    } else {
        lemma_work_concat(a, b.drop_last());
        assert((a + b).drop_last() =~= a + b.drop_last());
        assert((a + b).last() == b.last());
    }
}

pub proof fn lemma_work_push(q: Seq<ProcView>, p: ProcView)
    ensures
        work_of(q.push(p)) == work_of(q) + sum_bursts(p.burst),
{
    assert(q.push(p).drop_last() =~= q);
    assert(q.push(p).last() == p);
}

pub proof fn lemma_work_update(q: Seq<ProcView>, i: int, p: ProcView)
    requires
        0 <= i < q.len(),
    ensures
        work_of(q.update(i, p)) == work_of(q) - sum_bursts(q[i].burst) + sum_bursts(p.burst),
    decreases q.len(),
{
    if i == q.len() - 1 {
        assert(q.update(i, p).drop_last() =~= q.drop_last());
        assert(q.update(i, p).last() == p);
        assert(q.last() == q[i]);
    } else {
        assert(q.update(i, p).drop_last() =~= q.drop_last().update(i, p));
        lemma_work_update(q.drop_last(), i, p);
        assert(q.drop_last()[i] == q[i]);
        assert(q.update(i, p).last() == q.last());
    }
}

pub proof fn lemma_work_remove(q: Seq<ProcView>, i: int)
    requires
        0 <= i < q.len(),
    ensures
        work_of(q.remove(i)) == work_of(q) - sum_bursts(q[i].burst),
    decreases q.len(),
{
    if i == q.len() - 1 {
        assert(q.remove(i) =~= q.drop_last());
        assert(q.last() == q[i]);
    } else {
        assert(q.remove(i).drop_last() =~= q.drop_last().remove(i));
        lemma_work_remove(q.drop_last(), i);
        assert(q.drop_last()[i] == q[i]);
        assert(q.remove(i).len() == q.len() - 1);
        assert(q.remove(i).last() == q.last());
    }
}

/// A queue of well-formed processes never holds negative demand.
pub proof fn lemma_work_nonneg(q: Seq<ProcView>)
    requires
        forall|i: int| 0 <= i < q.len() ==> (#[trigger] q[i]).wf(),
    ensures
        work_of(q) >= 0,
    decreases q.len(),
{
    if q.len() > 0 {
        assert(forall|i: int| 0 <= i < q.len() - 1 ==> q.drop_last()[i] == (#[trigger] q[i]));
        lemma_work_nonneg(q.drop_last());
        crate::process::lemma_sum_bursts_nonneg(q.last().burst);
    }
}

/// Law: one policy tick consumes exactly one unit of demand when it charges a
/// process and none when it sits idle; a completed burst leaves the queue
/// with its process, which carries the rest of its demand along. A tick of a
/// correctly routed, non-empty selection always charges someone.
pub proof fn lemma_tick_work(
    pre: Seq<ProcView>,
    post: Seq<ProcView>,
    kind: BurstKind,
    sel: Option<int>,
    idle: SchedulerResult,
    r: SchedulerResult,
)
    requires
        tick_transition(pre, post, kind, sel, idle, r),
        queue_wf(pre),
        idle == SchedulerResult::Idle || idle == SchedulerResult::NoBurstLeft,
    ensures
        work_of(post) + handed_work(r) == work_of(pre) - tick_work_delta(r),
        sel is Some && routed_ok(pre, kind) ==> tick_work_delta(r) == 1,
{
    match sel {
        Option::Some(i) => {
            if pre[i].burst.len() == 0 {
            } else if pre[i].burst[0].0 != kind {
            } else if pre[i].burst[0].1 == 1 {
                lemma_work_remove(pre, i);
                crate::process::lemma_sum_bursts_drop_first(pre[i].burst);
            } else {
                lemma_work_update(pre, i, pre[i].dec_front());
                crate::process::lemma_sum_bursts_update(
                    pre[i].burst,
                    0,
                    Burst(pre[i].burst[0].0, (pre[i].burst[0].1 - 1) as i32),
                );
            }
        },
        Option::None => {
        },
    }
}

/// Everything the driver admits has arrived.
pub proof fn lemma_n_admit_arrived(b: Seq<ProcView>, time: i32)
    ensures
        forall|k: int| 0 <= k < n_admit(b, time) ==> (#[trigger] b[k]).arrival <= time,
    decreases b.len(),
{
    if b.len() > 0 && b[0].arrival <= time {
        lemma_n_admit_arrived(b.drop_first(), time);
        lemma_n_admit_bounds(b.drop_first(), time);
        assert forall|k: int| 1 <= k < n_admit(b, time) implies (#[trigger] b[k]).arrival
            <= time by {
            assert(b.drop_first()[k - 1] == b[k]);
            assert(b.drop_first()[k - 1].arrival <= time);
        }
    }
}

/// One policy tick keeps a correctly routed queue correctly routed: the only
/// process it touches either stays with more work on the same front kind or
/// leaves the queue.
pub proof fn lemma_tick_preserves_routed(
    pre: Seq<ProcView>,
    post: Seq<ProcView>,
    kind: BurstKind,
    sel: Option<int>,
    idle: SchedulerResult,
    r: SchedulerResult,
)
    requires
        tick_transition(pre, post, kind, sel, idle, r),
        routed_ok(pre, kind),
    ensures
        routed_ok(post, kind),
{
    match sel {
        Option::Some(i) => {
            if pre[i].burst.len() == 0 {
            } else if pre[i].burst[0].0 != kind {
            } else if pre[i].burst[0].1 == 1 {
                assert forall|j: int|
                    0 <= j < post.len() implies (#[trigger] post[j]).wf() && post[j].burst.len()
                    > 0 && post[j].burst[0].0 == kind by {
                    if j < i {
                        assert(post[j] == pre.remove(i)[j]);
                        assert(pre.remove(i)[j] == pre[j]);
                    } else {
                        assert(post[j] == pre.remove(i)[j]);
                        assert(pre.remove(i)[j] == pre[j + 1]);
                    }
                }
            } else {
                crate::process::lemma_dec_front_wf(pre[i]);
                assert forall|j: int|
                    0 <= j < post.len() implies (#[trigger] post[j]).wf() && post[j].burst.len()
                    > 0 && post[j].burst[0].0 == kind by {
                    if j != i {
                        assert(post[j] == pre.update(i, pre[i].dec_front())[j]);
                        assert(post[j] == pre[j]);
                    } else {
                        assert(post[i] == pre[i].dec_front());
                    }
                }
            }
        },
        Option::None => {
        },
    }
}

/// One policy tick never adds a process that has not arrived: arrival times
/// are immutable and the tick only shrinks demands or removes entries.
pub proof fn lemma_tick_preserves_arrived(
    pre: Seq<ProcView>,
    post: Seq<ProcView>,
    kind: BurstKind,
    sel: Option<int>,
    idle: SchedulerResult,
    r: SchedulerResult,
    time: i32,
)
    requires
        tick_transition(pre, post, kind, sel, idle, r),
        forall|i: int| 0 <= i < pre.len() ==> (#[trigger] pre[i]).arrival <= time,
    ensures
        forall|i: int| 0 <= i < post.len() ==> (#[trigger] post[i]).arrival <= time,
{
    match sel {
        Option::Some(i) => {
            if pre[i].burst.len() == 0 {
            } else if pre[i].burst[0].0 != kind {
            } else if pre[i].burst[0].1 == 1 {
                assert forall|j: int| 0 <= j < post.len() implies (#[trigger] post[j]).arrival
                    <= time by {
                    if j < i {
                        assert(post[j] == pre.remove(i)[j]);
                        assert(pre.remove(i)[j] == pre[j]);
                    } else {
                        assert(post[j] == pre.remove(i)[j]);
                        assert(pre.remove(i)[j] == pre[j + 1]);
                    }
                }
            } else {
                assert forall|j: int| 0 <= j < post.len() implies (#[trigger] post[j]).arrival
                    <= time by {
                    if j != i {
                        assert(post[j] == pre[j]);
                    } else {
                        assert(post[i] == pre[i].dec_front());
                    }
                }
            }
        },
        Option::None => {
        },
    }
}

/// A correctly routed queue is in particular well-formed.
pub proof fn lemma_routed_queue_wf(q: Seq<ProcView>, kind: BurstKind)
    requires
        routed_ok(q, kind),
    ensures
        queue_wf(q),
{
}

/// Appending a correctly routed process keeps a queue correctly routed.
pub proof fn lemma_routed_push(q: Seq<ProcView>, kind: BurstKind, p: ProcView)
    requires
        routed_ok(q, kind),
        p.wf(),
        p.burst.len() > 0,
        p.burst[0].0 == kind,
    ensures
        routed_ok(q.push(p), kind),
{
    assert forall|j: int|
        0 <= j < q.push(p).len() implies (#[trigger] q.push(p)[j]).wf() && q.push(p)[j].burst.len()
        > 0 && q.push(p)[j].burst[0].0 == kind by {
        if j < q.len() {
            assert(q.push(p)[j] == q[j]);
        } else {
            assert(q.push(p)[j] == p);
        }
    }
}

/// The tick-driven simulation driver: an arrival backlog sorted by arrival
/// time, one policy per resource, and the finished list. Each step admits
/// newly arrived processes into the CPU policy, ticks the CPU policy and then
/// the IO policy, routes processes whose burst just completed to the opposite
/// resource (or retires them), and advances the clock by one.
pub struct Simulation<C: Scheduler, I: Scheduler> {
    pub backlog: Vec<Process>,
    pub cpu: C,
    pub io: I,
    pub finished: Vec<Process>,
    pub system_state: SystemState,
}

impl<C: Scheduler, I: Scheduler> Simulation<C, I> {
    /// The driver's invariant: the CPU policy serves CPU bursts, the IO
    /// policy IO bursts, every queued process is routed to the resource its
    /// front burst demands, and the backlog is a sorted, well-formed arrival
    /// list.
    pub open spec fn wf(self) -> bool {
        &&& self.cpu.kind_spec() == BurstKind::Cpu
        &&& self.io.kind_spec() == BurstKind::Io
        &&& self.cpu.policy_wf()
        &&& self.io.policy_wf()
        &&& routed_ok(self.cpu.queue_spec(), BurstKind::Cpu)
        &&& routed_ok(self.io.queue_spec(), BurstKind::Io)
        &&& backlog_ok(views(self.backlog@))
    }

    /// The ownership discipline, as a multiset of pids: at every instant a
    /// process record is owned by exactly one of the arrival backlog, the CPU
    /// policy's queue, the IO policy's queue, and the finished list.
    /// Transfers between them are moves, never copies, so one driver step
    /// preserves this multiset exactly.
    pub open spec fn owned_pids(self) -> Multiset<i32> {
        pids_of(views(self.backlog@)).add(pids_of(self.cpu.queue_spec())).add(
            pids_of(self.io.queue_spec()),
        ).add(pids_of(views(self.finished@)))
    }

    /// Every queued process has already arrived: the driver's steady state,
    /// since it only admits processes whose arrival time has passed and the
    /// clock never moves backwards.
    pub open spec fn queues_arrived(self) -> bool {
        &&& forall|i: int|
            0 <= i < self.cpu.queue_spec().len() ==> (#[trigger] self.cpu.queue_spec()[i]).arrival
                <= self.system_state.time
        &&& forall|i: int|
            0 <= i < self.io.queue_spec().len() ==> (#[trigger] self.io.queue_spec()[i]).arrival
                <= self.system_state.time
    }

    /// The total demand still to be served, over the backlog and both queues.
    pub open spec fn total_work(self) -> int {
        work_of(views(self.backlog@)) + work_of(self.cpu.queue_spec()) + work_of(
            self.io.queue_spec(),
        )
    }

    /// The terminal condition: nothing left to arrive, nothing queued.
    pub open spec fn is_terminal(self) -> bool {
        self.backlog@.len() == 0 && self.cpu.queue_spec().len() == 0 && self.io.queue_spec().len()
            == 0
    }

    /// The bound never goes negative while the driver's invariant holds.
    pub proof fn lemma_steps_bound_nonneg(self)
        requires
            self.wf(),
        ensures
            self.steps_bound() >= 0,
    {
        lemma_work_nonneg(views(self.backlog@));
        lemma_work_nonneg(self.cpu.queue_spec());
        lemma_work_nonneg(self.io.queue_spec());
    }

    /// An upper bound on the ticks left before the simulation terminates: the
    /// queued demand, plus the idle gap until the last arrival. Every
    /// non-terminal step shrinks it by at least one.
    pub open spec fn steps_bound(self) -> int {
        self.total_work() + (if self.backlog@.len() > 0 {
            let gap = views(self.backlog@).last().arrival - self.system_state.time;
            if gap > 0 {
                gap
            } else {
                0
            }
        } else {
            0
        })
    }

    pub fn new(processes: Vec<Process>, cpu: C, io: I) -> (s: Simulation<C, I>)
        requires
            cpu.kind_spec() == BurstKind::Cpu,
            io.kind_spec() == BurstKind::Io,
            cpu.policy_wf(),
            io.policy_wf(),
            routed_ok(cpu.queue_spec(), BurstKind::Cpu),
            routed_ok(io.queue_spec(), BurstKind::Io),
            backlog_ok(views(processes@)),
        ensures
            s.wf(),
            s.backlog@ == processes@,
            s.cpu == cpu,
            s.io == io,
            views(s.finished@) == Seq::<ProcView>::empty(),
            s.system_state.time == 0,
    {
        let s = Simulation {
            backlog: processes,
            cpu,
            io,
            finished: Vec::new(),
            system_state: SystemState::new(),
        };
        proof {
            assert(views(s.finished@) =~= Seq::<ProcView>::empty());
        }
        s
    }

    /// Admit every backlog process whose arrival time has passed into the CPU
    /// policy, in backlog order.
    fn admit_arrivals(&mut self)
        requires
            old(self).wf(),
        ensures
            final(self).wf(),
            final(self).system_state == old(self).system_state,
            final(self).io == old(self).io,
            final(self).finished == old(self).finished,
            views(final(self).backlog@) == views(old(self).backlog@).skip(
                n_admit(views(old(self).backlog@), old(self).system_state.time),
            ),
            final(self).cpu.queue_spec() == old(self).cpu.queue_spec() + views(
                old(self).backlog@,
            ).take(n_admit(views(old(self).backlog@), old(self).system_state.time)),
            final(self).cpu.kind_spec() == old(self).cpu.kind_spec(),
            final(self).cpu.policy_wf(),
            n_admit(views(old(self).backlog@), old(self).system_state.time) == 0 ==> final(self).cpu
                == old(self).cpu,
    {
        let ghost b0 = views(old(self).backlog@);
        let ghost time = old(self).system_state.time;
        let ghost q0 = old(self).cpu.queue_spec();
        let ghost mut j: int = 0;
        proof {
            assert(views(self.backlog@) =~= b0.skip(0));
            assert(self.cpu.queue_spec() =~= q0 + b0.take(0));
        }
        while self.backlog.len() > 0 && self.backlog[0].arrival <= self.system_state.time
            invariant
                self.wf(),
                self.system_state == old(self).system_state,
                self.system_state.time == time,
                self.io == old(self).io,
                self.finished == old(self).finished,
                0 <= j <= b0.len(),
                views(self.backlog@) == b0.skip(j),
                self.cpu.queue_spec() == q0 + b0.take(j),
                self.cpu.kind_spec() == old(self).cpu.kind_spec(),
                j + n_admit(views(self.backlog@), time) == n_admit(b0, time),
                j == 0 ==> self.cpu == old(self).cpu,
                forall|k: int| 0 <= k < j ==> b0[k].arrival <= time,
            decreases self.backlog@.len(),
        {
            let ghost bpre = views(self.backlog@);
            proof {
                assert(self.backlog@[0].arrival <= self.system_state.time);
                assert(self.system_state.time == time);
            }
            let p = self.backlog.remove(0);
            proof {
                assert(p@ == bpre[0]);
                assert(views(self.backlog@) =~= bpre.drop_first());
                assert(bpre.drop_first() =~= b0.skip(j + 1));
                assert(bpre.len() > 0);
                assert(p.arrival <= time);
                assert(bpre[0].arrival == p@.arrival);
                assert(bpre[0].arrival <= time);
                assert(n_admit(bpre, time) == 1 + n_admit(bpre.drop_first(), time));
                assert(q0 + b0.take(j + 1) =~= (q0 + b0.take(j)).push(b0[j]));
                assert(forall|k: int|
                    0 <= k < views(self.backlog@).len() ==> (#[trigger] views(self.backlog@)[k])
                        == bpre[k + 1]);
            }
            self.cpu.enqueue(p);
            proof {
                j = j + 1;
            }
        }
        proof {
            assert(n_admit(views(self.backlog@), time) == 0);
            assert(j == n_admit(b0, time));
        }
    }

    /// The first half of one iteration: admit newly arrived processes into
    /// the CPU policy, tick it, retire a process whose last burst completed,
    /// and collect a completed-but-unfinished process as a pending hand-off.
    /// The hand-off is not enqueued yet: that happens only after both ticks
    /// of the time unit.
    fn cpu_phase(&mut self) -> (r: (SchedulerResult, Option<Process>, Option<Process>))
        requires
            old(self).wf(),
        ensures
            final(self).wf(),
            final(self).system_state == old(self).system_state,
            final(self).io == old(self).io,
            views(final(self).backlog@) == views(old(self).backlog@).skip(
                n_admit(views(old(self).backlog@), old(self).system_state.time),
            ),
            old(self).finished@.is_prefix_of(final(self).finished@),
            views(final(self).finished@) == views(old(self).finished@) + finished_of(r.0),
            !(r.0 matches SchedulerResult::WrongKind),
            r.0 matches SchedulerResult::NoBurstLeft ==> old(self).cpu.queue_spec().len() == 0
                && n_admit(views(old(self).backlog@), old(self).system_state.time) == 0,
            r.0 matches SchedulerResult::Finished(p) ==> (p@.burst.len() > 0 ==> (p@.burst[0].0
                == BurstKind::Io && (r.2 matches Some(q) && q@ == p@))),
            r.1 is None,
            r.2 is Some ==> (r.0 matches SchedulerResult::Finished(p) && p@.burst.len() > 0),
            pending_ok(r.1, BurstKind::Cpu),
            pending_ok(r.2, BurstKind::Io),
            final(self).owned_pids().add(pid_of_pending(r.1)).add(pid_of_pending(r.2)) == old(
                self,
            ).owned_pids(),
            n_admit(views(old(self).backlog@), old(self).system_state.time) == 0
                ==> tick_transition(
                old(self).cpu.queue_spec(),
                final(self).cpu.queue_spec(),
                BurstKind::Cpu,
                old(self).cpu.selected(old(self).system_state.time),
                old(self).cpu.idle_result(),
                r.0,
            ),
            work_of(views(final(self).backlog@)) + work_of(final(self).cpu.queue_spec())
                + handed_work(r.0) == work_of(views(old(self).backlog@)) + work_of(
                old(self).cpu.queue_spec(),
            ) - tick_work_delta(r.0),
            r.2 matches Some(p) ==> p@.arrival <= old(self).system_state.time,
            (forall|i: int|
                0 <= i < old(self).cpu.queue_spec().len()
                    ==> (#[trigger] old(self).cpu.queue_spec()[i]).arrival <= old(
                    self,
                ).system_state.time) ==> ({
                &&& (old(self).cpu.queue_spec().len() + n_admit(
                    views(old(self).backlog@),
                    old(self).system_state.time,
                ) > 0 ==> tick_work_delta(r.0) == 1)
                &&& (forall|i: int|
                    0 <= i < final(self).cpu.queue_spec().len()
                        ==> (#[trigger] final(self).cpu.queue_spec()[i]).arrival <= old(
                        self,
                    ).system_state.time)
            }),
    {
        let ghost time0 = old(self).system_state.time;
        let ghost m0 = old(self).owned_pids();
        let ghost fin0 = self.finished@;
        self.admit_arrivals();
        proof {
            let b = views(old(self).backlog@);
            let n = n_admit(b, time0);
            lemma_n_admit_bounds(b, time0);
            lemma_n_admit_arrived(b, time0);
            assert(b =~= b.take(n) + b.skip(n));
            lemma_pids_concat(b.take(n), b.skip(n));
            lemma_pids_concat(old(self).cpu.queue_spec(), b.take(n));
            lemma_work_concat(b.take(n), b.skip(n));
            lemma_work_concat(old(self).cpu.queue_spec(), b.take(n));
            assert(self.owned_pids() =~= m0);
            lemma_routed_queue_wf(self.cpu.queue_spec(), BurstKind::Cpu);
        }
        let ghost mid_cpu = self.cpu;
        let cpu_r = self.cpu.tick(&self.system_state);
        proof {
            lemma_tick_preserves_routed(
                mid_cpu.queue_spec(),
                self.cpu.queue_spec(),
                BurstKind::Cpu,
                mid_cpu.selected(time0),
                mid_cpu.idle_result(),
                cpu_r,
            );
            mid_cpu.lemma_idle_result();
            mid_cpu.lemma_selected_arrived(time0);
            lemma_tick_work(
                mid_cpu.queue_spec(),
                self.cpu.queue_spec(),
                BurstKind::Cpu,
                mid_cpu.selected(time0),
                mid_cpu.idle_result(),
                cpu_r,
            );
            if forall|i: int|
                0 <= i < old(self).cpu.queue_spec().len()
                    ==> (#[trigger] old(self).cpu.queue_spec()[i]).arrival <= time0 {
                let b = views(old(self).backlog@);
                let n = n_admit(b, time0);
                assert forall|i: int|
                    0 <= i < mid_cpu.queue_spec().len() implies (
                #[trigger] mid_cpu.queue_spec()[i]).arrival <= time0 by {
                    if i < old(self).cpu.queue_spec().len() {
                        assert(mid_cpu.queue_spec()[i] == old(self).cpu.queue_spec()[i]);
                    } else {
                        assert(mid_cpu.queue_spec()[i] == b.take(n)[
                            i - old(self).cpu.queue_spec().len()]);
                    }
                }
                mid_cpu.lemma_selects_ready(time0);
                lemma_tick_preserves_arrived(
                    mid_cpu.queue_spec(),
                    self.cpu.queue_spec(),
                    BurstKind::Cpu,
                    mid_cpu.selected(time0),
                    mid_cpu.idle_result(),
                    cpu_r,
                    time0,
                );
            }
        }
        let mut to_cpu: Option<Process> = None;
        let mut to_io: Option<Process> = None;
        let te_cpu: SchedulerResult = match cpu_r {
            SchedulerResult::Finished(p) => {
                proof {
                    match mid_cpu.selected(time0) {
                        Option::Some(i) => {
                            crate::process::lemma_pop_front_wf(mid_cpu.queue_spec()[i]);
                            lemma_pids_remove(mid_cpu.queue_spec(), i);
                        },
                        Option::None => {
                            mid_cpu.lemma_idle_result();
                            assert(false);
                        },
                    }
                    assert(p@.wf() && (p@.burst.len() > 0 ==> p@.burst[0].0 == BurstKind::Io));
                }
                let c = p.clone();
                if p.burst.len() == 0 {
                    proof {
                        lemma_views_push(self.finished@, p);
                        lemma_pids_push(views(self.finished@), p@);
                    }
                    self.finished.push(p);
                    proof {
                        assert(views(self.finished@) =~= views(fin0) + finished_of(
                            SchedulerResult::Finished(c),
                        ));
                        assert(self.owned_pids() =~= m0);
                    }
                } else {
                    let k = p.burst[0].0;
                    if k == BurstKind::Cpu {
                        to_cpu = Some(p);
                    } else {
                        to_io = Some(p);
                    }
                    proof {
                        assert(views(self.finished@) =~= views(fin0) + finished_of(
                            SchedulerResult::Finished(c),
                        ));
                        assert(self.owned_pids().add(pid_of_pending(to_cpu)).add(
                            pid_of_pending(to_io),
                        ) =~= m0);
                    }
                }
                SchedulerResult::Finished(c)
            },
            SchedulerResult::Processing(p) => {
                proof {
                    match mid_cpu.selected(time0) {
                        Option::Some(i) => {
                            lemma_pids_update_same(
                                mid_cpu.queue_spec(),
                                i,
                                mid_cpu.queue_spec()[i].dec_front(),
                            );
                        },
                        Option::None => {
                            mid_cpu.lemma_idle_result();
                            assert(false);
                        },
                    }
                    assert(self.owned_pids() =~= m0);
                }
                SchedulerResult::Processing(p)
            },
            SchedulerResult::Idle => SchedulerResult::Idle,
            SchedulerResult::NoBurstLeft => {
                proof {
                    match mid_cpu.selected(time0) {
                        Option::Some(i) => {
                            assert(false);
                        },
                        Option::None => {
                            mid_cpu.lemma_idle_result();
                            assert(mid_cpu.queue_spec().len() == 0);
                        },
                    }
                }
                SchedulerResult::NoBurstLeft
            },
            SchedulerResult::WrongKind => {
                proof {
                    match mid_cpu.selected(time0) {
                        Option::Some(i) => {
                            assert(false);
                        },
                        Option::None => {
                            mid_cpu.lemma_idle_result();
                            assert(false);
                        },
                    }
                }
                vstd::pervasive::unreached()
            },
        };
        proof {
            assert(self.owned_pids().add(pid_of_pending(to_cpu)).add(pid_of_pending(to_io))
                =~= m0);
            assert(fin0.is_prefix_of(self.finished@)) by {
                assert(fin0 =~= self.finished@.subrange(0, fin0.len() as int));
            }
        }
        (te_cpu, to_cpu, to_io)
    }

    /// The second half of one iteration: tick the IO policy and route its
    /// result, without touching the CPU policy or the backlog.
    fn io_phase(&mut self) -> (r: (SchedulerResult, Option<Process>, Option<Process>))
        requires
            old(self).wf(),
        ensures
            final(self).wf(),
            final(self).system_state == old(self).system_state,
            final(self).cpu == old(self).cpu,
            final(self).backlog == old(self).backlog,
            old(self).finished@.is_prefix_of(final(self).finished@),
            views(final(self).finished@) == views(old(self).finished@) + finished_of(r.0),
            !(r.0 matches SchedulerResult::WrongKind),
            r.0 matches SchedulerResult::NoBurstLeft ==> old(self).io.queue_spec().len() == 0,
            r.0 matches SchedulerResult::Finished(p) ==> (p@.burst.len() > 0 ==> (p@.burst[0].0
                == BurstKind::Cpu && (r.1 matches Some(q) && q@ == p@))),
            r.2 is None,
            r.1 is Some ==> (r.0 matches SchedulerResult::Finished(p) && p@.burst.len() > 0),
            pending_ok(r.1, BurstKind::Cpu),
            pending_ok(r.2, BurstKind::Io),
            final(self).owned_pids().add(pid_of_pending(r.1)).add(pid_of_pending(r.2)) == old(
                self,
            ).owned_pids(),
            tick_transition(
                old(self).io.queue_spec(),
                final(self).io.queue_spec(),
                BurstKind::Io,
                old(self).io.selected(old(self).system_state.time),
                old(self).io.idle_result(),
                r.0,
            ),
            work_of(final(self).io.queue_spec()) + handed_work(r.0) == work_of(
                old(self).io.queue_spec(),
            ) - tick_work_delta(r.0),
            r.1 matches Some(p) ==> p@.arrival <= old(self).system_state.time,
            (forall|i: int|
                0 <= i < old(self).io.queue_spec().len()
                    ==> (#[trigger] old(self).io.queue_spec()[i]).arrival <= old(
                    self,
                ).system_state.time) ==> ({
                &&& (old(self).io.queue_spec().len() > 0 ==> tick_work_delta(r.0) == 1)
                &&& (forall|i: int|
                    0 <= i < final(self).io.queue_spec().len()
                        ==> (#[trigger] final(self).io.queue_spec()[i]).arrival <= old(
                        self,
                    ).system_state.time)
            }),
    {
        let ghost time0 = old(self).system_state.time;
        let ghost m0 = old(self).owned_pids();
        let ghost fin0 = self.finished@;
        proof {
            lemma_routed_queue_wf(self.io.queue_spec(), BurstKind::Io);
        }
        let ghost mid_io = self.io;
        let io_r = self.io.tick(&self.system_state);
        proof {
            lemma_tick_preserves_routed(
                mid_io.queue_spec(),
                self.io.queue_spec(),
                BurstKind::Io,
                mid_io.selected(time0),
                mid_io.idle_result(),
                io_r,
            );
            mid_io.lemma_idle_result();
            mid_io.lemma_selected_arrived(time0);
            lemma_tick_work(
                mid_io.queue_spec(),
                self.io.queue_spec(),
                BurstKind::Io,
                mid_io.selected(time0),
                mid_io.idle_result(),
                io_r,
            );
            if forall|i: int|
                0 <= i < mid_io.queue_spec().len() ==> (#[trigger] mid_io.queue_spec()[i]).arrival
                    <= time0 {
                mid_io.lemma_selects_ready(time0);
                lemma_tick_preserves_arrived(
                    mid_io.queue_spec(),
                    self.io.queue_spec(),
                    BurstKind::Io,
                    mid_io.selected(time0),
                    mid_io.idle_result(),
                    io_r,
                    time0,
                );
            }
        }
        let mut to_cpu: Option<Process> = None;
        let mut to_io: Option<Process> = None;
        let te_io: SchedulerResult = match io_r {
            SchedulerResult::Finished(p) => {
                proof {
                    match mid_io.selected(time0) {
                        Option::Some(i) => {
                            crate::process::lemma_pop_front_wf(mid_io.queue_spec()[i]);
                            lemma_pids_remove(mid_io.queue_spec(), i);
                        },
                        Option::None => {
                            mid_io.lemma_idle_result();
                            assert(false);
                        },
                    }
                    assert(p@.wf() && (p@.burst.len() > 0 ==> p@.burst[0].0 == BurstKind::Cpu));
                }
                let c = p.clone();
                if p.burst.len() == 0 {
                    proof {
                        lemma_views_push(self.finished@, p);
                        lemma_pids_push(views(self.finished@), p@);
                    }
                    self.finished.push(p);
                    proof {
                        assert(views(self.finished@) =~= views(fin0) + finished_of(
                            SchedulerResult::Finished(c),
                        ));
                        assert(self.owned_pids() =~= m0);
                    }
                } else {
                    let k = p.burst[0].0;
                    if k == BurstKind::Cpu {
                        to_cpu = Some(p);
                    } else {
                        to_io = Some(p);
                    }
                    proof {
                        assert(views(self.finished@) =~= views(fin0) + finished_of(
                            SchedulerResult::Finished(c),
                        ));
                        assert(self.owned_pids().add(pid_of_pending(to_cpu)).add(
                            pid_of_pending(to_io),
                        ) =~= m0);
                    }
                }
                SchedulerResult::Finished(c)
            },
            SchedulerResult::Processing(p) => {
                proof {
                    match mid_io.selected(time0) {
                        Option::Some(i) => {
                            lemma_pids_update_same(
                                mid_io.queue_spec(),
                                i,
                                mid_io.queue_spec()[i].dec_front(),
                            );
                        },
                        Option::None => {
                            mid_io.lemma_idle_result();
                            assert(false);
                        },
                    }
                    assert(self.owned_pids() =~= m0);
                }
                SchedulerResult::Processing(p)
            },
            SchedulerResult::Idle => SchedulerResult::Idle,
            SchedulerResult::NoBurstLeft => {
                proof {
                    match mid_io.selected(time0) {
                        Option::Some(i) => {
                            assert(false);
                        },
                        Option::None => {
                            mid_io.lemma_idle_result();
                            assert(mid_io.queue_spec().len() == 0);
                        },
                    }
                }
                SchedulerResult::NoBurstLeft
            },
            SchedulerResult::WrongKind => {
                proof {
                    match mid_io.selected(time0) {
                        Option::Some(i) => {
                            assert(false);
                        },
                        Option::None => {
                            mid_io.lemma_idle_result();
                            assert(false);
                        },
                    }
                }
                vstd::pervasive::unreached()
            },
        };
        proof {
            assert(self.owned_pids().add(pid_of_pending(to_cpu)).add(pid_of_pending(to_io))
                =~= m0);
            assert(fin0.is_prefix_of(self.finished@)) by {
                assert(fin0 =~= self.finished@.subrange(0, fin0.len() as int));
            }
        }
        (te_io, to_cpu, to_io)
    }

    /// Enqueue the pending hand-offs collected by the two phases — the
    /// CPU-bound ones first, then the IO-bound ones, each in the order the
    /// tick results were produced — so that no process is ticked twice in the
    /// same time unit.
    fn apply_handoffs(
        &mut self,
        cpu_first: Option<Process>,
        cpu_second: Option<Process>,
        io_first: Option<Process>,
        io_second: Option<Process>,
    )
        requires
            old(self).wf(),
            pending_ok(cpu_first, BurstKind::Cpu),
            pending_ok(cpu_second, BurstKind::Cpu),
            pending_ok(io_first, BurstKind::Io),
            pending_ok(io_second, BurstKind::Io),
        ensures
            final(self).wf(),
            final(self).system_state == old(self).system_state,
            final(self).backlog == old(self).backlog,
            final(self).finished == old(self).finished,
            cpu_first matches Some(p) ==> final(self).cpu.queue_spec().contains(p@),
            cpu_second matches Some(p) ==> final(self).cpu.queue_spec().contains(p@),
            io_first matches Some(p) ==> final(self).io.queue_spec().contains(p@),
            io_second matches Some(p) ==> final(self).io.queue_spec().contains(p@),
            final(self).cpu.queue_spec() == old(self).cpu.queue_spec() + view_of_pending(cpu_first)
                + view_of_pending(cpu_second),
            final(self).io.queue_spec() == old(self).io.queue_spec() + view_of_pending(io_first)
                + view_of_pending(io_second),
            work_of(final(self).cpu.queue_spec()) == work_of(old(self).cpu.queue_spec())
                + work_of_pending(cpu_first) + work_of_pending(cpu_second),
            work_of(final(self).io.queue_spec()) == work_of(old(self).io.queue_spec())
                + work_of_pending(io_first) + work_of_pending(io_second),
            final(self).owned_pids() == old(self).owned_pids().add(
                pid_of_pending(cpu_first),
            ).add(pid_of_pending(cpu_second)).add(pid_of_pending(io_first)).add(
                pid_of_pending(io_second),
            ),
    {
        let ghost m_start = old(self).owned_pids();
        let ghost g_c1 = cpu_first;
        let ghost g_c2 = cpu_second;
        let ghost g_i1 = io_first;
        let ghost g_i2 = io_second;
        if let Some(p) = cpu_first {
            proof {
                lemma_routed_push(self.cpu.queue_spec(), BurstKind::Cpu, p@);
                lemma_pids_push(self.cpu.queue_spec(), p@);
                lemma_work_push(self.cpu.queue_spec(), p@);
            }
            self.cpu.enqueue(p);
            proof {
                assert(self.cpu.queue_spec().last() == p@);
            }
        }
        proof {
            assert(self.owned_pids() =~= m_start.add(pid_of_pending(g_c1)));
            assert(self.cpu.queue_spec() =~= old(self).cpu.queue_spec() + view_of_pending(g_c1));
        }
        let ghost qc = self.cpu.queue_spec();
        if let Some(p) = cpu_second {
            proof {
                lemma_routed_push(self.cpu.queue_spec(), BurstKind::Cpu, p@);
                lemma_pids_push(self.cpu.queue_spec(), p@);
                lemma_work_push(self.cpu.queue_spec(), p@);
            }
            self.cpu.enqueue(p);
            proof {
                assert(self.cpu.queue_spec().last() == p@);
            }
        }
        proof {
            assert(self.owned_pids() =~= m_start.add(pid_of_pending(g_c1)).add(
                pid_of_pending(g_c2),
            ));
            assert(self.cpu.queue_spec() =~= old(self).cpu.queue_spec() + view_of_pending(g_c1)
                + view_of_pending(g_c2));
            match g_c1 {
                Option::Some(p) => {
                    assert(self.cpu.queue_spec().contains(p@)) by {
                        assert(self.cpu.queue_spec()[qc.len() - 1] == p@);
                    }
                },
                Option::None => {},
            }
        }
        if let Some(p) = io_first {
            proof {
                lemma_routed_push(self.io.queue_spec(), BurstKind::Io, p@);
                lemma_pids_push(self.io.queue_spec(), p@);
                lemma_work_push(self.io.queue_spec(), p@);
            }
            self.io.enqueue(p);
            proof {
                assert(self.io.queue_spec().last() == p@);
            }
        }
        proof {
            assert(self.owned_pids() =~= m_start.add(pid_of_pending(g_c1)).add(
                pid_of_pending(g_c2),
            ).add(pid_of_pending(g_i1)));
            assert(self.io.queue_spec() =~= old(self).io.queue_spec() + view_of_pending(g_i1));
        }
        let ghost qi = self.io.queue_spec();
        if let Some(p) = io_second {
            proof {
                lemma_routed_push(self.io.queue_spec(), BurstKind::Io, p@);
                lemma_pids_push(self.io.queue_spec(), p@);
                lemma_work_push(self.io.queue_spec(), p@);
            }
            self.io.enqueue(p);
            proof {
                assert(self.io.queue_spec().last() == p@);
            }
        }
        proof {
            assert(self.owned_pids() =~= m_start.add(pid_of_pending(g_c1)).add(
                pid_of_pending(g_c2),
            ).add(pid_of_pending(g_i1)).add(pid_of_pending(g_i2)));
            assert(self.io.queue_spec() =~= old(self).io.queue_spec() + view_of_pending(g_i1)
                + view_of_pending(g_i2));
            match g_i1 {
                Option::Some(p) => {
                    assert(self.io.queue_spec().contains(p@)) by {
                        assert(self.io.queue_spec()[qi.len() - 1] == p@);
                    }
                },
                Option::None => {},
            }
        }
    }

    /// One driver iteration: admit arrivals into the CPU policy, tick the CPU
    /// policy and then the IO policy, route each completed process to the
    /// resource its next burst demands (or retire it), advance the clock by
    /// exactly one, and hand back this tick's snapshot.
    ///
    /// A `WrongKind` result, or a `NoBurstLeft` from a non-empty queue, would
    /// be a wiring defect; under the driver's invariant both are proved
    /// impossible, so nothing needs to be aborted.
    pub fn step(&mut self) -> (te: TickEntry)
        requires
            old(self).wf(),
            old(self).system_state.time < i32::MAX,
        ensures
            final(self).wf(),
            final(self).system_state.time == old(self).system_state.time + 1,
            views(final(self).backlog@) == views(old(self).backlog@).skip(
                n_admit(views(old(self).backlog@), old(self).system_state.time),
            ),
            old(self).finished@.is_prefix_of(final(self).finished@),
            views(final(self).finished@) == views(old(self).finished@) + finished_of(
                te.cpu_process,
            ) + finished_of(te.io_process),
            !(te.cpu_process matches SchedulerResult::WrongKind),
            !(te.io_process matches SchedulerResult::WrongKind),
            te.cpu_process matches SchedulerResult::NoBurstLeft ==> old(self).cpu.queue_spec().len()
                == 0 && n_admit(views(old(self).backlog@), old(self).system_state.time) == 0,
            te.io_process matches SchedulerResult::NoBurstLeft ==> old(self).io.queue_spec().len()
                == 0,
            te.cpu_process matches SchedulerResult::Finished(p) ==> (p@.burst.len() > 0
                ==> p@.burst[0].0 == BurstKind::Io && final(self).io.queue_spec().contains(p@)),
            te.io_process matches SchedulerResult::Finished(p) ==> (p@.burst.len() > 0
                ==> p@.burst[0].0 == BurstKind::Cpu && final(self).cpu.queue_spec().contains(p@)),
            views(te.cpu_queue@) == final(self).cpu.queue_spec(),
            views(te.io_queue@) == final(self).io.queue_spec(),
            views(te.finished_processes@) == views(final(self).finished@),
            views(te.yet_to_arrive@) == views(final(self).backlog@),
            final(self).owned_pids() == old(self).owned_pids(),
            // the IO result really is one tick of the IO policy as it stood,
            // and the IO queue afterwards is that tick's queue plus the
            // process the CPU handed over
            ({
                let handed = handed_off(te.cpu_process);
                let post = final(self).io.queue_spec().take(
                    final(self).io.queue_spec().len() - handed.len(),
                );
                &&& final(self).io.queue_spec() == post + handed
                &&& tick_transition(
                    old(self).io.queue_spec(),
                    post,
                    BurstKind::Io,
                    old(self).io.selected(old(self).system_state.time),
                    old(self).io.idle_result(),
                    te.io_process,
                )
            }),
            // and likewise for the CPU whenever this tick admitted nothing
            n_admit(views(old(self).backlog@), old(self).system_state.time) == 0 ==> ({
                let handed = handed_off(te.io_process);
                let post = final(self).cpu.queue_spec().take(
                    final(self).cpu.queue_spec().len() - handed.len(),
                );
                &&& final(self).cpu.queue_spec() == post + handed
                &&& tick_transition(
                    old(self).cpu.queue_spec(),
                    post,
                    BurstKind::Cpu,
                    old(self).cpu.selected(old(self).system_state.time),
                    old(self).cpu.idle_result(),
                    te.cpu_process,
                )
            }),
            // each tick that charged a process consumed exactly one unit of
            // the remaining demand; nothing else changes the total
            final(self).total_work() + tick_work_delta(te.cpu_process) + tick_work_delta(
                te.io_process,
            ) == old(self).total_work(),
            // progress: while arrived work is queued, some of it gets done
            old(self).queues_arrived() && (old(self).cpu.queue_spec().len() > 0 || old(
                self,
            ).io.queue_spec().len() > 0 || n_admit(
                views(old(self).backlog@),
                old(self).system_state.time,
            ) > 0) ==> tick_work_delta(te.cpu_process) + tick_work_delta(te.io_process) >= 1,
            old(self).queues_arrived() ==> final(self).queues_arrived(),
            // a finished simulation stays finished, and an unfinished one has
            // strictly fewer steps left: with enough fuel, every run completes
            old(self).is_terminal() ==> final(self).is_terminal(),
            old(self).queues_arrived() && !old(self).is_terminal() ==> final(self).steps_bound()
                < old(self).steps_bound(),
    {
        let ghost time0 = old(self).system_state.time;
        let ghost m0 = old(self).owned_pids();
        let ghost w0 = old(self).total_work();
        let ghost fin0 = self.finished@;
        let (te_cpu, cpu_to_cpu, cpu_to_io) = self.cpu_phase();
        let ghost o1 = self.owned_pids();
        let (te_io, io_to_cpu, io_to_io) = self.io_phase();
        let ghost o2 = self.owned_pids();
        let ghost cpu_mid_q = self.cpu.queue_spec();
        let ghost io_mid_q = self.io.queue_spec();
        let ghost g_cc = cpu_to_cpu;
        let ghost g_cio = cpu_to_io;
        let ghost g_ic = io_to_cpu;
        let ghost g_iio = io_to_io;
        proof {
            assert(views(self.finished@) =~= views(fin0) + finished_of(te_cpu) + finished_of(
                te_io,
            ));
        }
        self.apply_handoffs(cpu_to_cpu, io_to_cpu, cpu_to_io, io_to_io);
        proof {
            assert(view_of_pending(g_cc) =~= Seq::<ProcView>::empty());
            assert(view_of_pending(g_iio) =~= Seq::<ProcView>::empty());
            assert(view_of_pending(g_cio) =~= handed_off(te_cpu));
            assert(view_of_pending(g_ic) =~= handed_off(te_io));
            assert(self.io.queue_spec() =~= io_mid_q + handed_off(te_cpu));
            assert(io_mid_q =~= self.io.queue_spec().take(
                self.io.queue_spec().len() - handed_off(te_cpu).len(),
            ));
            assert(self.cpu.queue_spec() =~= cpu_mid_q + handed_off(te_io));
            assert(cpu_mid_q =~= self.cpu.queue_spec().take(
                self.cpu.queue_spec().len() - handed_off(te_io).len(),
            ));
            assert(work_of_pending(g_cc) == 0);
            assert(work_of_pending(g_iio) == 0);
            assert(work_of_pending(g_cio) == handed_work(te_cpu));
            assert(work_of_pending(g_ic) == handed_work(te_io));
            assert(self.total_work() + tick_work_delta(te_cpu) + tick_work_delta(te_io) == w0);
            lemma_n_admit_bounds(views(old(self).backlog@), time0);
            if old(self).queues_arrived() {
                assert(forall|i: int|
                    0 <= i < old(self).cpu.queue_spec().len() ==> (#[trigger] old(
                        self,
                    ).cpu.queue_spec()[i]).arrival <= time0);
                assert(forall|i: int|
                    0 <= i < old(self).io.queue_spec().len() ==> (#[trigger] old(
                        self,
                    ).io.queue_spec()[i]).arrival <= time0);
                if old(self).cpu.queue_spec().len() + n_admit(views(old(self).backlog@), time0)
                    > 0 {
                    assert(tick_work_delta(te_cpu) == 1);
                }
                if old(self).io.queue_spec().len() > 0 {
                    assert(tick_work_delta(te_io) == 1);
                }
            }
            assert(self.owned_pids() =~= m0) by {
                assert(o1.add(pid_of_pending(g_cc)).add(pid_of_pending(g_cio)) == m0);
                assert(o2.add(pid_of_pending(g_ic)).add(pid_of_pending(g_iio)) == o1);
                assert(self.owned_pids() == o2.add(pid_of_pending(g_cc)).add(
                    pid_of_pending(g_ic),
                ).add(pid_of_pending(g_cio)).add(pid_of_pending(g_iio)));
            }
        }
        let te = TickEntry {
            cpu_process: te_cpu,
            io_process: te_io,
            cpu_queue: self.cpu.get_queue(),
            io_queue: self.io.get_queue(),
            finished_processes: clone_queue(&self.finished),
            yet_to_arrive: clone_queue(&self.backlog),
        };
        self.system_state.advance();
        proof {
            assert(fin0.is_prefix_of(self.finished@)) by {
                assert(fin0 =~= self.finished@.subrange(0, fin0.len() as int));
            }
            let b0v = views(old(self).backlog@);
            let n = n_admit(b0v, time0);
            assert(views(self.backlog@) == b0v.skip(n));
            if old(self).is_terminal() {
                assert(n == 0);
                old(self).cpu.lemma_selected_arrived(time0);
                old(self).cpu.lemma_idle_result();
                old(self).io.lemma_selected_arrived(time0);
                old(self).io.lemma_idle_result();
                assert(old(self).cpu.selected(time0) is None);
                assert(old(self).io.selected(time0) is None);
                assert(handed_off(te_cpu) =~= Seq::<ProcView>::empty());
                assert(handed_off(te_io) =~= Seq::<ProcView>::empty());
                assert(self.cpu.queue_spec().len() == 0);
                assert(self.io.queue_spec().len() == 0);
                assert(self.backlog@.len() == 0);
            }
            if old(self).queues_arrived() && !old(self).is_terminal() {
                if old(self).cpu.queue_spec().len() > 0 || old(self).io.queue_spec().len() > 0
                    || n > 0 {
                    assert(tick_work_delta(te_cpu) + tick_work_delta(te_io) >= 1);
                    if self.backlog@.len() > 0 {
                        assert(views(self.backlog@).last() == b0v.last()) by {
                            assert(views(self.backlog@)[views(self.backlog@).len() - 1]
                                == b0v.skip(n)[b0v.len() - n - 1]);
                            assert(b0v.skip(n)[b0v.len() - n - 1] == b0v[b0v.len() - 1]);
                        }
                    }
                    assert(self.steps_bound() < old(self).steps_bound());
                } else {
                    // no work was ready: the idle gap to the next arrival shrank
                    assert(b0v.len() > 0);
                    lemma_n_admit_bounds(b0v.drop_first(), time0);
                    assert(b0v[0].arrival > time0);
                    assert(b0v.last().arrival >= b0v[0].arrival);
                    old(self).cpu.lemma_selected_arrived(time0);
                    old(self).cpu.lemma_idle_result();
                    old(self).io.lemma_selected_arrived(time0);
                    old(self).io.lemma_idle_result();
                    assert(tick_work_delta(te_cpu) == 0);
                    assert(tick_work_delta(te_io) == 0);
                    assert(views(self.backlog@) == b0v);
                    assert(self.steps_bound() == old(self).steps_bound() - 1);
                }
            }
            if old(self).queues_arrived() {
                assert forall|i: int|
                    0 <= i < self.cpu.queue_spec().len() implies (
                #[trigger] self.cpu.queue_spec()[i]).arrival <= self.system_state.time by {
                    if i < cpu_mid_q.len() {
                        assert(self.cpu.queue_spec()[i] == cpu_mid_q[i]);
                        assert(cpu_mid_q[i].arrival <= time0);
                    } else {
                        assert(self.cpu.queue_spec()[i] == handed_off(te_io)[i - cpu_mid_q.len()]);
                        match g_ic {
                            Option::Some(p) => {
                                assert(handed_off(te_io)[0] == p@);
                                assert(p@.arrival <= time0);
                            },
                            Option::None => {
                                assert(false);
                            },
                        }
                    }
                }
                assert forall|i: int|
                    0 <= i < self.io.queue_spec().len() implies (
                #[trigger] self.io.queue_spec()[i]).arrival <= self.system_state.time by {
                    if i < io_mid_q.len() {
                        assert(self.io.queue_spec()[i] == io_mid_q[i]);
                        assert(io_mid_q[i].arrival <= time0);
                    } else {
                        assert(self.io.queue_spec()[i] == handed_off(te_cpu)[i - io_mid_q.len()]);
                        match g_cio {
                            Option::Some(p) => {
                                assert(handed_off(te_cpu)[0] == p@);
                                assert(p@.arrival <= time0);
                            },
                            Option::None => {
                                assert(false);
                            },
                        }
                    }
                }
            }
        }
        te
    }

    /// Run the simulation until the terminal condition — backlog and both
    /// queues empty — recording one snapshot per tick, for at most
    /// `max_ticks` ticks. One tick always runs before the terminal condition
    /// is first checked. A log shorter than `max_ticks` means the simulation
    /// ran to completion, with every admitted process retired to the finished
    /// list.
    pub fn run(&mut self, max_ticks: usize) -> (log: Vec<TickEntry>)
        requires
            old(self).wf(),
            old(self).system_state.time as int + max_ticks as int <= i32::MAX as int,
        ensures
            final(self).wf(),
            log@.len() <= max_ticks,
            final(self).system_state.time == old(self).system_state.time + log@.len(),
            log@.len() < max_ticks ==> final(self).is_terminal(),
            final(self).owned_pids() == old(self).owned_pids(),
            log@.len() < max_ticks ==> pids_of(views(final(self).finished@)) == old(
                self,
            ).owned_pids(),
            old(self).queues_arrived() ==> final(self).queues_arrived(),
            // termination: enough fuel always reaches the terminal state
            old(self).queues_arrived() && old(self).steps_bound() < max_ticks ==> final(self).is_terminal(),
    {
        let mut log: Vec<TickEntry> = Vec::new();
        let mut done = false;
        let mut t: usize = 0;
        while t < max_ticks && !done
            invariant
                self.wf(),
                t <= max_ticks,
                log@.len() == t as int,
                self.system_state.time == old(self).system_state.time + t as int,
                self.system_state.time as int + (max_ticks - t) as int <= i32::MAX as int,
                self.owned_pids() == old(self).owned_pids(),
                done ==> self.is_terminal(),
                old(self).queues_arrived() ==> self.queues_arrived(),
                old(self).queues_arrived() ==> ((self.steps_bound() + t <= old(
                    self,
                ).steps_bound()) || (done && self.is_terminal())),
            decreases max_ticks - t,
        {
            let ghost pre = *self;
            let te = self.step();
            log.push(te);
            t = t + 1;
            let cq = self.cpu.get_queue();
            let iq = self.io.get_queue();
            done = self.backlog.len() == 0 && cq.len() == 0 && iq.len() == 0;
            proof {
                assert(views(cq@).len() == cq@.len());
                assert(views(iq@).len() == iq@.len());
                assert(done == self.is_terminal());
                if old(self).queues_arrived() && pre.is_terminal() {
                    assert(self.is_terminal());
                }
            }
        }
        proof {
            if old(self).queues_arrived() && old(self).steps_bound() < max_ticks && !done {
                self.lemma_steps_bound_nonneg();
                assert(false);
            }
        }
        proof {
            // a completed run has retired every admitted process
            if self.is_terminal() {
                lemma_pids_empty(views(self.backlog@));
                lemma_pids_empty(self.cpu.queue_spec());
                lemma_pids_empty(self.io.queue_spec());
                assert(self.owned_pids() =~= pids_of(views(self.finished@)));
            }
        }
        log
    }
}

} // verus!
