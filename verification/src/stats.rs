use vstd::prelude::*;

use crate::process::{sum_bursts, views, Burst, ProcView, Process};
use crate::scheduler::SchedulerResult;
use crate::sim::TickEntry;

verus! {

/// Everything a snapshot knows about, in display order: both queues, the
/// finished list, then the processes yet to arrive.
pub open spec fn all_procs_spec(te: TickEntry) -> Seq<ProcView> {
    views(te.cpu_queue@) + views(te.io_queue@) + views(te.finished_processes@) + views(
        te.yet_to_arrive@,
    )
}

/// The first process with the given pid, if any.
pub open spec fn first_with_pid(s: Seq<ProcView>, pid: i32) -> Option<ProcView>
    decreases s.len(),
{
    if s.len() == 0 {
        Option::None
    } else if s[0].pid == pid {
        Option::Some(s[0])
    } else {
        first_with_pid(s.drop_first(), pid)
    }
}

/// Whether some process in the sequence has the given pid.
pub open spec fn has_pid(s: Seq<ProcView>, pid: i32) -> bool {
    exists|k: int| 0 <= k < s.len() && s[k].pid == pid
}

pub open spec fn in_i32(x: int) -> bool {
    i32::MIN <= x <= i32::MAX
}

/// Every running total of the burst sequence stays within machine range.
pub open spec fn prefix_sums_fit(s: Seq<Burst>) -> bool {
    forall|k: int| 0 <= k <= s.len() ==> in_i32(sum_bursts(#[trigger] s.take(k)))
}

/// The first tick at which the pid shows up in a snapshot's finished list.
pub open spec fn finished_time_spec(entries: Seq<TickEntry>, pid: i32) -> Option<int>
    decreases entries.len(),
{
    if entries.len() == 0 {
        Option::None
    } else if has_pid(views(entries[0].finished_processes@), pid) {
        Option::Some(0)
    } else {
        match finished_time_spec(entries.drop_first(), pid) {
            Option::Some(t) => Option::Some(1 + t),
            Option::None => Option::None,
        }
    }
}

/// A finishing tick, when there is one, is an index into the history.
pub proof fn lemma_finished_time_bounds(entries: Seq<TickEntry>, pid: i32)
    ensures
        match finished_time_spec(entries, pid) {
            Option::Some(t) => 0 <= t < entries.len(),
            Option::None => true,
        },
    decreases entries.len(),
{
    if entries.len() > 0 && !has_pid(views(entries[0].finished_processes@), pid) {
        lemma_finished_time_bounds(entries.drop_first(), pid);
    }
}

/// Time from arrival to completion, minus the process's own total demand:
/// the ticks it spent waiting for either resource.
pub open spec fn wait_time_spec(entries: Seq<TickEntry>, pid: i32) -> Option<int> {
    match (finished_time_spec(entries, pid), first_with_pid(all_procs_spec(entries[0]), pid)) {
        (Option::Some(f), Option::Some(p)) => Option::Some(f - sum_bursts(p.burst) - p.arrival),
        _ => Option::None,
    }
}

/// Time from arrival to completion.
pub open spec fn turn_around_time_spec(entries: Seq<TickEntry>, pid: i32) -> Option<int> {
    match (finished_time_spec(entries, pid), first_with_pid(all_procs_spec(entries[0]), pid)) {
        (Option::Some(f), Option::Some(p)) => Option::Some(f - p.arrival),
        _ => Option::None,
    }
}

/// The processes of the first snapshot whose pid stands in `cur` but not in
/// `prev`, in first-snapshot order: what newly arrived at a queue between two
/// consecutive snapshots.
pub open spec fn arrivals_spec(
    all0: Seq<ProcView>,
    cur: Seq<ProcView>,
    prev: Seq<ProcView>,
) -> Seq<ProcView>
    decreases all0.len(),
{
    if all0.len() == 0 {
        Seq::empty()
    } else {
        let rest = arrivals_spec(all0.drop_last(), cur, prev);
        if has_pid(cur, all0.last().pid) && !has_pid(prev, all0.last().pid) {
            rest.push(all0.last())
        } else {
            rest
        }
    }
}

/// Append clones of every entry of `src` to `dst`, in order.
fn append_clones(dst: &mut Vec<Process>, src: &Vec<Process>)
    ensures
        views(final(dst)@) == views(old(dst)@) + views(src@),
{
    let mut i: usize = 0;
    while i < src.len()
        invariant
            i <= src.len(),
            views(dst@) =~= views(old(dst)@) + views(src@).take(i as int),
        decreases src.len() - i,
    {
        let p = src[i].clone();
        proof {
            crate::process::lemma_views_push(dst@, p);
            assert((views(old(dst)@) + views(src@).take(i as int)).push(src@[i as int]@) =~= views(
                old(dst)@,
            ) + views(src@).take(i + 1));
        }
        dst.push(p);
        i = i + 1;
    }
    proof {
        assert(views(old(dst)@) + views(src@).take(src@.len() as int) =~= views(old(dst)@) + views(
            src@,
        ));
    }
}

/// All processes one snapshot knows about, cloned in display order.
pub fn all_processes(te: &TickEntry) -> (r: Vec<Process>)
    ensures
        views(r@) == all_procs_spec(*te),
{
    let mut r: Vec<Process> = Vec::new();
    proof {
        assert(views(r@) =~= Seq::<ProcView>::empty());
    }
    append_clones(&mut r, &te.cpu_queue);
    append_clones(&mut r, &te.io_queue);
    append_clones(&mut r, &te.finished_processes);
    append_clones(&mut r, &te.yet_to_arrive);
    proof {
        assert(views(r@) =~= all_procs_spec(*te));
    }
    r
}

/// The process a tick result charged work to, if any.
pub fn get_scheduler_process(result: &SchedulerResult) -> (r: Option<Process>)
    ensures
        match result {
            SchedulerResult::Finished(p) => r matches Some(q) && q@ == p@,
            SchedulerResult::Processing(p) => r matches Some(q) && q@ == p@,
            _ => r is None,
        },
{
    match result {
        SchedulerResult::Finished(p) => Some(p.clone()),
        SchedulerResult::Processing(p) => Some(p.clone()),
        _ => None,
    }
}

/// Whether any process in the queue has the given pid.
fn queue_has_pid(q: &Vec<Process>, pid: i32) -> (b: bool)
    ensures
        b == has_pid(views(q@), pid),
{
    let mut i: usize = 0;
    while i < q.len()
        invariant
            i <= q.len(),
            forall|k: int| 0 <= k < i ==> views(q@)[k].pid != pid,
        decreases q.len() - i,
    {
        if q[i].pid == pid {
            proof {
                assert(views(q@)[i as int].pid == pid);
            }
            return true;
        }
        i = i + 1;
    }
    false
}

/// The first process with the given pid, cloned.
fn find_by_pid(q: &Vec<Process>, pid: i32) -> (r: Option<Process>)
    ensures
        match first_with_pid(views(q@), pid) {
            Option::Some(pv) => r matches Some(p) && p@ == pv,
            Option::None => r is None,
        },
{
    let ghost s = views(q@);
    let mut i: usize = 0;
    proof {
        assert(s.skip(0) =~= s);
    }
    while i < q.len()
        invariant
            i <= q.len(),
            s == views(q@),
            first_with_pid(s, pid) == first_with_pid(s.skip(i as int), pid),
        decreases q.len() - i,
    {
        proof {
            assert(s.skip(i as int)[0] == s[i as int]);
        }
        if q[i].pid == pid {
            return Some(q[i].clone());
        }
        proof {
            assert(s.skip(i as int).drop_first() =~= s.skip(i + 1));
        }
        i = i + 1;
    }
    proof {
        assert(s.skip(q@.len() as int).len() == 0);
    }
    None
}

/// The pid's total demand, summed over all of its bursts as the first
/// snapshot knew them — CPU and IO alike. `None` when the pid is unknown.
pub fn total_compute_time(pid: i32, content: &[TickEntry]) -> (r: Option<i32>)
    requires
        content@.len() > 0,
        match first_with_pid(all_procs_spec(content@[0]), pid) {
            Option::Some(p) => prefix_sums_fit(p.burst),
            Option::None => true,
        },
    ensures
        match first_with_pid(all_procs_spec(content@[0]), pid) {
            Option::Some(p) => r == Option::Some(sum_bursts(p.burst) as i32),
            Option::None => r is None,
        },
{
    let procs = all_processes(&content[0]);
    let found = find_by_pid(&procs, pid);
    match found {
        Some(p) => {
            let ghost bs = p.burst@;
            let mut total: i32 = 0;
            let mut i: usize = 0;
            proof {
                assert(bs.take(0) =~= Seq::<Burst>::empty());
            }
            while i < p.burst.len()
                invariant
                    i <= p.burst.len(),
                    bs == p.burst@,
                    prefix_sums_fit(bs),
                    total == sum_bursts(bs.take(i as int)),
                decreases p.burst.len() - i,
            {
                proof {
                    assert(bs.take(i + 1).drop_last() =~= bs.take(i as int));
                    assert(bs.take(i + 1).last() == bs[i as int]);
                    assert(in_i32(sum_bursts(bs.take(i + 1))));
                }
                total = total + p.burst[i].1;
                i = i + 1;
            }
            proof {
                assert(bs.take(bs.len() as int) =~= bs);
            }
            Some(total)
        },
        None => None,
    }
}

/// The arrival tick of the pid, as the first snapshot knew it.
pub fn arrival_time(pid: i32, content: &[TickEntry]) -> (r: Option<i32>)
    requires
        content@.len() > 0,
    ensures
        match first_with_pid(all_procs_spec(content@[0]), pid) {
            Option::Some(p) => r == Option::Some(p.arrival),
            Option::None => r is None,
        },
{
    let procs = all_processes(&content[0]);
    match find_by_pid(&procs, pid) {
        Some(p) => Some(p.arrival),
        None => None,
    }
}

/// The first tick at which the pid stands in the finished list, or `None` if
/// it never finishes within the recorded history.
pub fn finished_time(pid: i32, content: &[TickEntry]) -> (r: Option<i32>)
    requires
        content@.len() <= i32::MAX,
    ensures
        match finished_time_spec(content@, pid) {
            Option::Some(t) => r == Option::Some(t as i32),
            Option::None => r is None,
        },
{
    let ghost s = content@;
    let mut i: usize = 0;
    proof {
        assert(s.skip(0) =~= s);
    }
    while i < content.len()
        invariant
            i <= s.len() <= i32::MAX,
            s == content@,
            finished_time_spec(s, pid) == (match finished_time_spec(s.skip(i as int), pid) {
                Option::Some(t) => Option::Some(i + t),
                Option::None => Option::None::<int>,
            }),
        decreases content@.len() - i,
    {
        proof {
            assert(s.skip(i as int)[0] == s[i as int]);
        }
        if queue_has_pid(&content[i].finished_processes, pid) {
            return Some(i as i32);
        }
        proof {
            assert(s.skip(i as int).drop_first() =~= s.skip(i + 1));
        }
        i = i + 1;
    }
    proof {
        assert(s.skip(s.len() as int).len() == 0);
    }
    None
}

/// Ticks the pid spent waiting: completion tick minus its own total demand
/// minus its arrival tick.
pub fn wait_time(pid: i32, content: &[TickEntry]) -> (r: Option<i32>)
    requires
        content@.len() > 0,
        content@.len() <= i32::MAX,
        match first_with_pid(all_procs_spec(content@[0]), pid) {
            Option::Some(p) => prefix_sums_fit(p.burst),
            Option::None => true,
        },
        match (
            finished_time_spec(content@, pid),
            first_with_pid(all_procs_spec(content@[0]), pid),
        ) {
            (Option::Some(f), Option::Some(p)) => in_i32(f - sum_bursts(p.burst)) && in_i32(
                f - sum_bursts(p.burst) - p.arrival,
            ),
            _ => true,
        },
    ensures
        match wait_time_spec(content@, pid) {
            Option::Some(w) => r == Option::Some(w as i32),
            Option::None => r is None,
        },
{
    let f = match finished_time(pid, content) {
        Some(f) => f,
        None => {
            return None;
        },
    };
    let c = match total_compute_time(pid, content) {
        Some(c) => c,
        None => {
            return None;
        },
    };
    let a = match arrival_time(pid, content) {
        Some(a) => a,
        None => {
            return None;
        },
    };
    proof {
        match (
            finished_time_spec(content@, pid),
            first_with_pid(all_procs_spec(content@[0]), pid),
        ) {
            (Option::Some(ft), Option::Some(p)) => {
                lemma_finished_time_bounds(content@, pid);
                assert(p.burst.take(p.burst.len() as int) =~= p.burst);
                assert(in_i32(sum_bursts(p.burst)));
                assert(f == ft as i32 && c == sum_bursts(p.burst) as i32 && a == p.arrival);
                assert(in_i32(ft - sum_bursts(p.burst)));
                assert(in_i32(ft - sum_bursts(p.burst) - p.arrival));
            },
            _ => {
                assert(false);
            },
        }
    }
    Some(f - c - a)
}

/// Ticks from the pid's arrival to its completion.
pub fn turn_around_time(pid: i32, content: &[TickEntry]) -> (r: Option<i32>)
    requires
        content@.len() > 0,
        content@.len() <= i32::MAX,
        match (
            finished_time_spec(content@, pid),
            first_with_pid(all_procs_spec(content@[0]), pid),
        ) {
            (Option::Some(f), Option::Some(p)) => in_i32(f - p.arrival),
            _ => true,
        },
    ensures
        match turn_around_time_spec(content@, pid) {
            Option::Some(w) => r == Option::Some(w as i32),
            Option::None => r is None,
        },
{
    let f = match finished_time(pid, content) {
        Some(f) => f,
        None => {
            return None;
        },
    };
    let a = match arrival_time(pid, content) {
        Some(a) => a,
        None => {
            return None;
        },
    };
    proof {
        match (
            finished_time_spec(content@, pid),
            first_with_pid(all_procs_spec(content@[0]), pid),
        ) {
            (Option::Some(ft), Option::Some(p)) => {
                lemma_finished_time_bounds(content@, pid);
                assert(f == ft as i32 && a == p.arrival);
                assert(in_i32(ft - p.arrival));
            },
            _ => {
                assert(false);
            },
        }
    }
    Some(f - a)
}

/// The processes that newly arrived between the last two snapshots, judged by
/// membership of `cur` against `prev`, reported as the first snapshot knew
/// them.
fn arrivals_from(first: &TickEntry, cur: &Vec<Process>, prev: &Vec<Process>) -> (r: Vec<Process>)
    ensures
        views(r@) == arrivals_spec(all_procs_spec(*first), views(cur@), views(prev@)),
{
    let all = all_processes(first);
    let ghost s = views(all@);
    let ghost c = views(cur@);
    let ghost v = views(prev@);
    let mut out: Vec<Process> = Vec::new();
    let mut i: usize = 0;
    proof {
        assert(s.take(0) =~= Seq::<ProcView>::empty());
        assert(views(out@) =~= arrivals_spec(s.take(0), c, v));
    }
    while i < all.len()
        invariant
            i <= all.len(),
            s == views(all@),
            c == views(cur@),
            v == views(prev@),
            views(out@) == arrivals_spec(s.take(i as int), c, v),
        decreases all.len() - i,
    {
        let keep = queue_has_pid(cur, all[i].pid) && !queue_has_pid(prev, all[i].pid);
        proof {
            assert(s.take(i + 1).drop_last() =~= s.take(i as int));
            assert(s.take(i + 1).last() == s[i as int]);
            assert(s[i as int].pid == all@[i as int]@.pid);
            assert(keep == (has_pid(c, s[i as int].pid) && !has_pid(v, s[i as int].pid)));
        }
        if keep {
            let p = all[i].clone();
            proof {
                crate::process::lemma_views_push(out@, p);
            }
            out.push(p);
        }
        i = i + 1;
    }
    proof {
        assert(s.take(s.len() as int) =~= s);
    }
    out
}

/// The processes that newly arrived in the CPU queue between the last two
/// snapshots; in a one-snapshot history, the whole first CPU queue.
pub fn get_cpu_arrivals(content: &[TickEntry]) -> (r: Vec<Process>)
    requires
        content@.len() > 0,
    ensures
        content@.len() == 1 ==> views(r@) == views(content@[0].cpu_queue@),
        content@.len() > 1 ==> views(r@) == arrivals_spec(
            all_procs_spec(content@[0]),
            views(content@[content@.len() - 1].cpu_queue@),
            views(content@[content@.len() - 2].cpu_queue@),
        ),
{
    if content.len() == 1 {
        return crate::process::clone_queue(&content[0].cpu_queue);
    }
    let n = content.len();
    arrivals_from(&content[0], &content[n - 1].cpu_queue, &content[n - 2].cpu_queue)
}

/// The processes that newly arrived in the IO queue between the last two
/// snapshots; in a one-snapshot history, the whole first IO queue.
pub fn get_io_arrivals(content: &[TickEntry]) -> (r: Vec<Process>)
    requires
        content@.len() > 0,
    ensures
        content@.len() == 1 ==> views(r@) == views(content@[0].io_queue@),
        content@.len() > 1 ==> views(r@) == arrivals_spec(
            all_procs_spec(content@[0]),
            views(content@[content@.len() - 1].io_queue@),
            views(content@[content@.len() - 2].io_queue@),
        ),
{
    if content.len() == 1 {
        return crate::process::clone_queue(&content[0].io_queue);
    }
    let n = content.len();
    arrivals_from(&content[0], &content[n - 1].io_queue, &content[n - 2].io_queue)
}

} // verus!
