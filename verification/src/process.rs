use vstd::prelude::*;

verus! {

/// The two resource kinds a burst can demand.
#[derive(Clone, Copy, Debug, PartialEq, Eq, Hash, Structural)]
pub enum BurstKind {
    Cpu,
    Io,
}

impl BurstKind {
    /// The kind of the resource a process moves to when a burst of this kind
    /// completes.
    pub open spec fn other(self) -> BurstKind {
        match self {
            BurstKind::Cpu => BurstKind::Io,
            BurstKind::Io => BurstKind::Cpu,
        }
    }
}

/// One contiguous demand for a resource: the kind, and the remaining number
/// of ticks of work.
#[derive(Clone, Copy, Debug, PartialEq, Eq, Structural)]
pub struct Burst(pub BurstKind, pub i32);

/// Every burst still holds at least one tick of work.
pub open spec fn bursts_positive(s: Seq<Burst>) -> bool {
    forall|i: int| 0 <= i < s.len() ==> s[i].1 >= 1
}

/// No two consecutive bursts demand the same resource.
pub open spec fn bursts_alternate(s: Seq<Burst>) -> bool {
    forall|i: int, j: int| #![trigger s[i], s[j]] 0 <= i && j == i + 1 && j < s.len() ==> s[i].0
        != s[j].0
}

/// A well-formed burst sequence: positive demands, strictly alternating kinds.
pub open spec fn bursts_wf(s: Seq<Burst>) -> bool {
    bursts_positive(s) && bursts_alternate(s)
}

/// The total demand of a burst sequence, CPU and IO alike.
pub open spec fn sum_bursts(s: Seq<Burst>) -> int
    decreases s.len(),
{
    if s.len() == 0 {
        0
    } else {
        sum_bursts(s.drop_last()) + s.last().1
    }
}

pub proof fn lemma_sum_bursts_update(s: Seq<Burst>, i: int, b: Burst)
    requires
        0 <= i < s.len(),
    ensures
        sum_bursts(s.update(i, b)) == sum_bursts(s) - s[i].1 + b.1,
    decreases s.len(),
{
    if i == s.len() - 1 {
        assert(s.update(i, b).drop_last() =~= s.drop_last());
    } else {
        assert(s.update(i, b).drop_last() =~= s.drop_last().update(i, b));
        lemma_sum_bursts_update(s.drop_last(), i, b);
    }
}

pub proof fn lemma_sum_bursts_nonneg(s: Seq<Burst>)
    requires
        bursts_positive(s),
    ensures
        sum_bursts(s) >= 0,
    decreases s.len(),
{
    if s.len() > 0 {
        assert(forall|i: int| 0 <= i < s.len() - 1 ==> s.drop_last()[i] == (#[trigger] s[i]));
        lemma_sum_bursts_nonneg(s.drop_last());
        assert(s.last().1 >= 1);
    }
}

pub proof fn lemma_sum_bursts_drop_first(s: Seq<Burst>)
    requires
        s.len() > 0,
    ensures
        sum_bursts(s.drop_first()) == sum_bursts(s) - s[0].1,
    decreases s.len(),
{
    if s.len() == 1 {
        assert(s.drop_first().len() == 0);
        assert(sum_bursts(s.drop_first()) == 0);
        assert(s.drop_last().len() == 0);
        assert(sum_bursts(s) == sum_bursts(s.drop_last()) + s.last().1);
        assert(s.last() == s[0]);
    } else {
        lemma_sum_bursts_drop_first(s.drop_last());
        assert(s.drop_first().drop_last() =~= s.drop_last().drop_first());
        assert(s.drop_last()[0] == s[0]);
        assert(s.drop_first().last() == s.last());
        assert(sum_bursts(s.drop_first()) == sum_bursts(s.drop_first().drop_last())
            + s.drop_first().last().1);
        assert(sum_bursts(s.drop_last().drop_first()) == sum_bursts(s.drop_last()) - s[0].1);
        assert(sum_bursts(s) == sum_bursts(s.drop_last()) + s.last().1);
    }
}

/// The mathematical value of a [`Process`]: the same fields with the heap
/// types replaced by their abstract views.
#[verifier::ext_equal]
pub ghost struct ProcView {
    pub name: Seq<char>,
    pub pid: i32,
    pub priority: i32,
    pub burst: Seq<Burst>,
    pub arrival: i32,
}

impl ProcView {
    /// The view after the front burst loses one tick of work.
    pub open spec fn dec_front(self) -> ProcView {
        ProcView {
            name: self.name,
            pid: self.pid,
            priority: self.priority,
            burst: self.burst.update(0, Burst(self.burst[0].0, (self.burst[0].1 - 1) as i32)),
            arrival: self.arrival,
        }
    }

    /// The view after the completed front burst is popped.
    pub open spec fn pop_front(self) -> ProcView {
        ProcView {
            name: self.name,
            pid: self.pid,
            priority: self.priority,
            burst: self.burst.drop_first(),
            arrival: self.arrival,
        }
    }

    /// Well-formed bursts.
    pub open spec fn wf(self) -> bool {
        bursts_wf(self.burst)
    }
}

/// A simulated process: immutable identity, arrival tick and priority, plus
/// the ordered sequence of bursts still to be consumed.
#[derive(Debug)]
pub struct Process {
    pub name: String,
    pub pid: i32,
    pub priority: i32,
    pub burst: Vec<Burst>,
    pub arrival: i32,
}

impl View for Process {
    type V = ProcView;

    open spec fn view(&self) -> ProcView {
        ProcView {
            name: self.name@,
            pid: self.pid,
            priority: self.priority,
            burst: self.burst@,
            arrival: self.arrival,
        }
    }
}

impl Clone for Process {
    fn clone(&self) -> (res: Self)
        ensures
            res@ == self@,
    {
        let mut burst: Vec<Burst> = Vec::new();
        let mut i: usize = 0;
        while i < self.burst.len()
            invariant
                i <= self.burst.len(),
                burst@ == self.burst@.take(i as int),
            decreases self.burst.len() - i,
        {
            burst.push(self.burst[i]);
            proof {
                assert(burst@ =~= self.burst@.take(i + 1 as int));
            }
            i = i + 1;
        }
        proof {
            assert(burst@ =~= self.burst@);
        }
        Process {
            name: self.name.clone(),
            pid: self.pid,
            priority: self.priority,
            burst,
            arrival: self.arrival,
        }
    }
}

impl Process {
    /// Well-formed bursts.
    pub open spec fn wf(self) -> bool {
        bursts_wf(self.burst@)
    }

    pub fn new(name: String, pid: i32, priority: i32, burst: Vec<Burst>, arrival: i32) -> (p:
        Process)
        ensures
            p@ == (ProcView { name: name@, pid, priority, burst: burst@, arrival }),
    {
        Process { name, pid, priority, burst, arrival }
    }
}

/// The views of a sequence of processes.
pub open spec fn views(s: Seq<Process>) -> Seq<ProcView> {
    s.map_values(|p: Process| p@)
}

pub proof fn lemma_views_push(s: Seq<Process>, p: Process)
    ensures
        views(s.push(p)) == views(s).push(p@),
{
    assert(views(s.push(p)) =~= views(s).push(p@));
}

pub proof fn lemma_views_remove(s: Seq<Process>, i: int)
    requires
        0 <= i < s.len(),
    ensures
        views(s.remove(i)) == views(s).remove(i),
{
    assert(views(s.remove(i)) =~= views(s).remove(i));
}

pub proof fn lemma_views_update(s: Seq<Process>, i: int, p: Process)
    requires
        0 <= i < s.len(),
    ensures
        views(s.update(i, p)) == views(s).update(i, p@),
{
    assert(views(s.update(i, p)) =~= views(s).update(i, p@));
}

/// Dropping the completed front burst keeps the sequence well-formed, and the
/// new front (if any) demands the other resource.
pub proof fn lemma_pop_front_wf(p: ProcView)
    requires
        p.wf(),
        p.burst.len() > 0,
    ensures
        p.pop_front().wf(),
        p.pop_front().burst.len() == p.burst.len() - 1,
        p.pop_front().burst.len() > 0 ==> p.pop_front().burst[0].0 == p.burst[0].0.other(),
{
    let s = p.burst;
    let d = p.pop_front().burst;
    assert(forall|i: int| 0 <= i < d.len() ==> (#[trigger] d[i]) == s[i + 1]);
    assert forall|i: int, j: int| 0 <= i && j == i + 1 && j < d.len() implies (#[trigger] d[i]).0
        != (#[trigger] d[j]).0 by {
        assert(s[i + 1].0 != s[j + 1].0);
    }
    if d.len() > 0 {
        assert(s[0].0 != s[1].0);
    }
}

/// Charging the front burst one tick of work keeps the sequence well-formed
/// as long as more work remains, and changes nothing but that one count.
pub proof fn lemma_dec_front_wf(p: ProcView)
    requires
        p.wf(),
        p.burst.len() > 0,
        p.burst[0].1 >= 2,
    ensures
        p.dec_front().wf(),
        p.dec_front().burst.len() == p.burst.len(),
        p.dec_front().burst[0].0 == p.burst[0].0,
        p.dec_front().burst[0].1 == p.burst[0].1 - 1,
        forall|k: int| 1 <= k < p.burst.len() ==> p.dec_front().burst[k] == p.burst[k],
{
    let s = p.burst;
    let d = p.dec_front().burst;
    assert forall|i: int, j: int| 0 <= i && j == i + 1 && j < d.len() implies (#[trigger] d[i]).0
        != (#[trigger] d[j]).0 by {
        assert(s[i].0 != s[j].0);
        assert(d[i].0 == s[i].0 && d[j].0 == s[j].0);
    }
}

/// A read-only snapshot of a process queue: clones every entry, in order.
pub fn clone_queue(q: &Vec<Process>) -> (r: Vec<Process>)
    ensures
        views(r@) == views(q@),
{
    let mut r: Vec<Process> = Vec::new();
    let mut i: usize = 0;
    while i < q.len()
        invariant
            i <= q.len(),
            views(r@) =~= views(q@).take(i as int),
        decreases q.len() - i,
    {
        let p = q[i].clone();
        proof {
            lemma_views_push(r@, p);
            assert(views(q@).take(i as int).push(q@[i as int]@) =~= views(q@).take(i + 1));
        }
        r.push(p);
        i = i + 1;
    }
    proof {
        assert(views(q@).take(q@.len() as int) =~= views(q@));
    }
    r
}

} // verus!
