use sched_sim::process::{Burst, BurstKind, Process};
use sched_sim::scheduler::{Scheduler, SchedulerResult};
use sched_sim::scheduler::fcfs::FCFS;
use sched_sim::scheduler::priority::Priority;
use sched_sim::scheduler::round_robin::RoundRobin;
use sched_sim::system_state::SystemState;

fn proc(name: &str, pid: i32, priority: i32, bursts: Vec<Burst>, arrival: i32) -> Process {
    Process::new(String::from(name), pid, priority, bursts, arrival)
}

fn at(time: i32) -> SystemState {
    let mut s = SystemState::new();
    while s.time < time {
        s.advance();
    }
    s
}

#[test]
fn fcfs_idle_on_empty_queue() {
    let mut f = FCFS::new(vec![], BurstKind::Cpu);
    assert!(matches!(f.tick(&at(0)), SchedulerResult::Idle));
}

#[test]
fn fcfs_idle_before_arrival() {
    let p = proc("A", 0, 0, vec![Burst(BurstKind::Cpu, 3)], 5);
    let mut f = FCFS::new(vec![p], BurstKind::Cpu);
    assert!(matches!(f.tick(&at(0)), SchedulerResult::Idle));
    assert!(matches!(f.tick(&at(5)), SchedulerResult::Processing(_)));
}

#[test]
fn fcfs_processing_decrements_front_burst() {
    let p = proc("A", 0, 0, vec![Burst(BurstKind::Cpu, 3)], 0);
    let mut f = FCFS::new(vec![p], BurstKind::Cpu);
    match f.tick(&at(0)) {
        SchedulerResult::Processing(snap) => {
            assert_eq!(snap.burst, vec![Burst(BurstKind::Cpu, 2)]);
        }
        _ => panic!("expected a processing result"),
    }
    let q = f.get_queue();
    assert_eq!(q.len(), 1);
    assert_eq!(q[0].burst, vec![Burst(BurstKind::Cpu, 2)]);
}

#[test]
fn fcfs_finishes_and_pops_burst() {
    let p = proc("A", 0, 0, vec![Burst(BurstKind::Cpu, 1), Burst(BurstKind::Io, 4)], 0);
    let mut f = FCFS::new(vec![p], BurstKind::Cpu);
    match f.tick(&at(0)) {
        SchedulerResult::Finished(done) => {
            assert_eq!(done.burst, vec![Burst(BurstKind::Io, 4)]);
        }
        _ => panic!("expected a finished result"),
    }
    assert!(f.get_queue().is_empty());
}

#[test]
fn fcfs_wrong_kind_on_misrouted_process() {
    let p = proc("A", 0, 0, vec![Burst(BurstKind::Io, 3)], 0);
    let mut f = FCFS::new(vec![p], BurstKind::Cpu);
    assert!(matches!(f.tick(&at(0)), SchedulerResult::WrongKind));
}

#[test]
fn fcfs_no_burst_left_on_exhausted_process() {
    let p = proc("A", 0, 0, vec![], 0);
    let mut f = FCFS::new(vec![p], BurstKind::Cpu);
    assert!(matches!(f.tick(&at(0)), SchedulerResult::NoBurstLeft));
}

#[test]
fn fcfs_enqueue_goes_to_the_back() {
    let a = proc("A", 0, 0, vec![Burst(BurstKind::Cpu, 2)], 7);
    let b = proc("B", 1, 0, vec![Burst(BurstKind::Cpu, 2)], 0);
    let mut f = FCFS::new(vec![a], BurstKind::Cpu);
    f.enqueue(b);
    let q = f.get_queue();
    assert_eq!(q[0].name, "A");
    assert_eq!(q[1].name, "B");
    // strict FIFO: the front is selected even though the back arrived earlier
    assert!(matches!(f.tick(&at(0)), SchedulerResult::Idle));
    match f.tick(&at(7)) {
        SchedulerResult::Processing(snap) => assert_eq!(snap.name, "A"),
        _ => panic!("expected a processing result"),
    }
}

#[test]
fn priority_selects_numerically_smallest() {
    let a = proc("A", 0, 5, vec![Burst(BurstKind::Cpu, 3)], 0);
    let b = proc("B", 1, 1, vec![Burst(BurstKind::Cpu, 2)], 0);
    let mut s = Priority::new(vec![a, b], BurstKind::Cpu);
    match s.tick(&at(0)) {
        SchedulerResult::Processing(snap) => assert_eq!(snap.name, "B"),
        _ => panic!("expected a processing result"),
    }
}

#[test]
fn priority_tie_break_is_insertion_order() {
    let a = proc("A", 0, 2, vec![Burst(BurstKind::Cpu, 2)], 0);
    let b = proc("B", 1, 2, vec![Burst(BurstKind::Cpu, 2)], 0);
    let mut s = Priority::new(vec![a, b], BurstKind::Cpu);
    match s.tick(&at(0)) {
        SchedulerResult::Processing(snap) => assert_eq!(snap.name, "A"),
        _ => panic!("expected a processing result"),
    }
}

#[test]
fn priority_idles_when_the_most_urgent_process_has_not_arrived() {
    // selection always targets the current minimum: an unarrived minimum
    // leaves the resource idle even though another process is ready
    let a = proc("A", 0, 1, vec![Burst(BurstKind::Cpu, 2)], 10);
    let b = proc("B", 1, 5, vec![Burst(BurstKind::Cpu, 2)], 0);
    let mut s = Priority::new(vec![a, b], BurstKind::Cpu);
    assert!(matches!(s.tick(&at(0)), SchedulerResult::Idle));
    match s.tick(&at(10)) {
        SchedulerResult::Processing(snap) => assert_eq!(snap.name, "A"),
        _ => panic!("expected a processing result"),
    }
}

#[test]
fn priority_preempts_at_tick_granularity() {
    // A runs alone; when B (more urgent) is enqueued mid-burst, the very next
    // tick selects B instead of the partially processed A.
    let a = proc("A", 0, 5, vec![Burst(BurstKind::Cpu, 4)], 0);
    let mut s = Priority::new(vec![a], BurstKind::Cpu);
    assert!(matches!(s.tick(&at(0)), SchedulerResult::Processing(_)));
    let b = proc("B", 1, 1, vec![Burst(BurstKind::Cpu, 2)], 0);
    s.enqueue(b);
    match s.tick(&at(1)) {
        SchedulerResult::Processing(snap) => assert_eq!(snap.name, "B"),
        _ => panic!("expected a processing result"),
    }
}

#[test]
fn round_robin_reports_no_burst_left_on_empty_ring() {
    let mut r = RoundRobin::new(vec![], BurstKind::Cpu, 2);
    assert!(matches!(r.tick(&at(0)), SchedulerResult::NoBurstLeft));
}

#[test]
fn round_robin_rotates_after_quantum() {
    let a = proc("A", 0, 0, vec![Burst(BurstKind::Cpu, 5)], 0);
    let b = proc("B", 1, 0, vec![Burst(BurstKind::Cpu, 5)], 0);
    let mut r = RoundRobin::new(vec![a, b], BurstKind::Cpu, 2);
    let mut served: Vec<String> = Vec::new();
    for t in 0..4 {
        match r.tick(&at(t)) {
            SchedulerResult::Processing(snap) => served.push(snap.name),
            _ => panic!("expected a processing result"),
        }
    }
    assert_eq!(served, vec!["A", "A", "B", "B"]);
}

#[test]
fn round_robin_finish_resets_quantum_for_next_slot() {
    let a = proc("A", 0, 0, vec![Burst(BurstKind::Cpu, 1)], 0);
    let b = proc("B", 1, 0, vec![Burst(BurstKind::Cpu, 3)], 0);
    let mut r = RoundRobin::new(vec![a, b], BurstKind::Cpu, 2);
    match r.tick(&at(0)) {
        SchedulerResult::Finished(done) => assert_eq!(done.name, "A"),
        _ => panic!("expected a finished result"),
    }
    // B now holds the only slot and gets a full fresh quantum
    let mut served: Vec<String> = Vec::new();
    for t in 1..4 {
        match r.tick(&at(t)) {
            SchedulerResult::Processing(snap) => served.push(snap.name),
            SchedulerResult::Finished(done) => served.push(done.name),
            _ => panic!("expected work on B"),
        }
    }
    assert_eq!(served, vec!["B", "B", "B"]);
}
