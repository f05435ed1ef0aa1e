use sched_sim::process::{Burst, BurstKind, Process};
use sched_sim::scheduler::SchedulerResult;
use sched_sim::scheduler::fcfs::FCFS;
use sched_sim::sim::{SchedulerState, Simulation};
use sched_sim::stats::{
    all_processes, arrival_time, finished_time, get_cpu_arrivals, get_io_arrivals,
    get_scheduler_process, total_compute_time, turn_around_time, wait_time,
};

fn proc(name: &str, pid: i32, priority: i32, bursts: Vec<Burst>, arrival: i32) -> Process {
    Process::new(String::from(name), pid, priority, bursts, arrival)
}

fn two_process_log() -> Vec<sched_sim::sim::TickEntry> {
    let p1 = proc("P1", 1, 0, vec![Burst(BurstKind::Cpu, 10)], 0);
    let p2 = proc("P2", 2, 0, vec![Burst(BurstKind::Cpu, 7)], 5);
    let mut sim = Simulation::new(
        vec![p1, p2],
        FCFS::new(vec![], BurstKind::Cpu),
        FCFS::new(vec![], BurstKind::Io),
    );
    sim.run(100)
}

#[test]
fn times_of_a_back_to_back_run() {
    let log = two_process_log();
    // P1 serves ticks 0..10, finishing in the entry of tick 9; the first
    // snapshot is taken after the first tick, so it already shows one tick of
    // P1's demand consumed
    assert_eq!(finished_time(1, &log), Some(9));
    assert_eq!(arrival_time(1, &log), Some(0));
    assert_eq!(total_compute_time(1, &log), Some(9));
    assert_eq!(wait_time(1, &log), Some(0));
    assert_eq!(turn_around_time(1, &log), Some(9));
    // P2 arrives at 5, waits while P1 runs, serves ticks 10..17
    assert_eq!(finished_time(2, &log), Some(16));
    assert_eq!(arrival_time(2, &log), Some(5));
    assert_eq!(total_compute_time(2, &log), Some(7));
    assert_eq!(wait_time(2, &log), Some(4));
    assert_eq!(turn_around_time(2, &log), Some(11));
    // an unknown pid has no statistics
    assert_eq!(finished_time(9, &log), None);
    assert_eq!(arrival_time(9, &log), None);
    assert_eq!(total_compute_time(9, &log), None);
    assert_eq!(wait_time(9, &log), None);
    assert_eq!(turn_around_time(9, &log), None);
}

#[test]
fn total_compute_time_sums_cpu_and_io_bursts() {
    let p = proc("P", 1, 0, vec![Burst(BurstKind::Cpu, 10), Burst(BurstKind::Io, 10)], 0);
    let mut sim = Simulation::new(
        vec![p],
        FCFS::new(vec![], BurstKind::Cpu),
        FCFS::new(vec![], BurstKind::Io),
    );
    let log = sim.run(100);
    // the first snapshot shows one CPU tick already consumed: 9 + 10
    assert_eq!(total_compute_time(1, &log), Some(19));
    // completion after all twenty ticks of combined service
    assert_eq!(finished_time(1, &log), Some(19));
    assert_eq!(wait_time(1, &log), Some(0));
}

#[test]
fn all_processes_gathers_every_snapshot_member() {
    let log = two_process_log();
    // during the overlap, P1 runs and P2 waits: both are in the CPU queue
    let all = all_processes(&log[6]);
    assert_eq!(all.len(), 2);
    let all_last = all_processes(&log[16]);
    assert_eq!(all_last.len(), 2);
    assert!(all_last.iter().all(|p| p.burst.is_empty()));
}

#[test]
fn cpu_arrivals_between_snapshots() {
    let log = two_process_log();
    // a one-entry history: the whole initial queue counts as newly arrived
    let first = get_cpu_arrivals(&log[..1]);
    assert_eq!(first.len(), 1);
    assert_eq!(first[0].name, "P1");
    // P2 joins the CPU queue in the entry of tick 5
    let at_five = get_cpu_arrivals(&log[..6]);
    assert_eq!(at_five.len(), 1);
    assert_eq!(at_five[0].name, "P2");
    // no IO work anywhere in this run
    assert!(get_io_arrivals(&log[..6]).is_empty());
    // nothing new in the next entry
    assert!(get_cpu_arrivals(&log[..7]).is_empty());
}

#[test]
fn io_arrivals_after_a_hand_off() {
    let p = proc("P", 1, 0, vec![Burst(BurstKind::Cpu, 2), Burst(BurstKind::Io, 2)], 0);
    let mut sim = Simulation::new(
        vec![p],
        FCFS::new(vec![], BurstKind::Cpu),
        FCFS::new(vec![], BurstKind::Io),
    );
    let log = sim.run(100);
    // the CPU burst ends at tick 2; the process appears in the IO queue then
    let hand_off = get_io_arrivals(&log[..2]);
    assert_eq!(hand_off.len(), 1);
    assert_eq!(hand_off[0].name, "P");
}

#[test]
fn scheduler_process_extraction() {
    let p = proc("P", 1, 0, vec![Burst(BurstKind::Cpu, 2)], 0);
    let q = proc("Q", 2, 0, vec![Burst(BurstKind::Cpu, 2)], 0);
    let from_finished = get_scheduler_process(&SchedulerResult::Finished(p));
    assert_eq!(from_finished.unwrap().name, "P");
    let from_processing = get_scheduler_process(&SchedulerResult::Processing(q));
    assert_eq!(from_processing.unwrap().name, "Q");
    assert!(get_scheduler_process(&SchedulerResult::Idle).is_none());
    assert!(get_scheduler_process(&SchedulerResult::WrongKind).is_none());
    assert!(get_scheduler_process(&SchedulerResult::NoBurstLeft).is_none());
}

#[test]
fn scheduler_state_reflects_tick_results() {
    let p = proc("P", 1, 0, vec![Burst(BurstKind::Cpu, 2)], 0);
    match SchedulerState::from_result(&SchedulerResult::Processing(p)) {
        SchedulerState::Processing(shown) => assert_eq!(shown.name, "P"),
        SchedulerState::Idle => panic!("a processing result must show the process"),
    }
    assert!(matches!(
        SchedulerState::from_result(&SchedulerResult::Idle),
        SchedulerState::Idle
    ));
    assert!(matches!(
        SchedulerState::from_result(&SchedulerResult::NoBurstLeft),
        SchedulerState::Idle
    ));
}
