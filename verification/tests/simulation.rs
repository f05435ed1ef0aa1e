use sched_sim::process::{Burst, BurstKind, Process};
use sched_sim::scheduler::SchedulerResult;
use sched_sim::scheduler::fcfs::FCFS;
use sched_sim::scheduler::priority::Priority;
use sched_sim::scheduler::round_robin::RoundRobin;
use sched_sim::sim::{Simulation, TickEntry};

fn proc(name: &str, pid: i32, priority: i32, bursts: Vec<Burst>, arrival: i32) -> Process {
    Process::new(String::from(name), pid, priority, bursts, arrival)
}

fn fcfs_sim(processes: Vec<Process>) -> Simulation<FCFS, FCFS> {
    Simulation::new(
        processes,
        FCFS::new(vec![], BurstKind::Cpu),
        FCFS::new(vec![], BurstKind::Io),
    )
}

fn cpu_name(te: &TickEntry) -> Option<String> {
    match &te.cpu_process {
        SchedulerResult::Finished(p) | SchedulerResult::Processing(p) => Some(p.name.clone()),
        _ => None,
    }
}

#[test]
fn empty_workload_idles_once_and_stops() {
    let mut sim = fcfs_sim(vec![]);
    let log = sim.run(100);
    assert_eq!(log.len(), 1);
    assert!(matches!(log[0].cpu_process, SchedulerResult::Idle));
    assert!(matches!(log[0].io_process, SchedulerResult::Idle));
}

#[test]
fn fcfs_single_process_finishes_at_tick_ten() {
    let p = proc("P", 0, 0, vec![Burst(BurstKind::Cpu, 10)], 0);
    let mut sim = fcfs_sim(vec![p]);
    let log = sim.run(100);
    // ten ticks of service, entries 0 through 9
    assert_eq!(log.len(), 10);
    for entry in log.iter().take(9) {
        assert!(matches!(&entry.cpu_process, SchedulerResult::Processing(q) if q.name == "P"));
    }
    match &log[9].cpu_process {
        SchedulerResult::Finished(p) => {
            assert_eq!(p.name, "P");
            assert!(p.burst.is_empty());
        }
        _ => panic!("expected the process to finish on its tenth tick"),
    }
    // the CPU queue is empty from tick 10 on
    assert!(log[9].cpu_queue.is_empty());
    assert_eq!(log[9].finished_processes.len(), 1);
}

#[test]
fn fcfs_two_processes_run_back_to_back() {
    let p1 = proc("P1", 1, 0, vec![Burst(BurstKind::Cpu, 10)], 0);
    let p2 = proc("P2", 2, 0, vec![Burst(BurstKind::Cpu, 7)], 5);
    let mut sim = fcfs_sim(vec![p1, p2]);
    let log = sim.run(100);
    assert_eq!(log.len(), 17);
    // P2 is never selected before P1 finishes at tick 10
    for entry in log.iter().take(9) {
        assert_eq!(cpu_name(entry).as_deref(), Some("P1"));
    }
    assert!(matches!(&log[9].cpu_process, SchedulerResult::Finished(p) if p.name == "P1"));
    // P2 then runs to completion, finishing at tick 17
    for entry in log.iter().take(16).skip(10) {
        assert_eq!(cpu_name(entry).as_deref(), Some("P2"));
    }
    assert!(matches!(&log[16].cpu_process, SchedulerResult::Finished(p) if p.name == "P2"));
}

#[test]
fn fcfs_reports_idle_in_an_arrival_gap() {
    let p1 = proc("P1", 1, 0, vec![Burst(BurstKind::Cpu, 10)], 0);
    let p2 = proc("P2", 2, 0, vec![Burst(BurstKind::Cpu, 7)], 11);
    let mut sim = fcfs_sim(vec![p1, p2]);
    let log = sim.run(100);
    assert!(matches!(&log[9].cpu_process, SchedulerResult::Finished(p) if p.name == "P1"));
    // the gap: P1 done at tick 10, P2 only arrives at tick 11
    assert!(matches!(log[10].cpu_process, SchedulerResult::Idle));
    assert_eq!(cpu_name(&log[11]).as_deref(), Some("P2"));
    assert!(matches!(&log[17].cpu_process, SchedulerResult::Finished(p) if p.name == "P2"));
    assert_eq!(log.len(), 18);
}

#[test]
fn round_robin_alternates_two_tick_slices() {
    let a = proc("A", 1, 0, vec![Burst(BurstKind::Cpu, 5)], 0);
    let b = proc("B", 2, 0, vec![Burst(BurstKind::Cpu, 5)], 0);
    let mut sim = Simulation::new(
        vec![a, b],
        RoundRobin::new(vec![], BurstKind::Cpu, 2),
        FCFS::new(vec![], BurstKind::Io),
    );
    let log = sim.run(100);
    // the second process completes exactly at the sum of both bursts
    assert_eq!(log.len(), 10);
    let served: Vec<Option<String>> = log.iter().map(cpu_name).collect();
    let expect = ["A", "A", "B", "B", "A", "A", "B", "B", "A", "B"];
    for (k, name) in expect.iter().enumerate() {
        assert_eq!(served[k].as_deref(), Some(*name));
    }
    // no process ever holds the resource longer than the quantum in a row
    let mut run_len = 1;
    for k in 1..served.len() {
        if served[k] == served[k - 1] {
            run_len += 1;
        } else {
            run_len = 1;
        }
        assert!(run_len <= 2);
    }
    assert!(matches!(&log[8].cpu_process, SchedulerResult::Finished(p) if p.name == "A"));
    assert!(matches!(&log[9].cpu_process, SchedulerResult::Finished(p) if p.name == "B"));
}

#[test]
fn priority_always_prefers_the_more_urgent_process() {
    let a = proc("A", 1, 5, vec![Burst(BurstKind::Cpu, 3)], 0);
    let b = proc("B", 2, 1, vec![Burst(BurstKind::Cpu, 2)], 0);
    let mut sim = Simulation::new(
        vec![a, b],
        Priority::new(vec![], BurstKind::Cpu),
        FCFS::new(vec![], BurstKind::Io),
    );
    let log = sim.run(100);
    // B is selected at every tick until its burst completes, then A runs
    assert_eq!(cpu_name(&log[0]).as_deref(), Some("B"));
    assert!(matches!(&log[1].cpu_process, SchedulerResult::Finished(p) if p.name == "B"));
    for entry in log.iter().take(4).skip(2) {
        assert_eq!(cpu_name(entry).as_deref(), Some("A"));
    }
    assert!(matches!(&log[4].cpu_process, SchedulerResult::Finished(p) if p.name == "A"));
    assert_eq!(log.len(), 5);
}

#[test]
fn cpu_io_round_trip_hands_off_in_the_same_iteration() {
    let p = proc("P", 1, 0, vec![Burst(BurstKind::Cpu, 10), Burst(BurstKind::Io, 10)], 0);
    let mut sim = fcfs_sim(vec![p]);
    let log = sim.run(100);
    // CPU burst completes on tick 10; the hand-off to the IO queue is visible
    // in the very same iteration's snapshot
    match &log[9].cpu_process {
        SchedulerResult::Finished(p) => {
            assert_eq!(p.burst, vec![Burst(BurstKind::Io, 10)]);
        }
        _ => panic!("expected the CPU burst to complete at tick 10"),
    }
    assert_eq!(log[9].io_queue.len(), 1);
    assert_eq!(log[9].io_queue[0].name, "P");
    // the IO policy was ticked before the hand-off: it was idle that iteration
    assert!(matches!(log[9].io_process, SchedulerResult::Idle));
    // ten further ticks of IO service; finished only after 20 total
    match &log[19].io_process {
        SchedulerResult::Finished(p) => assert!(p.burst.is_empty()),
        _ => panic!("expected the IO burst to complete at tick 20"),
    }
    assert_eq!(log.len(), 20);
    assert_eq!(log[19].finished_processes.len(), 1);
    for entry in log.iter().take(19) {
        assert!(entry.finished_processes.is_empty());
    }
}

#[test]
fn remaining_work_only_changes_for_the_selected_process() {
    let p1 = proc("P1", 1, 0, vec![Burst(BurstKind::Cpu, 10)], 0);
    let p2 = proc("P2", 2, 0, vec![Burst(BurstKind::Cpu, 7)], 5);
    let mut sim = fcfs_sim(vec![p1, p2]);
    let log = sim.run(100);
    // while P1 runs, P2 sits queued with its demand untouched
    for entry in log.iter().take(9).skip(5) {
        let waiting: Vec<&Process> =
            entry.cpu_queue.iter().filter(|q| q.name == "P2").collect();
        assert_eq!(waiting.len(), 1);
        assert_eq!(waiting[0].burst, vec![Burst(BurstKind::Cpu, 7)]);
    }
}

#[test]
fn finished_list_grows_monotonically() {
    let p1 = proc("P1", 1, 0, vec![Burst(BurstKind::Cpu, 2), Burst(BurstKind::Io, 2)], 0);
    let p2 = proc("P2", 2, 0, vec![Burst(BurstKind::Cpu, 3)], 1);
    let mut sim = fcfs_sim(vec![p1, p2]);
    let log = sim.run(100);
    let mut last = 0;
    for entry in log.iter() {
        assert!(entry.finished_processes.len() >= last);
        last = entry.finished_processes.len();
    }
    assert_eq!(last, 2);
}

#[test]
fn every_process_is_owned_by_exactly_one_container() {
    let p1 = proc("P1", 1, 0, vec![Burst(BurstKind::Cpu, 3), Burst(BurstKind::Io, 2)], 0);
    let p2 = proc("P2", 2, 0, vec![Burst(BurstKind::Cpu, 2)], 1);
    let p3 = proc("P3", 3, 0, vec![Burst(BurstKind::Cpu, 1), Burst(BurstKind::Io, 4)], 2);
    let mut sim = fcfs_sim(vec![p1, p2, p3]);
    let log = sim.run(100);
    for entry in log.iter() {
        let mut pids: Vec<i32> = entry
            .cpu_queue
            .iter()
            .chain(entry.io_queue.iter())
            .chain(entry.finished_processes.iter())
            .chain(entry.yet_to_arrive.iter())
            .map(|p| p.pid)
            .collect();
        pids.sort_unstable();
        assert_eq!(pids, vec![1, 2, 3]);
    }
}

#[test]
fn run_completes_within_its_step_bound() {
    // total demand 17, plus a gap of 5 ticks until the last arrival: the
    // simulation must terminate within 22 ticks
    let p1 = proc("P1", 1, 0, vec![Burst(BurstKind::Cpu, 10)], 0);
    let p2 = proc("P2", 2, 0, vec![Burst(BurstKind::Cpu, 7)], 5);
    let mut sim = fcfs_sim(vec![p1, p2]);
    let log = sim.run(23);
    assert!(log.len() <= 22);
    let last = log.last().unwrap();
    assert!(last.cpu_queue.is_empty());
    assert!(last.io_queue.is_empty());
    assert!(last.yet_to_arrive.is_empty());
    assert_eq!(last.finished_processes.len(), 2);
}

#[test]
fn no_process_is_served_before_its_arrival() {
    let p1 = proc("P1", 1, 0, vec![Burst(BurstKind::Cpu, 4)], 2);
    let mut sim = fcfs_sim(vec![p1]);
    let log = sim.run(100);
    assert!(matches!(log[0].cpu_process, SchedulerResult::Idle));
    assert!(matches!(log[1].cpu_process, SchedulerResult::Idle));
    assert_eq!(cpu_name(&log[2]).as_deref(), Some("P1"));
}
