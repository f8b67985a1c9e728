use coopsched::boot::{Boot, BootPhase};
use coopsched::partition::{Plan, PlanEntry};
use coopsched::resources::{Capability, Registry};
use coopsched::sched::{EntryKind, LogEntry, Op, TaskState};
use coopsched::tasks::{
    blink_program, display_program, BLINK_PHASE_TICKS, NOTE_LED_OFF, NOTE_LED_ON,
};

fn led_registry() -> Registry {
    let mut reg = Registry::new();
    assert!(reg.register(0, Capability::DigitalOutput));
    reg
}

fn booted_blinker() -> Boot {
    // plan = {LED: [pin0]}; partition succeeds; the blink task gets the
    // bundle and the system starts running.
    let reg = led_registry();
    let plan = Plan {
        entries: vec![PlanEntry { name: "LED".to_string(), ids: vec![0] }],
    };
    let mut boot = Boot::acquire(reg);
    boot.apply_plan(&plan).unwrap();
    boot.configure_clock();
    boot.distribute();
    let id = boot.spawn_next(blink_program(0), true);
    assert_eq!(id, 0);
    boot.finish_spawning();
    boot.start();
    boot
}

#[test]
fn blink_toggles_with_one_second_period() {
    let mut boot = booted_blinker();
    // One pass dispatches, three execute the first segment (high, note,
    // suspend).
    boot.run_steps(4);
    let log = &boot.sched.log;
    assert_eq!(
        log[0],
        LogEntry { task: 0, kind: EntryKind::Work { op: Op::SetHigh { pin: 0 } } }
    );
    assert_eq!(
        log[1],
        LogEntry { task: 0, kind: EntryKind::Work { op: Op::Note { code: NOTE_LED_ON } } }
    );
    assert_eq!(log[2], LogEntry { task: 0, kind: EntryKind::Suspended });
    assert_eq!(boot.sched.clock, 0);
    // The next passes wake the task at the deadline, dispatch it and run the
    // second segment: the clock has advanced by one phase.
    boot.run_steps(5);
    let log = &boot.sched.log;
    assert_eq!(
        log[3],
        LogEntry { task: 0, kind: EntryKind::Work { op: Op::SetLow { pin: 0 } } }
    );
    assert_eq!(
        log[4],
        LogEntry { task: 0, kind: EntryKind::Work { op: Op::Note { code: NOTE_LED_OFF } } }
    );
    assert_eq!(log[5], LogEntry { task: 0, kind: EntryKind::Suspended });
    assert_eq!(boot.sched.clock, BLINK_PHASE_TICKS);
    // The program repeats: the pin goes high again one phase later.
    boot.run_steps(5);
    let log = &boot.sched.log;
    assert_eq!(
        log[6],
        LogEntry { task: 0, kind: EntryKind::Work { op: Op::SetHigh { pin: 0 } } }
    );
    assert_eq!(boot.sched.clock, 2 * BLINK_PHASE_TICKS);
}

#[test]
fn double_claim_fails_before_any_task_runs() {
    // plan double-claims pin0 in two bundles: the partition call fails and
    // the boot is dead before the scheduler ever starts; no task exists and
    // nothing is logged.
    let reg = led_registry();
    let plan = Plan {
        entries: vec![
            PlanEntry { name: "LED".to_string(), ids: vec![0] },
            PlanEntry { name: "Blinker".to_string(), ids: vec![0] },
        ],
    };
    let mut boot = Boot::acquire(reg);
    assert!(boot.apply_plan(&plan).is_err());
    assert_eq!(boot.phase, BootPhase::Failed);
    assert_eq!(boot.sched.programs.len(), 0);
    assert_eq!(boot.sched.log.len(), 0);
}

#[test]
fn interleaved_tasks_are_never_preempted() {
    // Two instrumented tasks interleave; the log may switch tasks only
    // immediately after a suspension or termination boundary.
    let mut reg = Registry::new();
    assert!(reg.register(0, Capability::DigitalOutput));
    assert!(reg.register(1, Capability::DigitalOutput));
    let plan = Plan {
        entries: vec![
            PlanEntry { name: "LED".to_string(), ids: vec![0] },
            PlanEntry { name: "Aux".to_string(), ids: vec![1] },
        ],
    };
    let mut boot = Boot::acquire(reg);
    boot.apply_plan(&plan).unwrap();
    boot.configure_clock();
    boot.distribute();
    boot.spawn_next(blink_program(0), true);
    boot.spawn_next(blink_program(1), true);
    boot.finish_spawning();
    boot.start();
    boot.run_steps(100);
    let log = &boot.sched.log;
    assert!(log.len() > 20);
    for i in 1..log.len() {
        if log[i - 1].task != log[i].task {
            assert!(matches!(
                log[i - 1].kind,
                EntryKind::Suspended | EntryKind::Terminated
            ));
        }
    }
    // Both tasks actually ran.
    assert!(log.iter().any(|e| e.task == 0));
    assert!(log.iter().any(|e| e.task == 1));
}

#[test]
fn equal_deadlines_wake_in_spawn_order() {
    // Both tasks suspend with the same deadline; they wake in spawn order,
    // so task 0's second segment is logged before task 1's.
    let mut reg = Registry::new();
    assert!(reg.register(0, Capability::DigitalOutput));
    assert!(reg.register(1, Capability::DigitalOutput));
    let plan = Plan {
        entries: vec![
            PlanEntry { name: "A".to_string(), ids: vec![0] },
            PlanEntry { name: "B".to_string(), ids: vec![1] },
        ],
    };
    let mut boot = Boot::acquire(reg);
    boot.apply_plan(&plan).unwrap();
    boot.configure_clock();
    boot.distribute();
    boot.spawn_next(blink_program(0), true);
    boot.spawn_next(blink_program(1), true);
    boot.finish_spawning();
    boot.start();
    // 2 dispatches + 6 ops of the first segments, then the wake pass and the
    // second segments.
    boot.run_steps(8);
    assert_eq!(boot.sched.clock, 0);
    boot.run_steps(1);
    // The wake pass moved the clock and queued task 0 before task 1.
    assert_eq!(boot.sched.clock, BLINK_PHASE_TICKS);
    assert_eq!(boot.sched.queue, vec![0usize, 1usize]);
}

#[test]
fn finished_program_terminates_task() {
    // A task whose (non-repeating) program runs out terminates; the other
    // task keeps the system going.
    let mut reg = Registry::new();
    assert!(reg.register(3, Capability::DigitalOutput));
    let plan = Plan {
        entries: vec![PlanEntry { name: "OneShot".to_string(), ids: vec![3] }],
    };
    let mut boot = Boot::acquire(reg);
    boot.apply_plan(&plan).unwrap();
    boot.configure_clock();
    boot.distribute();
    let mut prog: Vec<Op> = Vec::new();
    prog.push(Op::SetHigh { pin: 3 });
    prog.push(Op::SetLow { pin: 3 });
    boot.spawn_next(prog, false);
    boot.finish_spawning();
    boot.start();
    boot.run_steps(10);
    assert_eq!(boot.sched.states[0], TaskState::Terminated);
    let log = &boot.sched.log;
    assert_eq!(log.len(), 3);
    assert_eq!(log[2], LogEntry { task: 0, kind: EntryKind::Terminated });
}

#[test]
fn display_task_cycles_colors() {
    let mut reg = Registry::new();
    assert!(reg.register(7, Capability::BusController));
    let plan = Plan {
        entries: vec![PlanEntry { name: "Display".to_string(), ids: vec![7] }],
    };
    let mut boot = Boot::acquire(reg);
    boot.apply_plan(&plan).unwrap();
    boot.configure_clock();
    boot.distribute();
    boot.spawn_next(display_program(), true);
    boot.finish_spawning();
    boot.start();
    boot.run_steps(40);
    let clears: Vec<Op> = boot
        .sched
        .log
        .iter()
        .filter_map(|e| match e.kind {
            EntryKind::Work { op: Op::ClearDisplay { color } } => {
                Some(Op::ClearDisplay { color })
            }
            _ => None,
        })
        .collect();
    assert!(clears.len() >= 2);
    assert_eq!(clears[0], Op::ClearDisplay { color: coopsched::tasks::COLOR_BLUE });
    assert_eq!(clears[1], Op::ClearDisplay { color: coopsched::tasks::COLOR_GREEN });
}

#[test]
fn earlier_deadline_wakes_first_regardless_of_spawn_order() {
    // The task spawned second has the earlier deadline, so it wakes first:
    // ready order follows wake order, not spawn order, across different
    // deadlines.
    let mut reg = Registry::new();
    assert!(reg.register(0, Capability::DigitalOutput));
    assert!(reg.register(1, Capability::DigitalOutput));
    let plan = Plan {
        entries: vec![
            PlanEntry { name: "Slow".to_string(), ids: vec![0] },
            PlanEntry { name: "Fast".to_string(), ids: vec![1] },
        ],
    };
    let mut boot = Boot::acquire(reg);
    boot.apply_plan(&plan).unwrap();
    boot.configure_clock();
    boot.distribute();
    let mut slow: Vec<Op> = Vec::new();
    slow.push(Op::Note { code: 10 });
    slow.push(Op::Await { ticks: 1300 });
    boot.spawn_next(slow, true);
    let mut fast: Vec<Op> = Vec::new();
    fast.push(Op::Note { code: 11 });
    fast.push(Op::Await { ticks: 500 });
    boot.spawn_next(fast, true);
    boot.finish_spawning();
    boot.start();
    // Two dispatches and two two-op segments leave both tasks suspended.
    boot.run_steps(6);
    assert_eq!(boot.sched.clock, 0);
    // The wake pass picks the earliest deadline: task 1 alone becomes ready.
    boot.run_steps(1);
    assert_eq!(boot.sched.clock, 500);
    assert_eq!(boot.sched.queue, vec![1usize]);
}

#[test]
fn deadlines_saturate_at_the_largest_instant() {
    let mut reg = Registry::new();
    assert!(reg.register(0, Capability::DigitalOutput));
    let plan = Plan {
        entries: vec![PlanEntry { name: "Idle".to_string(), ids: vec![0] }],
    };
    let mut boot = Boot::acquire(reg);
    boot.apply_plan(&plan).unwrap();
    boot.configure_clock();
    boot.distribute();
    let mut prog: Vec<Op> = Vec::new();
    prog.push(Op::Await { ticks: u64::MAX });
    boot.spawn_next(prog, true);
    boot.finish_spawning();
    boot.start();
    // Dispatch and suspend, then wake at the saturated deadline; a second
    // round must not overflow past it.
    boot.run_steps(3);
    assert_eq!(boot.sched.clock, u64::MAX);
    boot.run_steps(3);
    assert_eq!(boot.sched.clock, u64::MAX);
}

#[test]
fn steady_state_fault_terminates_only_that_task() {
    // A fault of the running task's operation terminates exactly that task's
    // loop — no retry, no restart — while the other task keeps running.
    let mut reg = Registry::new();
    assert!(reg.register(0, Capability::DigitalOutput));
    assert!(reg.register(1, Capability::DigitalOutput));
    let plan = Plan {
        entries: vec![
            PlanEntry { name: "LED".to_string(), ids: vec![0] },
            PlanEntry { name: "Aux".to_string(), ids: vec![1] },
        ],
    };
    let mut boot = Boot::acquire(reg);
    boot.apply_plan(&plan).unwrap();
    boot.configure_clock();
    boot.distribute();
    boot.spawn_next(blink_program(0), true);
    boot.spawn_next(blink_program(1), true);
    boot.finish_spawning();
    boot.start();
    // The first pass hands the core to task 0; its first operation then
    // faults.
    boot.run_steps(1);
    boot.sched.fail_current();
    assert_eq!(boot.sched.states[0], TaskState::Terminated);
    assert_eq!(boot.sched.states[1], TaskState::Ready);
    let fault_at = boot.sched.log.len();
    assert_eq!(
        boot.sched.log[fault_at - 1],
        LogEntry { task: 0, kind: EntryKind::Terminated }
    );
    // The rest of the system continues unaffected: task 1 runs on, task 0
    // never again.
    boot.run_steps(50);
    let log = &boot.sched.log;
    for entry in log[fault_at..].iter() {
        assert_ne!(entry.task, 0);
    }
    assert!(log[fault_at..].iter().any(|e| e.task == 1));
}
