use sofkit::scheduler::{
    ReactiveFrame, RunStep, Scheduler, Task, TaskLocation, TracerTree, PLAIN_PASS_LIMIT, TRACED_PASS_LIMIT,
};

fn loc(line: u32) -> TaskLocation {
    TaskLocation { file: "src/app.rs", line, column: 7 }
}

#[test]
fn new_scheduler_starts_at_pass_one() {
    let s: Scheduler<u32> = Scheduler::new();
    assert_eq!(s.notify_pass(), 1);
    assert_eq!(s.queue_len(), 0);
}

#[test]
fn schedule_requests_one_run_per_frame() {
    let mut s: Scheduler<u32> = Scheduler::new();
    assert!(s.schedule(1, loc(1), 1));
    assert!(!s.schedule(2, loc(2), 1));
    assert!(!s.schedule(3, loc(3), 0));
    assert!(s.schedule(4, loc(4), 2));
    assert_eq!(s.queue_len(), 4);
    assert_eq!(s.notify_pass(), 1);
}

#[test]
fn run_hands_out_tasks_in_order_and_counts_passes() {
    let mut s: Scheduler<&'static str> = Scheduler::new();
    s.schedule("a", loc(1), 1);
    s.schedule("b", loc(2), 1);
    let mut run = s.begin_run();
    assert_eq!(s.notify_pass(), 2);
    assert_eq!(s.queue_len(), 0);
    match s.step(&mut run) {
        RunStep::Run(w) => {
            assert_eq!(w, "a");
            // work scheduled while a pass runs waits for the next pass
            s.schedule("c", loc(3), 1);
        }
        _ => panic!("expected work"),
    }
    match s.step(&mut run) {
        RunStep::Run(w) => assert_eq!(w, "b"),
        _ => panic!("expected work"),
    }
    assert_eq!(s.notify_pass(), 2);
    match s.step(&mut run) {
        RunStep::Run(w) => assert_eq!(w, "c"),
        _ => panic!("expected work"),
    }
    assert_eq!(s.notify_pass(), 3);
    assert!(matches!(s.step(&mut run), RunStep::Finished));
    assert!(matches!(s.step(&mut run), RunStep::Finished));
    assert_eq!(s.notify_pass(), 3);
}

#[test]
fn empty_run_still_makes_one_pass() {
    let mut s: Scheduler<u8> = Scheduler::new();
    let mut run = s.begin_run();
    assert_eq!(s.notify_pass(), 2);
    assert!(matches!(s.step(&mut run), RunStep::Finished));
}

#[test]
fn endless_rescheduling_is_reported_as_a_cycle() {
    let mut s: Scheduler<u32> = Scheduler::new();
    s.schedule(0, loc(0), 1);
    let mut run = s.begin_run();
    let mut handed_out: u32 = 0;
    let trace = loop {
        match s.step(&mut run) {
            RunStep::Run(_) => {
                handed_out += 1;
                s.schedule(handed_out, loc(handed_out), 1);
            }
            RunStep::Finished => panic!("the run should not finish"),
            RunStep::CycleDetected(trace) => break trace,
        }
    };
    // 101 plain passes, then 24 traced levels before the 25th is reported
    assert_eq!(handed_out as u64, PLAIN_PASS_LIMIT + 1 + TRACED_PASS_LIMIT - 1);
    assert_eq!(trace.len() as u64, TRACED_PASS_LIMIT);
    assert_eq!(s.notify_pass(), 1 + (PLAIN_PASS_LIMIT + 1) + TRACED_PASS_LIMIT);
    // innermost first: each entry was scheduled by the work of the next one
    for k in 0..trace.len() - 1 {
        assert_eq!(trace[k].line, trace[k + 1].line + 1);
    }
    assert_eq!(trace[0].line, handed_out);
    assert!(matches!(s.step(&mut run), RunStep::Finished));
}

#[test]
fn traced_mode_finishes_when_work_stops() {
    let mut s: Scheduler<u32> = Scheduler::new();
    s.schedule(0, loc(0), 1);
    let mut run = s.begin_run();
    let mut handed_out: u32 = 0;
    loop {
        match s.step(&mut run) {
            RunStep::Run(_) => {
                handed_out += 1;
                if handed_out < 110 {
                    s.schedule(handed_out, loc(handed_out), 1);
                }
            }
            RunStep::Finished => break,
            RunStep::CycleDetected(_) => panic!("no cycle expected"),
        }
    }
    assert_eq!(handed_out, 110);
    assert_eq!(s.queue_len(), 0);
}

#[test]
fn traced_levels_run_in_scheduling_order() {
    let mut s: Scheduler<u32> = Scheduler::new();
    s.schedule(0, loc(0), 1);
    let mut run = s.begin_run();
    let mut traced_order: Vec<u32> = Vec::new();
    loop {
        match s.step(&mut run) {
            RunStep::Run(w) => {
                let pass = s.notify_pass();
                // passes 2..=102 are the plain ones; 103 is the first traced level
                if pass <= 1 + PLAIN_PASS_LIMIT + 1 {
                    s.schedule(w + 1, loc(w + 1), 1);
                } else {
                    traced_order.push(w);
                    if pass == 103 {
                        s.schedule(200, loc(200), 1);
                        s.schedule(201, loc(201), 1);
                    } else if pass == 104 {
                        s.schedule(w + 100, loc(w + 100), 1);
                    }
                }
            }
            RunStep::Finished => break,
            RunStep::CycleDetected(_) => panic!("no cycle expected"),
        }
    }
    assert_eq!(traced_order, vec![101, 200, 201, 300, 301]);
    assert_eq!(s.notify_pass(), 105);
    assert_eq!(s.queue_len(), 0);
}

#[test]
fn task_runs_once() {
    let mut t = Task::new(loc(5), 9u8);
    assert_eq!(t.run(), Some(9));
    assert_eq!(t.run(), None);
    assert_eq!(t.location.line, 5);
}

#[test]
fn reactive_frame_advances_once_until_reset() {
    let mut f = ReactiveFrame::new();
    assert!(f.needs_new_frame());
    assert_eq!(f.current_reactive_frame(), (1, true));
    assert!(!f.needs_new_frame());
    assert_eq!(f.frame_number(), 1);
    assert_eq!(f.current_reactive_frame(), (1, false));
    f.reset();
    assert_eq!(f.current_reactive_frame(), (2, true));
    assert_eq!(f.current_reactive_frame(), (2, false));
}

#[test]
fn tracer_tree_traces_to_root() {
    let mut t: TracerTree<u8> = TracerTree::new();
    t.insert(0, vec![Task::new(loc(10), 1), Task::new(loc(11), 2)]);
    assert_eq!(t.elements_on_next_level(), vec![1, 2]);
    t.insert(2, vec![Task::new(loc(20), 3)]);
    t.insert(3, vec![Task::new(loc(30), 4), Task::new(loc(31), 5)]);
    assert_eq!(t.elements_on_next_level(), vec![3, 4, 5]);
    assert_eq!(t.get(5).unwrap().level, 2);
    assert_eq!(t.get(5).unwrap().parent, 3);
    assert!(t.get(6).is_none());
    let lines: Vec<u32> = t.build_trace(5).iter().map(|l| l.line).collect();
    assert_eq!(lines, vec![31, 20, 11]);
    assert_eq!(t.build_trace(1).len(), 1);
    assert!(t.build_trace(9).is_empty());
    assert_eq!(t.take_task(4), Some(4));
    assert_eq!(t.take_task(4), None);
    assert_eq!(t.take_task(7), None);
}
