use std::cell::RefCell;
use std::rc::Rc;

use mini_ecs::facade::App;
use mini_ecs::sched::CallOutcome;
use mini_ecs::sched::Control;
use mini_ecs::sched::Fault;
use mini_ecs::sched::Phase;
use mini_ecs::sched::SchedError;
use mini_ecs::sched::SchedState;
use mini_ecs::sched::Scheduler;
use mini_ecs::sched::System;
use mini_ecs::world::World;

type Log = Rc<RefCell<Vec<String>>>;

/// Callbacks used by the scheduler tests.
enum TestSys {
    /// Appends a line to the log.
    Record(Log, &'static str),
    /// Counts its own invocations and requests a stop on the n-th one.
    StopAtCall(Rc<RefCell<usize>>, usize),
    /// Raises a non-fatal fault.
    FailNonFatal(&'static str),
    /// Raises a fatal fault.
    FailFatal(&'static str),
}

impl System<u32> for TestSys {
    fn run(&self, _world: &mut World<u32>, control: &mut Control) -> Result<(), Fault> {
        match self {
            TestSys::Record(log, line) => {
                log.borrow_mut().push((*line).to_string());
                Ok(())
            }
            TestSys::StopAtCall(counter, at) => {
                let mut c = counter.borrow_mut();
                *c += 1;
                if *c == *at {
                    control.request_stop();
                }
                Ok(())
            }
            TestSys::FailNonFatal(msg) => Err(Fault {
                fatal: false,
                message: (*msg).to_string(),
            }),
            TestSys::FailFatal(msg) => Err(Fault {
                fatal: true,
                message: (*msg).to_string(),
            }),
        }
    }
}

fn new_log() -> Log {
    Rc::new(RefCell::new(Vec::new()))
}

#[test]
fn callbacks_run_in_registration_order() {
    let log = new_log();
    let mut app: App<u32, TestSys> = App::new();
    app.add_update(TestSys::Record(log.clone(), "a")).unwrap();
    app.add_update(TestSys::Record(log.clone(), "b")).unwrap();
    app.add_update(TestSys::Record(log.clone(), "c")).unwrap();
    let report = app.run(1).unwrap();
    assert_eq!(*log.borrow(), vec!["a", "b", "c"]);
    assert_eq!(report.ticks, 1);
    let indices: Vec<usize> = report.events.iter().map(|ev| ev.index).collect();
    assert_eq!(indices, vec![0, 1, 2]);
}

#[test]
fn startup_completes_before_updates_begin() {
    let log = new_log();
    let mut app: App<u32, TestSys> = App::new();
    app.add_update(TestSys::Record(log.clone(), "update")).unwrap();
    app.add_startup(TestSys::Record(log.clone(), "startup")).unwrap();
    let report = app.run(2).unwrap();
    assert_eq!(*log.borrow(), vec!["startup", "update", "update"]);
    let phases: Vec<Phase> = report.events.iter().map(|ev| ev.phase).collect();
    assert_eq!(
        phases,
        vec![Phase::Startup, Phase::Update, Phase::Update]
    );
    let ticks: Vec<usize> = report.events.iter().map(|ev| ev.tick).collect();
    assert_eq!(ticks, vec![0, 1, 2]);
}

#[test]
fn stop_request_completes_tick_then_stops() {
    let log = new_log();
    let counter = Rc::new(RefCell::new(0usize));
    let mut app: App<u32, TestSys> = App::new();
    // the first update requests a stop on tick 2; the second still runs then
    app.add_update(TestSys::StopAtCall(counter, 2)).unwrap();
    app.add_update(TestSys::Record(log.clone(), "late")).unwrap();
    let report = app.run(5).unwrap();
    // tick 2 completes fully, tick 3 never begins
    assert_eq!(*log.borrow(), vec!["late", "late"]);
    assert_eq!(report.ticks, 2);
    assert_eq!(report.events.len(), 4);
    assert!(report.fatal.is_none());
}

#[test]
fn no_callbacks_registered_zero_ticks() {
    let mut app: App<u32, TestSys> = App::new();
    let report = app.run(5).unwrap();
    assert_eq!(report.ticks, 0);
    assert!(report.events.is_empty());
    assert!(report.fatal.is_none());
    assert!(report.errors.is_empty());
}

#[test]
fn no_update_callbacks_zero_ticks_after_startup() {
    let log = new_log();
    let mut app: App<u32, TestSys> = App::new();
    app.add_startup(TestSys::Record(log.clone(), "startup")).unwrap();
    let report = app.run(5).unwrap();
    assert_eq!(*log.borrow(), vec!["startup"]);
    assert_eq!(report.ticks, 0);
    assert_eq!(report.events.len(), 1);
}

#[test]
fn non_fatal_fault_reported_and_run_continues() {
    let log = new_log();
    let mut app: App<u32, TestSys> = App::new();
    app.add_update(TestSys::FailNonFatal("boom")).unwrap();
    app.add_update(TestSys::Record(log.clone(), "ok")).unwrap();
    let report = app.run(1).unwrap();
    assert_eq!(*log.borrow(), vec!["ok"]);
    assert_eq!(report.errors, vec!["boom"]);
    assert!(report.fatal.is_none());
    assert_eq!(report.events[0].outcome, CallOutcome::NonFatal);
    assert_eq!(report.events[1].outcome, CallOutcome::Clean);
}

#[test]
fn fatal_fault_stops_the_run() {
    let log = new_log();
    let mut app: App<u32, TestSys> = App::new();
    app.add_update(TestSys::FailFatal("dead")).unwrap();
    app.add_update(TestSys::Record(log.clone(), "never")).unwrap();
    let report = app.run(3).unwrap();
    assert!(log.borrow().is_empty());
    assert_eq!(report.fatal.as_deref(), Some("dead"));
    assert_eq!(report.ticks, 1);
    assert_eq!(report.events.len(), 1);
    assert_eq!(report.events[0].outcome, CallOutcome::Fatal);
}

#[test]
fn registration_after_run_is_terminal_error() {
    let mut app: App<u32, TestSys> = App::new();
    app.run(1).unwrap();
    let r = app.add_update(TestSys::FailNonFatal("late"));
    assert_eq!(r, Err(SchedError::NotConfiguring));
    assert!(!SchedError::NotConfiguring.message().is_empty());
    assert_eq!(app.sched.state(), SchedState::Stopped);
}

#[test]
fn run_twice_is_terminal_error() {
    let mut sched: Scheduler<TestSys> = Scheduler::new();
    let mut w: World<u32> = World::new();
    sched.run(&mut w, 1).unwrap();
    let r = sched.run(&mut w, 1);
    assert!(matches!(r, Err(SchedError::NotConfiguring)));
}

#[test]
fn stop_request_before_run_means_zero_ticks() {
    let log = new_log();
    let mut app: App<u32, TestSys> = App::new();
    app.add_update(TestSys::Record(log.clone(), "tick")).unwrap();
    app.request_stop();
    let report = app.run(5).unwrap();
    assert!(log.borrow().is_empty());
    assert_eq!(report.ticks, 0);
}

#[test]
fn bounded_run_performs_exactly_the_bound() {
    let log = new_log();
    let mut app: App<u32, TestSys> = App::new();
    app.add_update(TestSys::Record(log.clone(), "tick")).unwrap();
    let report = app.run(4).unwrap();
    assert_eq!(report.ticks, 4);
    assert_eq!(log.borrow().len(), 4);
    let ticks: Vec<usize> = report.events.iter().map(|ev| ev.tick).collect();
    assert_eq!(ticks, vec![1, 2, 3, 4]);
}
