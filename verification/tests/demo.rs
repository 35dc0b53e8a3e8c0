use std::cell::RefCell;
use std::rc::Rc;

use mini_ecs::demo::greetings;
use mini_ecs::demo::MyName;
use mini_ecs::demo::SpawnNamed;
use mini_ecs::facade::App;
use mini_ecs::sched::Control;
use mini_ecs::sched::Fault;
use mini_ecs::sched::System;
use mini_ecs::world::World;

type Log = Rc<RefCell<Vec<String>>>;

/// Callbacks of the demonstration scenarios.
enum DemoSys {
    /// Spawns one named entity at startup.
    Spawn(SpawnNamed),
    /// Appends every greeting line to the log, one per named entity.
    Greet(Log),
    /// Appends a fixed line to the log.
    Tick(Log),
}

impl System<MyName> for DemoSys {
    fn run(&self, world: &mut World<MyName>, control: &mut Control) -> Result<(), Fault> {
        match self {
            DemoSys::Spawn(s) => s.run(world, control),
            DemoSys::Greet(log) => {
                for line in greetings(world) {
                    log.borrow_mut().push(line);
                }
                Ok(())
            }
            DemoSys::Tick(log) => {
                log.borrow_mut().push("tick".to_string());
                Ok(())
            }
        }
    }
}

fn new_log() -> Log {
    Rc::new(RefCell::new(Vec::new()))
}

fn named(name: &str) -> DemoSys {
    DemoSys::Spawn(SpawnNamed {
        name: name.to_string(),
    })
}

#[test]
fn greeting_line_formula() {
    let m = MyName {
        name: "Pedro".to_string(),
    };
    assert_eq!(m.greeting(), "Hello, my name is Pedro");
    let empty = MyName {
        name: String::new(),
    };
    assert_eq!(empty.greeting(), "Hello, my name is ");
}

#[test]
fn demonstration_three_ticks() {
    let log = new_log();
    let mut app: App<MyName, DemoSys> = App::new();
    app.add_startup(named("Pedro")).unwrap();
    app.add_update(DemoSys::Greet(log.clone())).unwrap();
    let report = app.run(3).unwrap();
    assert_eq!(report.ticks, 3);
    assert!(report.fatal.is_none());
    assert_eq!(
        *log.borrow(),
        vec![
            "Hello, my name is Pedro",
            "Hello, my name is Pedro",
            "Hello, my name is Pedro"
        ]
    );
}

#[test]
fn multiple_entities_greeted_in_spawn_order() {
    let log = new_log();
    let mut app: App<MyName, DemoSys> = App::new();
    app.add_startup(named("A")).unwrap();
    app.add_startup(named("B")).unwrap();
    app.add_startup(named("C")).unwrap();
    app.add_update(DemoSys::Greet(log.clone())).unwrap();
    let report = app.run(1).unwrap();
    assert_eq!(report.ticks, 1);
    assert_eq!(
        *log.borrow(),
        vec![
            "Hello, my name is A",
            "Hello, my name is B",
            "Hello, my name is C"
        ]
    );
}

#[test]
fn empty_world_two_ticks() {
    let log = new_log();
    let mut app: App<MyName, DemoSys> = App::new();
    app.add_update(DemoSys::Tick(log.clone())).unwrap();
    let report = app.run(2).unwrap();
    assert_eq!(report.ticks, 2);
    assert_eq!(*log.borrow(), vec!["tick", "tick"]);
}

#[test]
fn greetings_on_empty_world_is_empty() {
    let w: World<MyName> = World::new();
    assert!(greetings(&w).is_empty());
}
