use decert::codewriter::{CodeTask, CodeWriter};
use decert::conf::{Conf, Task};
use decert::schedule::{schedule, ScheduleError, Simulation};

fn names(v: &[&str]) -> Vec<String> {
    v.iter().map(|s| s.to_string()).collect()
}

fn task(name: &str, args: &[&str], requires: &[&str], satisfies: &[&str], cycles: u16) -> Task {
    Task {
        name: name.to_string(),
        args: names(args),
        requires: names(requires),
        satisfies: names(satisfies),
        cycles,
    }
}

fn unit(tasks: Vec<Task>) -> Conf {
    Conf { inports: vec![], outports: vec![], initial: vec![], tasks }
}

/// The entries of a writer as (name, cycles) for calls and ("", gap) for delays.
fn entries(w: &CodeWriter) -> Vec<(String, u64)> {
    w.tasks
        .iter()
        .map(|e| match e {
            CodeTask::FunctionCall(f) => (f.fn_identifier.clone(), f.cycles as u64),
            CodeTask::Delay(d) => (String::new(), d.call_time_ms),
        })
        .collect()
}

#[test]
fn shared_resource_runs_one_after_the_other() {
    let topology = vec![
        (1u32, unit(vec![task("T1", &["S"], &[], &[], 3)])),
        (2u32, unit(vec![task("T2", &["S"], &[], &[], 5)])),
    ];
    let ws = schedule(&topology, &names(&["S"])).unwrap();
    assert_eq!(ws.len(), 2);
    // equal weights: the earlier unit's task is taken first
    assert_eq!(entries(&ws[0]), vec![("T1".to_string(), 3)]);
    // the other waits for the resource to be released, then runs
    assert_eq!(entries(&ws[1]), vec![(String::new(), 3), ("T2".to_string(), 5)]);
}

#[test]
fn satisfied_condition_orders_tasks() {
    let topology = vec![(
        1u32,
        unit(vec![task("T1", &[], &[], &["ready"], 1), task("T2", &[], &["ready"], &[], 1)]),
    )];
    let ws = schedule(&topology, &vec![]).unwrap();
    assert_eq!(entries(&ws[0]), vec![("T1".to_string(), 1), ("T2".to_string(), 1)]);
}

#[test]
fn unknown_resource_is_reported() {
    let topology = vec![(7u32, unit(vec![task("T1", &["X"], &[], &[], 1)]))];
    match schedule(&topology, &names(&["S"])) {
        Err(ScheduleError::UnknownSensor { unit, task, sensor }) => {
            assert_eq!(unit, 7);
            assert_eq!(task, "T1");
            assert_eq!(sensor, "X");
        }
        other => panic!("unexpected {:?}", other),
    }
}

#[test]
fn too_many_sensors() {
    let sensors: Vec<String> = (0..129).map(|i| format!("s{i}")).collect();
    assert!(matches!(schedule(&vec![], &sensors), Err(ScheduleError::TooManySensors)));
    let sensors: Vec<String> = (0..128).map(|i| format!("s{i}")).collect();
    assert!(schedule(&vec![], &sensors).unwrap().is_empty());
}

#[test]
fn duplicate_task_names() {
    let topology = vec![(3u32, unit(vec![task("T", &[], &[], &[], 1), task("T", &[], &[], &[], 2)]))];
    match schedule(&topology, &vec![]) {
        Err(ScheduleError::DuplicateTask { unit, task }) => {
            assert_eq!(unit, 3);
            assert_eq!(task, "T");
        }
        other => panic!("unexpected {:?}", other),
    }
}

#[test]
fn never_satisfied_condition_is_unreachable() {
    let topology = vec![(4u32, unit(vec![task("A", &[], &[], &[], 1), task("B", &[], &["never"], &[], 1)]))];
    match schedule(&topology, &vec![]) {
        Err(ScheduleError::Unreachable { unit, task }) => {
            assert_eq!(unit, 4);
            assert_eq!(task, "B");
        }
        other => panic!("unexpected {:?}", other),
    }
}

#[test]
fn initial_conditions_count_as_satisfied() {
    let mut conf = unit(vec![task("B", &[], &["boot"], &[], 2)]);
    conf.initial = names(&["boot"]);
    let ws = schedule(&vec![(1u32, conf)], &vec![]).unwrap();
    assert_eq!(entries(&ws[0]), vec![("B".to_string(), 2)]);
}

#[test]
fn losing_candidate_gains_weight() {
    let topology = vec![
        (1u32, unit(vec![task("A", &["S"], &[], &[], 5)])),
        (2u32, unit(vec![task("B", &["S"], &[], &[], 5)])),
    ];
    let mut sim = Simulation::new(&topology, &names(&["S"])).ok().unwrap();
    assert_eq!(sim.weight(0, 0), 1);
    assert_eq!(sim.weight(1, 0), 1);
    assert!(sim.select_round());
    assert_eq!(sim.running(0), Some(0));
    assert_eq!(sim.running(1), None);
    assert_eq!(sim.weight(0, 0), 1);
    assert_eq!(sim.weight(1, 0), 2);
    // nothing more can start now
    assert!(!sim.select_round());
    assert!(sim.completion_phase());
    assert_eq!(sim.time(), 5);
    assert!(sim.select_round());
    assert_eq!(sim.running(1), Some(0));
    assert_eq!(sim.weight(1, 0), 1);
}

#[test]
fn longer_tasks_are_offered_first_and_unrelated_tasks_overlap() {
    let topology = vec![
        (1u32, unit(vec![task("short", &["S"], &[], &[], 1), task("long", &["S"], &[], &[], 4)])),
        (2u32, unit(vec![task("other", &["R"], &[], &[], 2)])),
    ];
    let ws = schedule(&topology, &names(&["S", "R"])).unwrap();
    assert_eq!(entries(&ws[0]), vec![("long".to_string(), 4), ("short".to_string(), 1)]);
    assert_eq!(entries(&ws[1]), vec![("other".to_string(), 2)]);
}

#[test]
fn chain_through_a_cycle_is_unreachable() {
    // A and B wait for each other; C is free to run
    let topology = vec![(9u32, unit(vec![
        task("A", &[], &["b"], &["a"], 1),
        task("B", &[], &["a"], &["b"], 1),
        task("C", &[], &[], &[], 1),
    ]))];
    match schedule(&topology, &vec![]) {
        Err(ScheduleError::Unreachable { unit, task }) => {
            assert_eq!(unit, 9);
            assert!(task == "A" || task == "B");
        }
        other => panic!("unexpected {:?}", other),
    }
}

#[test]
fn completion_advances_by_the_shortest_running_task() {
    let topology = vec![
        (1u32, unit(vec![task("A", &[], &[], &[], 2)])),
        (2u32, unit(vec![task("B", &[], &[], &[], 7)])),
        (3u32, unit(vec![task("C", &[], &[], &[], 2)])),
    ];
    let mut sim = Simulation::new(&topology, &vec![]).ok().unwrap();
    assert!(sim.select_round());
    assert!(!sim.select_round());
    assert!(sim.completion_phase());
    assert_eq!(sim.time(), 2);
    assert_eq!(sim.running(0), None);
    assert_eq!(sim.running(1), Some(0));
    assert_eq!(sim.running(2), None);
}
