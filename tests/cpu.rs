use decert::conf::Task;
use decert::cpu::{get_next_tasks, CPU};
use decert::schedule::ScheduleError;

fn task(name: &str, requires: &[&str], satisfies: &[&str], cycles: u16) -> Task {
    Task {
        name: name.to_string(),
        args: vec![],
        requires: requires.iter().map(|s| s.to_string()).collect(),
        satisfies: satisfies.iter().map(|s| s.to_string()).collect(),
        cycles,
    }
}

#[test]
fn longest_ready_task_is_offered_first() {
    let mut cpu = CPU::new(
        1,
        vec![task("a", &[], &[], 2), task("b", &[], &[], 5), task("c", &[], &[], 5), task("d", &["x"], &[], 9)],
        vec![],
    );
    // d waits for "x"; b and c tie, b is earlier
    assert_eq!(cpu.get_task(), Some(1));
    assert_eq!(cpu.get_task(), Some(2));
    assert_eq!(cpu.get_task(), Some(0));
    assert_eq!(cpu.get_task(), None);
}

#[test]
fn initial_conditions_make_tasks_ready() {
    let mut cpu = CPU::new(1, vec![task("d", &["x"], &[], 9)], vec!["x".to_string()]);
    assert_eq!(cpu.get_task(), Some(0));
}

#[test]
fn completion_satisfies_conditions() {
    let mut cpu = CPU::new(1, vec![task("a", &[], &["x"], 1), task("b", &["x"], &[], 1)], vec![]);
    assert_eq!(cpu.get_task(), Some(0));
    assert_eq!(cpu.get_task(), None);
    assert!(cpu.task_complete(&task("a", &[], &["x"], 1)).is_ok());
    cpu.reset();
    assert!(cpu.is_completed(0));
    assert_eq!(cpu.get_task(), Some(1));
    assert_eq!(cpu.get_task(), None);
}

#[test]
fn completing_an_unknown_task_fails() {
    let mut cpu = CPU::new(1, vec![task("a", &[], &[], 1)], vec![]);
    match cpu.task_complete(&task("zzz", &[], &[], 1)) {
        Err(ScheduleError::UnknownTask { unit, task }) => {
            assert_eq!(unit, 1);
            assert_eq!(task, "zzz");
        }
        other => panic!("unexpected {:?}", other),
    }
    assert!(!cpu.is_completed(0));
}

#[test]
fn reset_requeues_offered_tasks() {
    let mut cpu = CPU::new(1, vec![task("a", &[], &[], 1)], vec![]);
    assert_eq!(cpu.get_task(), Some(0));
    cpu.reset();
    assert_eq!(cpu.get_task(), Some(0));
}

#[test]
fn next_tasks_of_listed_units() {
    let mut cpus = vec![
        CPU::new(1, vec![task("a", &[], &[], 1)], vec![]),
        CPU::new(2, vec![task("b", &[], &[], 1)], vec![]),
        CPU::new(3, vec![], vec![]),
    ];
    let next = get_next_tasks(&vec![1, 2], &mut cpus);
    assert_eq!(next, vec![(1, Some(0)), (2, None)]);
    // unit 0 was not asked and still has its task queued
    assert_eq!(cpus[0].get_task(), Some(0));
}
