use tazk::execution::{default_debounce, execution_plan, task_outcome, RunOutcome};
use tazk::model::{CommandSpec, Config, Task, TasksFile};
use tazk::schedule::{collect_dependencies, collect_dependents, run_order_from, topological_order};
use tazk::validate::{validate_tasks_file, ValidationError};

fn task(cmd: &str, deps: &[&str]) -> Task {
    Task {
        cmd: CommandSpec::Single(cmd.to_string()),
        desc: None,
        deps: deps.iter().map(|d| d.to_string()).collect(),
        watch: Vec::new(),
        cache: false,
        watch_debounce: 500,
        watch_propagate: false,
        env: Vec::new(),
        concurrent: None,
    }
}

fn tasks_file(tasks: Vec<(String, Task)>) -> TasksFile {
    TasksFile { config: Config { default: None, concurrent: false }, tasks }
}

fn pairs(entries: &[(&str, Task)]) -> Vec<(String, Task)> {
    entries.iter().map(|(n, t)| (n.to_string(), t.clone())).collect()
}

#[test]
fn build_test_run_order() {
    let ts = pairs(&[
        ("build", task("echo build", &[])),
        ("test", task("echo test", &["build"])),
    ]);
    let errors = validate_tasks_file(&tasks_file(ts.clone()));
    assert_eq!(errors.len(), 0);
    let order = run_order_from(&ts, "test");
    assert_eq!(order, vec!["build".to_string(), "test".to_string()]);
}

#[test]
fn topological_order_is_permutation_with_deps_first() {
    let ts = pairs(&[
        ("d", task("echo d", &["b", "c"])),
        ("b", task("echo b", &["a"])),
        ("c", task("echo c", &["a"])),
        ("a", task("echo a", &[])),
    ]);
    let order = topological_order(&ts);
    assert_eq!(order.len(), 4);
    for (name, t) in &ts {
        let pos = order.iter().position(|x| x == name).unwrap();
        for dep in &t.deps {
            let dep_pos = order.iter().position(|x| x == dep).unwrap();
            assert!(dep_pos < pos, "{dep} must come before {name}");
        }
    }
}

#[test]
fn topological_order_rerun_is_identical() {
    let ts = pairs(&[
        ("b", task("echo b", &["a"])),
        ("a", task("echo a", &[])),
        ("c", task("echo c", &["b", "a"])),
    ]);
    let first = topological_order(&ts);
    let second = topological_order(&ts);
    assert_eq!(first, second);
}

#[test]
fn validate_valid_set_twice_is_empty_twice() {
    let ts = tasks_file(pairs(&[
        ("build", task("echo build", &[])),
        ("test", task("echo test", &["build"])),
    ]));
    assert_eq!(validate_tasks_file(&ts).len(), 0);
    assert_eq!(validate_tasks_file(&ts).len(), 0);
}

#[test]
fn two_task_cycle_is_reported_once() {
    let ts = tasks_file(pairs(&[
        ("a", task("echo a", &["b"])),
        ("b", task("echo b", &["a"])),
    ]));
    let errors = validate_tasks_file(&ts);
    let mut cycles = Vec::new();
    for e in &errors {
        if let ValidationError::CyclicDependency { cycle } = e {
            cycles.push(cycle.clone());
        }
    }
    assert_eq!(cycles.len(), 1);
    let mut c = cycles[0].clone();
    c.sort();
    assert_eq!(c, vec!["a".to_string(), "b".to_string()]);
    assert!(!errors.is_empty());
}

#[test]
fn missing_dependency_is_reported_exactly_once() {
    let ts = tasks_file(pairs(&[("a", task("echo a", &["ghost"]))]));
    let errors = validate_tasks_file(&ts);
    assert_eq!(errors.len(), 1);
    match &errors[0] {
        ValidationError::DependencyNotFound { task, dep } => {
            assert_eq!(task, "a");
            assert_eq!(dep, "ghost");
        },
        _ => panic!("expected a missing-dependency error"),
    }
}

#[test]
fn missing_dependency_is_reported_per_occurrence() {
    let ts = tasks_file(pairs(&[("a", task("echo a", &["ghost", "ghost"]))]));
    let errors = validate_tasks_file(&ts);
    assert_eq!(errors.len(), 2);
    for e in &errors {
        match e {
            ValidationError::DependencyNotFound { task, dep } => {
                assert_eq!(task, "a");
                assert_eq!(dep, "ghost");
            },
            _ => panic!("expected only missing-dependency errors"),
        }
    }
}

#[test]
fn unicode_whitespace_only_command_is_empty() {
    let mut t = task("placeholder", &[]);
    t.cmd = CommandSpec::Single("\u{00A0}\u{2003}".to_string());
    let ts = tasks_file(pairs(&[("pad", t)]));
    let errors = validate_tasks_file(&ts);
    assert_eq!(errors.len(), 1);
    assert!(matches!(&errors[0], ValidationError::EmptyCommand(n) if n == "pad"));
}

#[test]
fn duplicate_name_is_reported() {
    let ts = tasks_file(pairs(&[
        ("a", task("echo one", &[])),
        ("a", task("echo two", &[])),
    ]));
    let errors = validate_tasks_file(&ts);
    assert_eq!(errors.len(), 1);
    assert!(matches!(&errors[0], ValidationError::DuplicatedTask(n) if n == "a"));
}

#[test]
fn blank_and_empty_commands_are_reported() {
    let mut blank = task("   ", &[]);
    blank.cmd = CommandSpec::Single("   ".to_string());
    let mut empty_list = task("x", &[]);
    empty_list.cmd = CommandSpec::Multiple(Vec::new());
    let ts = tasks_file(pairs(&[("blank", blank), ("empty", empty_list)]));
    let errors = validate_tasks_file(&ts);
    assert_eq!(errors.len(), 2);
    assert!(errors.iter().any(|e| matches!(e, ValidationError::EmptyCommand(n) if n == "blank")));
    assert!(errors.iter().any(|e| matches!(e, ValidationError::EmptyCommand(n) if n == "empty")));
}

#[test]
fn self_dependency_is_reported() {
    let ts = tasks_file(pairs(&[("loop_task", task("echo x", &["loop_task"]))]));
    let errors = validate_tasks_file(&ts);
    assert!(errors
        .iter()
        .any(|e| matches!(e, ValidationError::SelfDependency(n) if n == "loop_task")));
    // The self-dependency is also a one-task cycle.
    assert!(errors
        .iter()
        .any(|e| matches!(e, ValidationError::CyclicDependency { cycle } if cycle == &vec!["loop_task".to_string()])));
}

#[test]
fn dependency_closure_is_reflexive_and_transitive() {
    let ts = pairs(&[
        ("test", task("echo t", &["build"])),
        ("build", task("echo b", &["gen"])),
        ("gen", task("echo g", &[])),
        ("other", task("echo o", &[])),
    ]);
    let mut closure = collect_dependencies(&ts, "test");
    closure.sort();
    assert_eq!(
        closure,
        vec!["build".to_string(), "gen".to_string(), "test".to_string()]
    );
}

#[test]
fn dependents_closure_inverts_dependency_closure() {
    let ts = pairs(&[
        ("test", task("echo t", &["build"])),
        ("build", task("echo b", &["gen"])),
        ("gen", task("echo g", &[])),
        ("other", task("echo o", &[])),
    ]);
    let mut dependents = collect_dependents(&ts, "gen");
    dependents.sort();
    assert_eq!(dependents, vec!["build".to_string(), "test".to_string()]);
    // Each of them has `gen` in its dependency closure, and `other` does not.
    for name in ["build", "test"] {
        let closure = collect_dependencies(&ts, name);
        assert!(closure.iter().any(|x| x == "gen"));
    }
    let other_closure = collect_dependencies(&ts, "other");
    assert!(!other_closure.iter().any(|x| x == "gen"));
}

#[test]
fn run_order_puts_start_last_and_stays_inside_closure() {
    let ts = pairs(&[
        ("deploy", task("echo d", &["test"])),
        ("test", task("echo t", &["build"])),
        ("build", task("echo b", &[])),
        ("lint", task("echo l", &[])),
    ]);
    let order = run_order_from(&ts, "test");
    assert_eq!(order.last().map(|s| s.as_str()), Some("test"));
    assert!(order.iter().all(|x| x != "deploy" && x != "lint"));
    assert_eq!(order, vec!["build".to_string(), "test".to_string()]);
}

#[test]
fn concurrent_plan_dispatches_both_commands() {
    let mut lint = task("unused", &[]);
    lint.cmd = CommandSpec::Multiple(vec!["eslint .".to_string(), "echo done".to_string()]);
    lint.concurrent = None;
    let plan = execution_plan("lint", &lint, true);
    assert!(plan.concurrent);
    assert_eq!(plan.commands, vec!["eslint .".to_string(), "echo done".to_string()]);
    assert_eq!(plan.task_name, "lint");
}

#[test]
fn per_task_override_beats_global_policy() {
    let mut t = task("echo x", &[]);
    t.concurrent = Some(false);
    assert!(!execution_plan("t", &t, true).concurrent);
    t.concurrent = Some(true);
    assert!(execution_plan("t", &t, false).concurrent);
    t.concurrent = None;
    assert!(!execution_plan("t", &t, false).concurrent);
}

#[test]
fn single_command_normalizes_to_one_element_list() {
    let t = task("echo solo", &[]);
    let plan = execution_plan("solo", &t, false);
    assert_eq!(plan.commands, vec!["echo solo".to_string()]);
}

#[test]
fn environment_overlay_is_carried_into_the_plan() {
    let mut t = task("echo x", &[]);
    t.env = vec![("KEY".to_string(), "value".to_string())];
    let plan = execution_plan("t", &t, false);
    assert_eq!(plan.env, vec![("KEY".to_string(), "value".to_string())]);
}

#[test]
fn first_failing_command_is_surfaced() {
    let commands = vec!["echo a".to_string(), "false".to_string(), "echo c".to_string()];
    let flags = vec![true, false, false];
    match task_outcome("t", &commands, &flags) {
        RunOutcome::Failure { task, command } => {
            assert_eq!(task, "t");
            assert_eq!(command, "false");
        },
        RunOutcome::Success => panic!("expected a failure"),
    }
    let all_ok = vec![true, true, true];
    assert!(matches!(task_outcome("t", &commands, &all_ok), RunOutcome::Success));
}

#[test]
fn default_debounce_is_half_a_second() {
    assert_eq!(default_debounce(), 500);
}
