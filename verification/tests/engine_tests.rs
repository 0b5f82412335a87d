use shorter::catalog::{Catalog, Group, Step};
use shorter::engine::{join_path, Action, Engine, RunError, StepOutcome};

fn step(command: &str, args: &[&str]) -> Step {
    Step { command: command.to_string(), args: args.iter().map(|a| a.to_string()).collect() }
}

fn catalog_one_group(group: &str, steps: Vec<(&str, Step)>) -> Catalog {
    let mut g = Group::new();
    for (name, st) in steps {
        assert!(g.insert(name.to_string(), st));
    }
    let mut c = Catalog::new();
    assert!(c.insert(group.to_string(), g));
    c
}

#[test]
fn scenario_cd_then_echo() {
    // catalog {"build":{"a":{"command":"cd","args":["src"]},"b":{"command":"echo","args":["hi"]}}}
    let c = catalog_one_group(
        "build",
        vec![("a", step("cd", &["src"])), ("b", step("echo", &["hi"]))],
    );
    let mut e = Engine::start(&c, "build", "/cwd".to_string()).unwrap();
    match e.next_action() {
        Action::ChangeDir { step_name, path } => {
            assert_eq!(step_name, "a");
            assert_eq!(path, "/cwd/src");
        }
        other => panic!("expected a directory change, got {:?}", other),
    }
    assert!(e.absorb(StepOutcome::DirChanged).is_ok());
    match e.next_action() {
        Action::Spawn { step_name, command, args, cwd } => {
            assert_eq!(step_name, "b");
            assert_eq!(command, "echo");
            assert_eq!(args, vec!["hi".to_string()]);
            // the directory change is visible to the following step
            assert_eq!(cwd, "/cwd/src");
        }
        other => panic!("expected a spawn, got {:?}", other),
    }
    assert!(e.absorb(StepOutcome::Exited { success: true, exit_code: 0 }).is_ok());
    assert!(matches!(e.next_action(), Action::Done));
}

#[test]
fn scenario_failing_step() {
    // catalog {"x":{"a":{"command":"false","args":[]}}}, running x fails on step a
    let c = catalog_one_group("x", vec![("a", step("false", &[]))]);
    let mut e = Engine::start(&c, "x", "/".to_string()).unwrap();
    assert!(matches!(e.next_action(), Action::Spawn { .. }));
    match e.absorb(StepOutcome::Exited { success: false, exit_code: 1 }) {
        Err(RunError::StepFailed { step_name, exit_code }) => {
            assert_eq!(step_name, "a");
            assert_eq!(exit_code, 1);
        }
        other => panic!("expected StepFailed for step a, got {:?}", other),
    }
}

#[test]
fn scenario_group_not_found() {
    let c = catalog_one_group("x", vec![("a", step("true", &[]))]);
    match Engine::start(&c, "missing", "/".to_string()) {
        Err(RunError::GroupNotFound { group }) => assert_eq!(group, "missing"),
        other => panic!("expected GroupNotFound, got {:?}", other.err()),
    }
}

#[test]
fn steps_run_in_ascending_name_order() {
    let c = catalog_one_group(
        "g",
        vec![
            ("b", step("two", &[])),
            ("a", step("one", &[])),
            ("c", step("three", &[])),
            ("10", step("zero", &[])),
        ],
    );
    let mut e = Engine::start(&c, "g", "/".to_string()).unwrap();
    let mut seen: Vec<String> = Vec::new();
    loop {
        match e.next_action() {
            Action::Done => break,
            Action::Spawn { step_name, .. } => {
                seen.push(step_name);
                assert!(e.absorb(StepOutcome::Exited { success: true, exit_code: 0 }).is_ok());
            }
            Action::ChangeDir { .. } => panic!("no cd step in this group"),
        }
    }
    assert_eq!(seen, vec!["10", "a", "b", "c"]);
}

#[test]
fn spawn_failure_names_the_step() {
    let c = catalog_one_group(
        "g",
        vec![("a", step("nosuchprogram", &[])), ("b", step("echo", &[]))],
    );
    let mut e = Engine::start(&c, "g", "/".to_string()).unwrap();
    assert!(matches!(e.next_action(), Action::Spawn { .. }));
    match e.absorb(StepOutcome::SpawnFailed) {
        Err(RunError::SpawnFailed { step_name }) => assert_eq!(step_name, "a"),
        other => panic!("expected SpawnFailed, got {:?}", other),
    }
}

#[test]
fn chdir_failure_names_step_and_path() {
    let c = catalog_one_group("g", vec![("a", step("cd", &["missing"]))]);
    let mut e = Engine::start(&c, "g", "/top".to_string()).unwrap();
    assert!(matches!(e.next_action(), Action::ChangeDir { .. }));
    match e.absorb(StepOutcome::DirFailed) {
        Err(RunError::ChangeDirFailed { step_name, path }) => {
            assert_eq!(step_name, "a");
            assert_eq!(path, "/top/missing");
        }
        other => panic!("expected ChangeDirFailed, got {:?}", other),
    }
}

#[test]
fn cd_without_argument_is_spawned_like_any_command() {
    let c = catalog_one_group("g", vec![("a", step("cd", &[]))]);
    let mut e = Engine::start(&c, "g", "/".to_string()).unwrap();
    match e.next_action() {
        Action::Spawn { command, args, .. } => {
            assert_eq!(command, "cd");
            assert!(args.is_empty());
        }
        other => panic!("expected a spawn, got {:?}", other),
    }
}

#[test]
fn consecutive_cd_steps_accumulate() {
    let c = catalog_one_group(
        "g",
        vec![("a", step("cd", &["one"])), ("b", step("cd", &["two"])), ("c", step("pwd", &[]))],
    );
    let mut e = Engine::start(&c, "g", "/root".to_string()).unwrap();
    assert!(matches!(e.next_action(), Action::ChangeDir { .. }));
    assert!(e.absorb(StepOutcome::DirChanged).is_ok());
    match e.next_action() {
        Action::ChangeDir { path, .. } => assert_eq!(path, "/root/one/two"),
        other => panic!("expected a directory change, got {:?}", other),
    }
    assert!(e.absorb(StepOutcome::DirChanged).is_ok());
    match e.next_action() {
        Action::Spawn { cwd, .. } => assert_eq!(cwd, "/root/one/two"),
        other => panic!("expected a spawn, got {:?}", other),
    }
}

#[test]
fn cd_with_absolute_argument_replaces_the_directory() {
    let c = catalog_one_group("g", vec![("a", step("cd", &["/abs"]))]);
    let mut e = Engine::start(&c, "g", "/root/deep".to_string()).unwrap();
    match e.next_action() {
        Action::ChangeDir { path, .. } => assert_eq!(path, "/abs"),
        other => panic!("expected a directory change, got {:?}", other),
    }
}

#[test]
fn join_path_cases() {
    assert_eq!(join_path("/a/b", "c"), "/a/b/c");
    assert_eq!(join_path("/a/b/", "c"), "/a/b/c");
    assert_eq!(join_path("/a", "/x"), "/x");
    assert_eq!(join_path("/a", ""), "/a");
    assert_eq!(join_path("rel", "more"), "rel/more");
}

#[test]
fn empty_group_is_immediately_done() {
    let g = Group::new();
    let mut c = Catalog::new();
    assert!(c.insert("empty".to_string(), g));
    let e = Engine::start(&c, "empty", "/".to_string()).unwrap();
    assert!(matches!(e.next_action(), Action::Done));
}

#[test]
fn duplicate_names_are_refused_by_insert() {
    let mut g = Group::new();
    assert!(g.insert("a".to_string(), step("x", &[])));
    assert!(!g.insert("a".to_string(), step("y", &[])));
    let mut c = Catalog::new();
    assert!(c.insert("g".to_string(), g));
    let g2 = Group::new();
    assert!(!c.insert("g".to_string(), g2));
}
