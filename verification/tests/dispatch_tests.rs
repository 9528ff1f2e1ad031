use stacks::commands::{run_against_stacks, SpawnOutcome};
use stacks::config::{load, Config, Stack};
use stacks::exec::ExecOptions;

fn stack(key: &str, env: &[(&str, &str)]) -> Stack {
    Stack {
        key: key.to_string(),
        name: String::new(),
        directory: None,
        file: None,
        dependencies: Vec::new(),
        dependants: Vec::new(),
        environment: env
            .iter()
            .map(|(k, v)| (k.to_string(), v.to_string()))
            .collect(),
    }
}

fn plain_config(entries: Vec<Stack>) -> Config {
    load("base".to_string(), None, entries, Vec::new()).unwrap()
}

#[test]
fn fail_fast_stops_after_first_failure() {
    let config = plain_config(vec![stack("a", &[]), stack("b", &[]), stack("c", &[])]);
    let ordered = config.stacks(&Vec::new()).unwrap();
    let mut dispatch = run_against_stacks("up", &config, &ordered, &Vec::new());

    // The first stack's process runs and completes.
    let first = dispatch.current().unwrap();
    assert_eq!(first.working_dir, "base/a");
    dispatch.record(SpawnOutcome::Exited {
        success: true,
        status: "exit status: 0".to_string(),
    });

    // The second exits non-zero: the batch stops.
    let second = dispatch.current().unwrap();
    assert_eq!(second.working_dir, "base/b");
    dispatch.record(SpawnOutcome::Exited {
        success: false,
        status: "exit status: 1".to_string(),
    });

    // The third is never handed out.
    assert!(dispatch.current().is_none());
    let e = dispatch.result().err().unwrap();
    assert_eq!(
        e.message(),
        "Error running command `docker compose -p b up`: exit status: 1"
    );
}

#[test]
fn spawn_failure_stops_the_batch() {
    let config = plain_config(vec![stack("a", &[]), stack("b", &[])]);
    let ordered = config.stacks(&Vec::new()).unwrap();
    let mut dispatch = run_against_stacks("ps", &config, &ordered, &Vec::new());

    dispatch.record(SpawnOutcome::Failed {
        message: "No such file or directory (os error 2)".to_string(),
    });
    assert!(dispatch.current().is_none());
    let e = dispatch.result().err().unwrap();
    assert_eq!(
        e.message(),
        "Error running docker compose: No such file or directory (os error 2)"
    );
}

#[test]
fn empty_batch_succeeds() {
    let config = plain_config(Vec::new());
    let ordered = config.stacks(&Vec::new()).unwrap();
    let dispatch = run_against_stacks("ps", &config, &ordered, &Vec::new());
    assert!(dispatch.current().is_none());
    assert!(dispatch.result().is_ok());
}

#[test]
fn options_compose_program_and_args() {
    let config = load(
        "root".to_string(),
        Some(vec![
            "docker".to_string(),
            "compose".to_string(),
            "--ansi".to_string(),
        ]),
        vec![stack("db", &[])],
        Vec::new(),
    )
    .unwrap();
    let base = ExecOptions::new(&config, "logs", &vec!["--follow".to_string()]);
    let ordered = config.stacks(&Vec::new()).unwrap();
    let options = base.with_stack(&ordered[0]);
    assert_eq!(options.program(), "docker");
    assert_eq!(
        options.args(),
        vec!["compose", "--ansi", "-p", "db", "logs", "--follow"]
    );
    assert_eq!(options.working_dir, "root/db");
}

#[test]
fn stack_environment_wins_over_base() {
    let config = load(
        "base".to_string(),
        None,
        vec![stack("svc", &[("PORT", "8080"), ("MODE", "fast")])],
        vec![
            ("MODE".to_string(), "slow".to_string()),
            ("HOME".to_string(), "/root".to_string()),
        ],
    )
    .unwrap();
    let base = ExecOptions::new(&config, "up", &Vec::new());
    let ordered = config.stacks(&Vec::new()).unwrap();
    let options = base.with_stack(&ordered[0]);
    // Base entries first, stack entries after: the last value set for
    // a key is the stack's.
    assert_eq!(
        options.environment,
        vec![
            ("MODE".to_string(), "slow".to_string()),
            ("HOME".to_string(), "/root".to_string()),
            ("PORT".to_string(), "8080".to_string()),
            ("MODE".to_string(), "fast".to_string()),
        ]
    );
}

#[test]
fn display_name_defaults_to_key() {
    let config = plain_config(vec![stack("svc", &[])]);
    let ordered = config.stacks(&Vec::new()).unwrap();
    assert_eq!(ordered[0].name, "svc");
    let base = ExecOptions::new(&config, "ps", &Vec::new());
    let options = base.with_stack(&ordered[0]);
    assert_eq!(options.args(), vec!["compose", "-p", "svc", "ps"]);
}
