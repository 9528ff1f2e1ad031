use stacks::commands::SpawnOutcome;
use stacks::config::{load, Config, Stack};
use stacks::program::{Commands, GlobalArguments};

fn stack(key: &str, deps: &[&str]) -> Stack {
    Stack {
        key: key.to_string(),
        name: String::new(),
        directory: None,
        file: None,
        dependencies: deps.iter().map(|d| d.to_string()).collect(),
        dependants: Vec::new(),
        environment: Vec::new(),
    }
}

fn chain() -> Config {
    load(
        "base".to_string(),
        None,
        vec![
            stack("bar", &["baz"]),
            stack("baz", &[]),
            stack("foo", &["bar"]),
        ],
        Vec::new(),
    )
    .unwrap()
}

/// Runs the whole batch assuming every spawn succeeds and returns the
/// working directory of each invocation in order.
fn run_all(command: &Commands, globals: &GlobalArguments, config: &Config) -> Vec<String> {
    let mut dispatch = command.run(globals, config).unwrap();
    let mut dirs = Vec::new();
    while let Some(options) = dispatch.current() {
        dirs.push(options.working_dir.clone());
        dispatch.record(SpawnOutcome::Exited {
            success: true,
            status: "exit status: 0".to_string(),
        });
    }
    assert!(dispatch.result().is_ok());
    dirs
}

#[test]
fn program_stacks() {
    let globals = GlobalArguments::new(None);
    assert_eq!(globals.stacks(), Vec::<String>::new());

    let globals = GlobalArguments::new(Some("*".to_string()));
    assert_eq!(globals.stacks(), Vec::<String>::new());

    let globals = GlobalArguments::new(Some(String::new()));
    assert_eq!(globals.stacks(), Vec::<String>::new());

    let globals = GlobalArguments::new(Some("bar".to_string()));
    assert_eq!(globals.stacks(), vec!["bar".to_string()]);
}

#[test]
fn selection_splits_on_commas() {
    let globals = GlobalArguments::new(Some("a,b,c".to_string()));
    assert_eq!(
        globals.stacks(),
        vec!["a".to_string(), "b".to_string(), "c".to_string()]
    );

    let globals = GlobalArguments::new(Some("a,,b".to_string()));
    assert_eq!(
        globals.stacks(),
        vec!["a".to_string(), String::new(), "b".to_string()]
    );

    let globals = GlobalArguments::new(Some("a,".to_string()));
    assert_eq!(globals.stacks(), vec!["a".to_string(), String::new()]);
}

#[test]
fn up_walks_dependencies_first() {
    let config = chain();
    let globals = GlobalArguments::new(Some("foo".to_string()));
    let dirs = run_all(&Commands::Up { args: Vec::new() }, &globals, &config);
    assert_eq!(dirs, vec!["base/baz", "base/bar", "base/foo"]);
}

#[test]
fn down_walks_dependants_first() {
    let config = chain();
    let globals = GlobalArguments::new(Some("baz".to_string()));
    let dirs = run_all(&Commands::Down { args: Vec::new() }, &globals, &config);
    assert_eq!(dirs, vec!["base/foo", "base/bar", "base/baz"]);
}

#[test]
fn explicit_selection_stays_verbatim() {
    let config = chain();
    let globals = GlobalArguments::new(Some("bar".to_string()));
    let dirs = run_all(&Commands::Build { args: Vec::new() }, &globals, &config);
    assert_eq!(dirs, vec!["base/bar"]);
}

#[test]
fn diamond_closure_order() {
    let config = load(
        "base".to_string(),
        None,
        vec![
            stack("bar", &["baz", "biz"]),
            stack("baz", &[]),
            stack("biz", &["baz"]),
            stack("foo", &["bar"]),
        ],
        Vec::new(),
    )
    .unwrap();
    let globals = GlobalArguments::new(Some("foo".to_string()));
    let dirs = run_all(&Commands::Create { args: Vec::new() }, &globals, &config);
    assert_eq!(dirs, vec!["base/baz", "base/biz", "base/bar", "base/foo"]);
}

#[test]
fn up_forces_wait_flag() {
    let config = chain();
    let globals = GlobalArguments::new(Some("baz".to_string()));
    let dispatch = Commands::Up {
        args: vec!["--detach".to_string()],
    }
    .run(&globals, &config)
    .unwrap();
    let options = dispatch.current().unwrap();
    assert_eq!(
        options.args(),
        vec!["compose", "-p", "baz", "up", "--wait", "--detach"]
    );
}

#[test]
fn restart_tears_down_then_brings_up() {
    let config = chain();
    let globals = GlobalArguments::new(Some("bar".to_string()));
    let mut dispatch = Commands::Restart { args: Vec::new() }
        .run(&globals, &config)
        .unwrap();
    let mut calls = Vec::new();
    while let Some(options) = dispatch.current() {
        calls.push(options.args().join(" "));
        dispatch.record(SpawnOutcome::Exited {
            success: true,
            status: "exit status: 0".to_string(),
        });
    }
    assert!(dispatch.result().is_ok());
    // Backward closure of bar is {bar, foo}: torn down dependants
    // first. Forward closure of bar is {bar, baz}: brought up in
    // dependency order, then foo, which was only torn down.
    assert_eq!(
        calls,
        vec![
            "compose -p foo down",
            "compose -p bar down",
            "compose -p baz up --wait",
            "compose -p bar up --wait",
            "compose -p foo up --wait",
        ]
    );
}

#[test]
fn single_stack_commands_require_one() {
    let config = chain();
    let globals = GlobalArguments::new(None);
    let e = Commands::Logs { args: Vec::new() }
        .run(&globals, &config)
        .err()
        .unwrap();
    assert_eq!(e.message(), "Only one stack can be used but 3 were provided.");

    let globals = GlobalArguments::new(Some("foo".to_string()));
    let dirs = run_all(&Commands::Logs { args: Vec::new() }, &globals, &config);
    assert_eq!(dirs, vec!["base/foo"]);
}

#[test]
fn unknown_selection_fails_every_command() {
    let config = chain();
    let globals = GlobalArguments::new(Some("biz".to_string()));
    let e = Commands::Up { args: Vec::new() }
        .run(&globals, &config)
        .err()
        .unwrap();
    assert_eq!(e.message(), "unknown stack \"biz\"");
}
