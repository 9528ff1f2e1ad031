use stacks::config::{load, Config, Stack};

fn stack(key: &str, name: &str, deps: &[&str]) -> Stack {
    Stack {
        key: key.to_string(),
        name: name.to_string(),
        directory: None,
        file: None,
        dependencies: deps.iter().map(|d| d.to_string()).collect(),
        dependants: Vec::new(),
        environment: Vec::new(),
    }
}

fn cfg(entries: Vec<Stack>) -> Result<Config, String> {
    match load(String::new(), None, entries, Vec::new()) {
        Ok(c) => Ok(c),
        Err(e) => Err(e.message()),
    }
}

fn keys(stacks: Vec<Stack>) -> Vec<String> {
    stacks.iter().map(|s| s.key.clone()).collect()
}

#[test]
fn name() {
    let config = cfg(vec![stack("bar", "", &[]), stack("foo", "baz", &[])]).unwrap();

    let stacks = config
        .stacks(&vec!["foo".to_string(), "bar".to_string()])
        .unwrap();
    assert_eq!(stacks.len(), 2);
    let stack = stacks.get(0).unwrap();
    assert_eq!(stack.name, "bar");
    let stack = stacks.get(1).unwrap();
    assert_eq!(stack.name, "baz");
}

fn chain() -> Config {
    cfg(vec![
        stack("bar", "", &["baz"]),
        stack("baz", "", &[]),
        stack("foo", "", &["bar"]),
    ])
    .unwrap()
}

#[test]
fn config_stacks() {
    let config = chain();
    let list: Vec<String> = Vec::new();
    let stacks = keys(config.stacks(&list).unwrap());
    assert_eq!(
        stacks,
        vec!["bar".to_string(), "baz".to_string(), "foo".to_string()]
    );

    let stacks = keys(config.stacks(&vec!["bar".to_string()]).unwrap());
    assert_eq!(stacks, vec!["bar".to_string()]);

    let stacks = keys(
        config
            .stacks_with_dependencies(&vec!["baz".to_string()])
            .unwrap(),
    );
    assert_eq!(stacks, vec!["baz".to_string()]);
    let stacks = keys(
        config
            .stacks_with_dependants(&vec!["baz".to_string()])
            .unwrap(),
    );
    assert_eq!(
        stacks,
        vec!["baz".to_string(), "bar".to_string(), "foo".to_string()]
    );

    let stacks = keys(
        config
            .stacks_with_dependencies(&vec!["bar".to_string()])
            .unwrap(),
    );
    assert_eq!(stacks, vec!["baz".to_string(), "bar".to_string()]);
    let stacks = keys(
        config
            .stacks_with_dependants(&vec!["bar".to_string()])
            .unwrap(),
    );
    assert_eq!(stacks, vec!["bar".to_string(), "foo".to_string()]);

    let stacks = keys(
        config
            .stacks_with_dependencies(&vec!["foo".to_string()])
            .unwrap(),
    );
    assert_eq!(
        stacks,
        vec!["baz".to_string(), "bar".to_string(), "foo".to_string()]
    );
    let stacks = keys(
        config
            .stacks_with_dependants(&vec!["foo".to_string()])
            .unwrap(),
    );
    assert_eq!(stacks, vec!["foo".to_string()]);

    assert_eq!(
        config
            .stacks(&vec!["bar".to_string(), "biz".to_string()])
            .err()
            .unwrap()
            .message(),
        "unknown stack \"biz\""
    );

    let error = cfg(vec![stack("foo", "", &["baz"])]).err().unwrap();
    assert_eq!(&error, "invalid dependency: \"baz\" is not a known stack");

    let error = cfg(vec![stack("baz", "", &["foo"]), stack("foo", "", &["baz"])])
        .err()
        .unwrap();
    assert_eq!(
        &error,
        "invalid dependency cycle: \"foo\" cannot depend on \"baz\""
    );

    let error = cfg(vec![
        stack("bar", "", &["baz"]),
        stack("baz", "", &["foo"]),
        stack("foo", "", &["bar"]),
    ])
    .err()
    .unwrap();
    assert_eq!(
        &error,
        "invalid dependency cycle: \"foo\" cannot depend on \"bar\""
    );

    let config = cfg(vec![
        stack("bar", "", &["baz", "biz"]),
        stack("baz", "", &[]),
        stack("biz", "", &["baz"]),
        stack("foo", "", &["bar"]),
    ])
    .unwrap();
    let stacks = keys(
        config
            .stacks_with_dependencies(&vec!["foo".to_string()])
            .unwrap(),
    );
    assert_eq!(
        stacks,
        vec![
            "baz".to_string(),
            "biz".to_string(),
            "bar".to_string(),
            "foo".to_string()
        ]
    );

    let stacks = keys(config.stacks(&vec!["bar".to_string()]).unwrap());
    assert_eq!(stacks, vec!["bar".to_string()]);
}

#[test]
fn dependants_are_inverse() {
    let config = chain();
    let all: Vec<String> = Vec::new();
    let stacks = config.stacks(&all).unwrap();
    // key order: bar, baz, foo
    assert_eq!(stacks[0].dependants, vec!["foo".to_string()]);
    assert_eq!(stacks[1].dependants, vec!["bar".to_string()]);
    assert_eq!(stacks[2].dependants, Vec::<String>::new());
}

#[test]
fn teardown_order_reversed() {
    let config = chain();
    let ordered = config
        .stacks_with_dependants(&vec!["baz".to_string()])
        .unwrap();
    let teardown: Vec<Stack> = ordered.into_iter().rev().collect();
    assert_eq!(
        keys(teardown),
        vec!["foo".to_string(), "bar".to_string(), "baz".to_string()]
    );
}

#[test]
fn unknown_stack_among_valid_names() {
    let config = chain();
    let e = config
        .stacks_with_dependencies(&vec![
            "foo".to_string(),
            "nope".to_string(),
            "bar".to_string(),
        ])
        .err()
        .unwrap();
    assert_eq!(e.message(), "unknown stack \"nope\"");
    let e = config
        .stacks_with_dependants(&vec!["nope".to_string()])
        .err()
        .unwrap();
    assert_eq!(e.message(), "unknown stack \"nope\"");
    let e = config.stack(&vec!["nope".to_string()]).err().unwrap();
    assert_eq!(e.message(), "unknown stack \"nope\"");
}

#[test]
fn single_stack_counts() {
    let config = chain();
    let one = config.stack(&vec!["bar".to_string()]).unwrap();
    assert_eq!(keys(one), vec!["bar".to_string()]);

    let e = config.stack(&Vec::new()).err().unwrap();
    assert_eq!(e.message(), "Only one stack can be used but 3 were provided.");

    let e = config
        .stack(&vec!["bar".to_string(), "foo".to_string()])
        .err()
        .unwrap();
    assert_eq!(e.message(), "Only one stack can be used but 2 were provided.");

    let empty = cfg(Vec::new()).unwrap();
    let e = empty.stack(&Vec::new()).err().unwrap();
    assert_eq!(e.message(), "Only one stack can be used but 0 were provided.");
}

#[test]
fn count_error_renders_decimal() {
    let mut entries = Vec::new();
    for i in 0..12 {
        entries.push(stack(&format!("k{:02}", i), "", &[]));
    }
    let config = cfg(entries).unwrap();
    let e = config.stack(&Vec::new()).err().unwrap();
    assert_eq!(
        e.message(),
        "Only one stack can be used but 12 were provided."
    );
}

#[test]
fn directories_resolve_under_base() {
    let mut s = stack("web", "", &[]);
    assert_eq!(s.directory(&"base".to_string()), "base/web");
    s.directory = Some("elsewhere".to_string());
    assert_eq!(s.directory(&"base".to_string()), "base/elsewhere");
}

#[test]
fn command_template_defaults() {
    let c = load(String::new(), None, Vec::new(), Vec::new()).unwrap();
    assert_eq!(c.command, vec!["docker".to_string(), "compose".to_string()]);

    let c = load(
        String::new(),
        Some(vec!["podman-compose".to_string()]),
        Vec::new(),
        Vec::new(),
    )
    .unwrap();
    assert_eq!(c.command, vec!["podman-compose".to_string()]);

    let c = load(String::new(), Some(Vec::new()), Vec::new(), Vec::new()).unwrap();
    assert_eq!(c.command, vec!["docker".to_string(), "compose".to_string()]);
}

#[test]
fn self_dependency_is_a_cycle() {
    let error = cfg(vec![stack("foo", "", &["foo"])]).err().unwrap();
    assert_eq!(
        &error,
        "invalid dependency cycle: \"foo\" cannot depend on \"foo\""
    );
}
