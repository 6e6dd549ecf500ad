use watchmanx::config::{
    config_format, default_config_candidates, select_config_path, task_listing, task_operation,
    Config, ConfigFormat, TaskDefinition, TaskOperation, WatchRule,
};

fn task(command: &str, args: &[&str], cwd: Option<&str>) -> TaskDefinition {
    TaskDefinition {
        command: command.to_string(),
        args: args.iter().map(|a| a.to_string()).collect(),
        cwd: cwd.map(|c| c.to_string()),
    }
}

fn rule(patterns: &[&str], ignore: &[&str], tasks: &[&str]) -> WatchRule {
    WatchRule {
        path: "./src".to_string(),
        recursive: true,
        patterns: patterns.iter().map(|p| p.to_string()).collect(),
        ignore: ignore.iter().map(|p| p.to_string()).collect(),
        tasks: tasks.iter().map(|t| t.to_string()).collect(),
    }
}

#[test]
fn default_config_is_empty() {
    let c = Config::default();
    assert_eq!(c.watch().len(), 0);
    assert_eq!(c.tasks_len(), 0);
    assert!(c.task("build-test").is_none());
    assert!(c.names().is_empty());
}

#[test]
fn task_read_after_write() {
    let mut c = Config::new();
    c.insert_task("build-test".to_string(), task("cargo", &["test", "--color", "always"], Some(".")));
    let t = c.task("build-test").expect("task defined");
    assert_eq!(t.command, "cargo");
    assert_eq!(t.args, vec!["test", "--color", "always"]);
    assert_eq!(t.cwd.as_deref(), Some("."));
    assert!(c.task("build").is_none());
    assert_eq!(c.tasks_len(), 1);
}

#[test]
fn redefining_a_task_replaces_it_and_keeps_others() {
    let mut c = Config::new();
    c.insert_task("a".to_string(), task("echo", &["one"], None));
    c.insert_task("b".to_string(), task("ls", &[], None));
    c.insert_task("a".to_string(), task("echo", &["two"], Some("/tmp")));
    assert_eq!(c.tasks_len(), 2);
    let a = c.task("a").unwrap();
    assert_eq!(a.args, vec!["two"]);
    assert_eq!(a.cwd.as_deref(), Some("/tmp"));
    assert_eq!(c.task("b").unwrap().command, "ls");
    let mut names = c.names();
    names.sort();
    assert_eq!(names, vec!["a", "b"]);
}

#[test]
fn rules_keep_their_order() {
    let mut c = Config::new();
    c.add_rule(rule(&["**/*.rs"], &[], &["x"]));
    c.add_rule(rule(&[], &[], &["y"]));
    assert_eq!(c.watch().len(), 2);
    assert_eq!(c.watch()[0].tasks, vec!["x"]);
    assert_eq!(c.watch()[1].tasks, vec!["y"]);
}

#[test]
fn duplicate_copies_every_field() {
    let t = task("cargo", &["build", "--release"], Some("/work"));
    let d = t.duplicate();
    assert_eq!(d.command, t.command);
    assert_eq!(d.args, t.args);
    assert_eq!(d.cwd, t.cwd);
}

#[test]
fn format_follows_the_extension() {
    assert_eq!(config_format("watchmanx.json"), ConfigFormat::Json);
    assert_eq!(config_format("watchmanx.toml"), ConfigFormat::Toml);
    assert_eq!(config_format("watchmanx.yml"), ConfigFormat::Yaml);
    assert_eq!(config_format("watchmanx.yaml"), ConfigFormat::Yaml);
    assert_eq!(config_format("conf/settings.json"), ConfigFormat::Json);
    assert_eq!(config_format("watchmanx"), ConfigFormat::Yaml);
    assert_eq!(config_format("archive.json.bak"), ConfigFormat::Yaml);
    assert_eq!(config_format(".json"), ConfigFormat::Yaml);
}

#[test]
fn extension_to_format() {
    assert_eq!(ConfigFormat::from_extension(Some("json")), ConfigFormat::Json);
    assert_eq!(ConfigFormat::from_extension(Some("toml")), ConfigFormat::Toml);
    assert_eq!(ConfigFormat::from_extension(Some("JSON")), ConfigFormat::Yaml);
    assert_eq!(ConfigFormat::from_extension(None), ConfigFormat::Yaml);
}

#[test]
fn default_candidates_in_search_order() {
    assert_eq!(
        default_config_candidates(),
        vec!["watchmanx.yml", "watchmanx.yaml", "watchmanx.json", "watchmanx.toml"]
    );
}

#[test]
fn explicit_config_path_wins() {
    assert_eq!(
        select_config_path(Some("custom.json"), &vec![true, true, true, true]),
        Some("custom.json".to_string())
    );
}

#[test]
fn first_existing_default_is_chosen() {
    assert_eq!(
        select_config_path(None, &vec![false, true, true, false]),
        Some("watchmanx.yaml".to_string())
    );
    assert_eq!(
        select_config_path(None, &vec![false, false, false, true]),
        Some("watchmanx.toml".to_string())
    );
}

#[test]
fn no_config_file_found() {
    assert_eq!(select_config_path(None, &vec![false, false, false, false]), None);
    assert_eq!(select_config_path(None, &vec![]), None);
}

#[test]
fn task_list_lines() {
    let mut c = Config::new();
    c.insert_task("build-test".to_string(), task("cargo", &["test", "--color", "always"], Some(".")));
    c.insert_task("logger".to_string(), task("echo", &[], None));
    let mut lines = task_listing(&c);
    lines.sort();
    assert_eq!(lines, vec!["build-test: cargo test --color always", "logger: echo"]);
    assert!(task_listing(&Config::new()).is_empty());
}

#[test]
fn task_operations() {
    assert_eq!(task_operation("list"), TaskOperation::List);
    assert_eq!(task_operation("add"), TaskOperation::Unsupported);
    assert_eq!(task_operation("List"), TaskOperation::Unsupported);
}
