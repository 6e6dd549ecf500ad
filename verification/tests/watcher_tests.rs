use watchmanx::config::{Config, TaskDefinition, WatchRule};
use watchmanx::debounce::ChangeBatch;
use watchmanx::watcher::{
    glob_answers, invalid_patterns, is_reload_request, joined_paths, manual_environment,
    batch_changed_paths, matches_rule, plan_batch, plan_event, reload_signal, respond_to_batch,
    rule_verdict,
    task_environment, text_contains, touches_path, FsEvent, TaskAction,
};

fn rule(patterns: &[&str], ignore: &[&str], tasks: &[&str]) -> WatchRule {
    WatchRule {
        path: ".".to_string(),
        recursive: true,
        patterns: patterns.iter().map(|p| p.to_string()).collect(),
        ignore: ignore.iter().map(|p| p.to_string()).collect(),
        tasks: tasks.iter().map(|t| t.to_string()).collect(),
    }
}

fn task(command: &str) -> TaskDefinition {
    TaskDefinition { command: command.to_string(), args: vec!["x".to_string()], cwd: None }
}

fn event(paths: &[Option<&str>]) -> FsEvent {
    FsEvent { is_access: false, paths: paths.iter().map(|p| p.map(|s| s.to_string())).collect() }
}

fn env(pairs: &[(&str, &str)]) -> Vec<(String, String)> {
    pairs.iter().map(|(k, v)| (k.to_string(), v.to_string())).collect()
}

#[test]
fn invalid_utf8_path_matches_nothing() {
    assert!(!matches_rule(None, &rule(&[], &[], &[])));
    assert!(!matches_rule(None, &rule(&["*"], &[], &[])));
}

#[test]
fn rule_without_patterns_matches_everything_even_ignored() {
    assert!(matches_rule(Some("/any/thing.txt"), &rule(&[], &["*"], &[])));
}

#[test]
fn include_pattern_must_hit() {
    let r = rule(&["**/*.rs"], &[], &[]);
    assert!(matches_rule(Some("/home/u/proj/src/main.rs"), &r));
    assert!(!matches_rule(Some("/home/u/proj/README.md"), &r));
}

#[test]
fn star_crosses_separators_by_default() {
    assert!(matches_rule(Some("src/deep/lib.rs"), &rule(&["*.rs"], &[], &[])));
    assert!(matches_rule(Some("cat"), &rule(&["c?t"], &[], &[])));
    assert!(matches_rule(Some("kitteh"), &rule(&["k[!e]tteh"], &[], &[])));
}

#[test]
fn ignore_pattern_wins() {
    let r = rule(&["**/*.rs"], &["**/target/**"], &[]);
    assert!(matches_rule(Some("/p/src/a.rs"), &r));
    assert!(!matches_rule(Some("/p/target/debug/build.rs"), &r));
}

#[test]
fn invalid_patterns_hit_nothing() {
    assert!(!matches_rule(Some("a"), &rule(&["***"], &[], &[])));
    assert!(!matches_rule(Some("[abc"), &rule(&["[abc"], &[], &[])));
    assert!(matches_rule(Some("a"), &rule(&["***", "a"], &[], &[])));
    assert!(matches_rule(Some("a.rs"), &rule(&["*.rs"], &["a**"], &[])));
}

#[test]
fn joined_paths_skip_invalid_ones() {
    assert_eq!(joined_paths(&vec![]), "");
    assert_eq!(joined_paths(&vec![Some("a".to_string())]), "a");
    assert_eq!(
        joined_paths(&vec![Some("a".to_string()), None, Some("b".to_string())]),
        "a,b"
    );
    assert_eq!(joined_paths(&vec![None, Some("".to_string()), Some("c".to_string())]), ",c");
}

#[test]
fn task_environment_holds_paths_and_name() {
    assert_eq!(
        task_environment("logger", "/a,/b"),
        env(&[("WATCHMANX_EVENT_PATHS", "/a,/b"), ("WATCHMANX_TASK_NAME", "logger")])
    );
}

fn sample_config() -> Config {
    let mut c = Config::new();
    c.add_rule(rule(&["**/*.rs"], &["**/target/**"], &["build", "test"]));
    c.add_rule(rule(&["**/*.md"], &[], &["docs", "nope"]));
    c.insert_task("build".to_string(), task("cargo"));
    c.insert_task("test".to_string(), task("cargo-test"));
    c.insert_task("docs".to_string(), task("mdbook"));
    c
}

fn describe(actions: &[TaskAction]) -> Vec<String> {
    actions
        .iter()
        .map(|a| match a {
            TaskAction::Run { task_name, task, .. } => format!("run {} {}", task_name, task.command),
            TaskAction::Missing { task_name } => format!("missing {}", task_name),
        })
        .collect()
}

#[test]
fn access_event_plans_nothing() {
    let c = sample_config();
    let mut e = event(&[Some("/p/src/a.rs")]);
    e.is_access = true;
    assert!(plan_event(&e, &c).is_empty());
}

#[test]
fn plan_follows_paths_rules_and_tasks_in_order() {
    let c = sample_config();
    let e = event(&[Some("/p/README.md"), None, Some("/p/src/a.rs"), Some("/p/target/x.rs")]);
    let actions = plan_event(&e, &c);
    assert_eq!(
        describe(&actions),
        vec!["run docs mdbook", "missing nope", "run build cargo", "run test cargo-test"]
    );
    match &actions[0] {
        TaskAction::Run { env: e, task, .. } => {
            assert_eq!(
                e,
                &env(&[
                    ("WATCHMANX_EVENT_PATHS", "/p/README.md,/p/src/a.rs,/p/target/x.rs"),
                    ("WATCHMANX_TASK_NAME", "docs")
                ])
            );
            assert_eq!(task.args, vec!["x"]);
        }
        _ => panic!("expected a run"),
    }
}

#[test]
fn unmatched_path_plans_nothing() {
    let c = sample_config();
    assert!(plan_event(&event(&[Some("/p/image.png")]), &c).is_empty());
}

#[test]
fn touching_the_config_file() {
    let e = event(&[Some("/p/a.rs"), Some("/p/watchmanx.yml")]);
    assert!(touches_path(&e, "/p/watchmanx.yml"));
    assert!(!touches_path(&e, "/p/watchmanx.json"));
    let mut a = event(&[Some("/p/watchmanx.yml")]);
    a.is_access = true;
    assert!(!touches_path(&a, "/p/watchmanx.yml"));
}

fn batch(changes: &[&[Option<&str>]]) -> ChangeBatch {
    ChangeBatch {
        changes: changes
            .iter()
            .map(|c| c.iter().map(|p| p.map(|s| s.to_string())).collect())
            .collect(),
    }
}

#[test]
fn config_change_asks_for_reload_after_the_tasks() {
    let c = sample_config();
    let b = batch(&[&[Some("/p/src/a.rs")], &[Some("/p/watchmanx.yml")]]);
    let r = respond_to_batch(&b, &c, Some("/p/watchmanx.yml"));
    assert!(r.reload);
    assert_eq!(describe(&r.actions), vec!["run build cargo", "run test cargo-test"]);
    let r = respond_to_batch(&b, &c, None);
    assert!(!r.reload);
    assert_eq!(r.actions.len(), 2);
    let r = respond_to_batch(&b, &c, Some("/q/watchmanx.yml"));
    assert!(!r.reload);
}

#[test]
fn a_burst_starts_each_task_once() {
    let mut c = Config::new();
    c.add_rule(rule(&[], &[], &["t"]));
    c.insert_task("t".to_string(), task("make"));
    let b = batch(&[&[Some("a.rs")], &[Some("b.rs")]]);
    let plan = plan_batch(&b, &c);
    assert_eq!(describe(&plan), vec!["run t make"]);
    match &plan[0] {
        TaskAction::Run { env: got, .. } => assert_eq!(
            *got,
            env(&[("WATCHMANX_EVENT_PATHS", "a.rs,b.rs"), ("WATCHMANX_TASK_NAME", "t")])
        ),
        _ => panic!("expected a run"),
    }
}

#[test]
fn a_single_change_runs_what_it_would_alone() {
    let mut c = Config::new();
    c.add_rule(rule(&[], &[], &["t", "u", "t"]));
    c.add_rule(rule(&["*.rs"], &[], &["t"]));
    c.insert_task("t".to_string(), task("make"));
    let one = batch(&[&[Some("a.rs"), Some("b.md")]]);
    let e = event(&[Some("a.rs"), Some("b.md")]);
    assert_eq!(describe(&plan_batch(&one, &c)), describe(&plan_event(&e, &c)));
    assert_eq!(
        describe(&plan_batch(&one, &c)),
        vec!["run t make", "missing u", "run t make", "run t make", "run t make", "missing u", "run t make"]
    );
}

#[test]
fn later_changes_add_only_new_tasks() {
    let c = sample_config();
    let b = batch(&[
        &[Some("/p/README.md")],
        &[Some("/p/src/a.rs"), Some("/p/NOTES.md")],
        &[Some("/p/src/b.rs")],
    ]);
    assert_eq!(
        describe(&plan_batch(&b, &c)),
        vec!["run docs mdbook", "missing nope", "run build cargo", "run test cargo-test"]
    );
    assert!(plan_batch(&batch(&[]), &c).is_empty());
}

#[test]
fn batch_paths_are_listed_once() {
    let b = batch(&[&[Some("a"), None, Some("b")], &[Some("a")], &[Some("c"), Some("b")]]);
    assert_eq!(batch_changed_paths(&b), "a,b,c");
    assert_eq!(batch_changed_paths(&batch(&[])), "");
}

#[test]
fn manual_runs_get_the_task_name() {
    assert_eq!(
        manual_environment("build"),
        env(&[("WATCHMANX_EVENT_PATHS", ""), ("WATCHMANX_TASK_NAME", "build")])
    );
}

#[test]
fn invalid_selecting_patterns_are_listed() {
    let mut c = Config::new();
    c.add_rule(rule(&["*.rs", "***"], &["[bad"], &[]));
    c.add_rule(rule(&["a/**b", "*.md"], &[], &[]));
    assert_eq!(invalid_patterns(&c), vec!["***", "a/**b"]);
    assert!(invalid_patterns(&Config::new()).is_empty());
}

#[test]
fn reload_requests_are_recognised() {
    assert_eq!(reload_signal(), "RELOAD_CONFIG");
    assert!(is_reload_request("RELOAD_CONFIG"));
    assert!(is_reload_request("watcher stopped: RELOAD_CONFIG (config changed)"));
    assert!(!is_reload_request("RELOAD_CONFI"));
    assert!(!is_reload_request("reload_config"));
    assert!(!is_reload_request(""));
}

#[test]
fn substring_search() {
    assert!(text_contains("abc", ""));
    assert!(text_contains("abc", "abc"));
    assert!(text_contains("xxabcxx", "bc"));
    assert!(!text_contains("ab", "abc"));
    assert!(text_contains("äöü", "öü"));
    assert!(!text_contains("aab", "abb"));
}

#[test]
fn glob_answers_per_pattern() {
    let pats = vec!["*.rs".to_string(), "***".to_string(), "*.md".to_string(), "[x".to_string()];
    assert_eq!(glob_answers(&pats, "lib.rs"), vec![Some(true), None, Some(false), None]);
    assert!(glob_answers(&vec![], "lib.rs").is_empty());
}

#[test]
fn verdict_from_answers() {
    assert!(!rule_verdict(false, &vec![], &vec![]));
    assert!(rule_verdict(true, &vec![], &vec![Some(true)]));
    assert!(rule_verdict(true, &vec![None, Some(true)], &vec![Some(false), None]));
    assert!(!rule_verdict(true, &vec![None, Some(false)], &vec![]));
    assert!(!rule_verdict(true, &vec![Some(true)], &vec![None, Some(true)]));
}
