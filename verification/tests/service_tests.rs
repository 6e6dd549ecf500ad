use watchmanx::config::{Config, TaskDefinition, WatchRule};
use watchmanx::debounce::{Debouncer, DEBOUNCE_WINDOW_MS};
use watchmanx::plugins::{filter_verdict, FilterReply};
use watchmanx::rpc::{status_response, trigger_response};
use watchmanx::watcher::FsEvent;

fn change(paths: &[Option<&str>]) -> FsEvent {
    FsEvent { is_access: false, paths: paths.iter().map(|p| p.map(|s| s.to_string())).collect() }
}

#[test]
fn status_counts_rules_and_tasks() {
    let mut c = Config::new();
    c.add_rule(WatchRule {
        path: ".".to_string(),
        recursive: true,
        patterns: vec![],
        ignore: vec![],
        tasks: vec![],
    });
    c.insert_task("a".to_string(), TaskDefinition { command: "echo".to_string(), args: vec![], cwd: None });
    c.insert_task("b".to_string(), TaskDefinition { command: "ls".to_string(), args: vec![], cwd: None });
    let s = status_response(&c);
    assert_eq!(s.version, "0.1.0");
    assert_eq!(s.rules_count, 1);
    assert_eq!(s.tasks_count, 2);
}

#[test]
fn trigger_known_and_unknown_tasks() {
    let mut c = Config::new();
    c.insert_task(
        "build".to_string(),
        TaskDefinition { command: "cargo".to_string(), args: vec!["build".to_string()], cwd: None },
    );
    let (ok, t) = trigger_response(&c, "build");
    assert!(ok.success);
    assert_eq!(ok.message, "Task build triggered successfully");
    assert_eq!(t.unwrap().args, vec!["build"]);
    let (missing, none) = trigger_response(&c, "deploy");
    assert!(!missing.success);
    assert_eq!(missing.message, "Task deploy not found");
    assert!(none.is_none());
}

#[test]
fn filter_plugin_verdicts() {
    assert!(filter_verdict(FilterReply::NoPlugin));
    assert!(filter_verdict(FilterReply::NoFilter));
    assert!(filter_verdict(FilterReply::CallFailed));
    assert!(filter_verdict(FilterReply::Returned(None)));
    assert!(filter_verdict(FilterReply::Returned(Some(1))));
    assert!(filter_verdict(FilterReply::Returned(Some(-7))));
    assert!(!filter_verdict(FilterReply::Returned(Some(0))));
}

#[test]
fn burst_is_grouped_into_one_batch() {
    let mut d = Debouncer::new(DEBOUNCE_WINDOW_MS);
    assert_eq!(d.wait_ms(0), None);
    d.record(&change(&[Some("a.rs")]), 1000);
    d.record(&change(&[Some("b.rs"), Some("a.rs")]), 1300);
    d.record(&change(&[None, Some("a.rs")]), 1700);
    assert!(!d.is_due(2199));
    assert!(d.flush(2199).is_none());
    assert_eq!(d.wait_ms(2000), Some(200));
    assert!(d.is_due(2200));
    let batch = d.flush(2200).expect("a batch is due");
    assert_eq!(
        batch.changes,
        vec![
            vec![Some("a.rs".to_string())],
            vec![Some("b.rs".to_string()), Some("a.rs".to_string())],
            vec![None, Some("a.rs".to_string())],
        ]
    );
    assert!(d.flush(10_000).is_none());
    assert_eq!(d.wait_ms(10_000), None);
}

#[test]
fn access_does_not_restart_the_window() {
    let mut d = Debouncer::new(500);
    d.record(&change(&[Some("a")]), 100);
    let mut access = change(&[Some("b")]);
    access.is_access = true;
    d.record(&access, 550);
    let batch = d.flush(600).unwrap();
    assert_eq!(batch.changes, vec![vec![Some("a".to_string())]]);
}

#[test]
fn every_change_restarts_the_window() {
    let mut d = Debouncer::new(500);
    assert!(d.flush(1_000_000).is_none());
    d.record(&change(&[None]), 0);
    assert!(d.is_due(500));
    d.record(&change(&[Some("x")]), 10);
    d.record(&change(&[None]), 400);
    assert!(!d.is_due(899));
    assert!(d.is_due(900));
    assert_eq!(d.flush(900).unwrap().changes.len(), 3);
}

#[test]
fn wait_is_capped_near_the_end_of_time() {
    let mut d = Debouncer::new(500);
    d.record(&change(&[Some("x")]), u64::MAX - 100);
    assert_eq!(d.wait_ms(u64::MAX - 100), Some(500));
    assert_eq!(d.wait_ms(0), Some(u64::MAX));
    assert!(!d.is_due(u64::MAX));
    let mut e = Debouncer::new(u64::MAX);
    e.record(&change(&[Some("x")]), 5);
    assert_eq!(e.wait_ms(10), Some(u64::MAX - 5));
}
