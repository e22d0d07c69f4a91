use github_metrics::server::{traffics_response, WebServer};
use github_metrics::stats::GitHubRepoStats;
use github_metrics::store::{read_persisted_stats, stats_or_empty, StoreError};
use github_metrics::sync::{
    check_access, GitHubAccessError, GitHubClient, GitHubRepo, GitHubTrafficsSync,
};
use github_metrics::traffic::{
    GitHubMetricTrafficClones, GitHubMetricTrafficItem, GitHubMetricTrafficViews,
    GitHubRepoTraffics,
};

const DAY1: &str = "2024-05-01T00:00:00Z";
const DAY2: &str = "2024-05-02T00:00:00Z";

fn pt(day: &str, count: i64, uniques: i64) -> GitHubMetricTrafficItem {
    GitHubMetricTrafficItem::new(day, count, uniques)
}

fn flat(v: &Vec<GitHubMetricTrafficItem>) -> Vec<(String, i64, i64)> {
    v.iter().map(|p| (p.timestamp.clone(), p.count, p.uniques)).collect()
}

fn clones(items: Vec<GitHubMetricTrafficItem>) -> GitHubMetricTrafficClones {
    GitHubMetricTrafficClones { count: 0, uniques: 0, clones: items }
}

fn views(items: Vec<GitHubMetricTrafficItem>) -> GitHubMetricTrafficViews {
    GitHubMetricTrafficViews { count: 0, uniques: 0, views: items }
}

fn syncer(repos: &[&str]) -> GitHubTrafficsSync {
    let mut s = GitHubTrafficsSync::new(GitHubClient::new("user", "SECRET-REDACTED"), "db.json");
    for r in repos {
        s.add_repo(r);
    }
    s
}

#[test]
fn missing_store_loads_as_empty_history() {
    let r = read_persisted_stats(Err(StoreError::NotFound));
    let stats = r.expect("a missing file is no error");
    assert_eq!(stats.len(), 0);
}

#[test]
fn malformed_store_is_surfaced_on_read() {
    let r = read_persisted_stats(Err(StoreError::Malformed("bad json".to_string())));
    match r {
        Err(StoreError::Malformed(m)) => assert_eq!(m, "bad json"),
        _ => panic!("expected the parse error"),
    }
}

#[test]
fn malformed_store_falls_back_to_empty_in_a_cycle() {
    let stats = stats_or_empty(Err(StoreError::Malformed("bad json".to_string())));
    assert_eq!(stats.len(), 0);
    let stats = stats_or_empty(Err(StoreError::Unreadable("denied".to_string())));
    assert_eq!(stats.len(), 0);
}

#[test]
fn end_to_end_cycle_overwrites_and_appends() {
    let mut history = GitHubRepoStats::new();
    history.insert(
        "repoA".to_string(),
        GitHubRepoTraffics { clones: vec![pt(DAY1, 3, 2)], views: Vec::new() },
    );
    let sync = syncer(&["repoA"]);
    let mut cycle = sync.start_cycle(Ok(history));
    assert_eq!(sync.next_repo(&cycle).map(|s| s.as_str()), Some("repoA"));
    sync.record(&mut cycle, clones(vec![pt(DAY1, 5, 3), pt(DAY2, 1, 1)]), views(Vec::new()));
    assert!(sync.next_repo(&cycle).is_none());
    let saved = sync.finish_cycle(cycle).expect("every repository was processed");
    let a = saved.get(&"repoA".to_string()).expect("repoA is kept");
    assert_eq!(
        flat(&a.clones),
        vec![(DAY1.to_string(), 5, 3), (DAY2.to_string(), 1, 1)]
    );
    assert!(a.views.is_empty());
}

#[test]
fn failed_fetch_leaves_nothing_to_save() {
    let sync = syncer(&["repoA", "repoB"]);
    let mut cycle = sync.start_cycle(Err(StoreError::NotFound));
    sync.record(&mut cycle, clones(vec![pt(DAY1, 1, 1)]), views(vec![pt(DAY1, 2, 2)]));
    assert_eq!(sync.next_repo(&cycle).map(|s| s.as_str()), Some("repoB"));
    // the fetch for repoB fails here: the cycle is ended without it
    assert!(sync.finish_cycle(cycle).is_none());
}

#[test]
fn complete_cycle_holds_every_repository() {
    let sync = syncer(&["repoA", "repoB"]);
    let mut cycle = sync.start_cycle(Err(StoreError::NotFound));
    sync.record(&mut cycle, clones(vec![pt(DAY1, 1, 1)]), views(vec![pt(DAY1, 2, 2)]));
    sync.record(&mut cycle, clones(vec![pt(DAY2, 3, 3)]), views(Vec::new()));
    let saved = sync.finish_cycle(cycle).expect("complete cycle");
    assert_eq!(saved.len(), 2);
    let a = saved.get(&"repoA".to_string()).unwrap();
    let b = saved.get(&"repoB".to_string()).unwrap();
    assert_eq!(flat(&a.views), vec![(DAY1.to_string(), 2, 2)]);
    assert_eq!(flat(&b.clones), vec![(DAY2.to_string(), 3, 3)]);
}

#[test]
fn forbidden_status_is_an_access_error() {
    assert_eq!(check_access(403), Err(GitHubAccessError::AccessForbidden));
    assert_eq!(check_access(200), Ok(()));
    assert_eq!(GitHubAccessError::AccessForbidden.message(), "403 Access Forbidden");
}

#[test]
fn only_public_non_fork_repos_are_tracked() {
    let repo = |name: &str, private: bool, fork: bool| GitHubRepo {
        id: 1,
        name: name.to_string(),
        full_name: format!("me/{}", name),
        private,
        fork,
    };
    let mut sync = syncer(&[]);
    sync.add_tracked_repos(&vec![
        repo("a", false, false),
        repo("b", true, false),
        repo("c", false, true),
        repo("d", false, false),
    ]);
    assert_eq!(sync.repos_to_sync, vec!["me/a".to_string(), "me/d".to_string()]);
}

#[test]
fn stats_insert_replaces_a_repository() {
    let mut s = GitHubRepoStats::new();
    s.insert("r".to_string(), GitHubRepoTraffics::new());
    s.insert(
        "r".to_string(),
        GitHubRepoTraffics { clones: vec![pt(DAY1, 1, 1)], views: Vec::new() },
    );
    assert_eq!(s.len(), 1);
    assert_eq!(s.get(&"r".to_string()).unwrap().clones.len(), 1);
    assert!(s.get(&"other".to_string()).is_none());
}

#[test]
fn read_endpoint_reports_ok_or_err() {
    let ok = traffics_response(Err(StoreError::NotFound));
    assert_eq!(ok.code.as_deref(), Some("ok"));
    assert!(ok.message.is_none());
    assert_eq!(ok.data.map(|d| d.len()), Some(0));
    let mut h = GitHubRepoStats::new();
    h.insert("r".to_string(), GitHubRepoTraffics::new());
    let loaded = traffics_response(Ok(h));
    assert_eq!(loaded.code.as_deref(), Some("ok"));
    assert!(loaded.message.is_none());
    assert_eq!(loaded.data.map(|d| d.len()), Some(1));
    let err = traffics_response(Err(StoreError::Unreadable("denied".to_string())));
    assert_eq!(err.code.as_deref(), Some("err"));
    assert_eq!(err.message.as_deref(), Some("denied"));
    assert!(err.data.is_none());
    assert_eq!(WebServer::new("db.json").db_file, "db.json");
}

#[test]
fn corrupt_store_cycle_keeps_only_fetched_windows() {
    let sync = syncer(&["repoA"]);
    let mut cycle = sync.start_cycle(Err(StoreError::Malformed("bad json".to_string())));
    sync.record(&mut cycle, clones(vec![pt(DAY1, 1, 1), pt(DAY2, 2, 2)]), views(vec![pt(DAY2, 4, 3)]));
    let saved = sync.finish_cycle(cycle).expect("complete cycle");
    assert_eq!(saved.len(), 1);
    let a = saved.get(&"repoA".to_string()).unwrap();
    assert_eq!(flat(&a.clones), vec![(DAY1.to_string(), 1, 1), (DAY2.to_string(), 2, 2)]);
    assert_eq!(flat(&a.views), vec![(DAY2.to_string(), 4, 3)]);
}
