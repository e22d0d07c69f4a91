use std::cmp::Ordering;

use github_metrics::merge::find_and_insert;
use github_metrics::order::compare_days;
use github_metrics::traffic::GitHubMetricTrafficItem;

fn pt(day: &str, count: i64, uniques: i64) -> GitHubMetricTrafficItem {
    GitHubMetricTrafficItem::new(day, count, uniques)
}

fn flat(v: &Vec<GitHubMetricTrafficItem>) -> Vec<(String, i64, i64)> {
    v.iter().map(|p| (p.timestamp.clone(), p.count, p.uniques)).collect()
}

fn row(day: &str, count: i64, uniques: i64) -> (String, i64, i64) {
    (day.to_string(), count, uniques)
}

const D1: &str = "2024-03-01T00:00:00Z";
const D2: &str = "2024-03-02T00:00:00Z";
const D3: &str = "2024-03-03T00:00:00Z";
const D4: &str = "2024-03-04T00:00:00Z";

#[test]
fn compare_days_orders_as_strings() {
    let a = D1.to_string();
    let b = D2.to_string();
    assert_eq!(compare_days(&a, &b), Ordering::Less);
    assert_eq!(compare_days(&b, &a), Ordering::Greater);
    assert_eq!(compare_days(&a, &a.clone()), Ordering::Equal);
    let short = "2024-03-01".to_string();
    assert_eq!(compare_days(&short, &a), Ordering::Less);
    let ten = "2024-03-10".to_string();
    let nine = "2024-03-09".to_string();
    assert_eq!(compare_days(&nine, &ten), Ordering::Less);
}

#[test]
fn overwrite_takes_incoming_values() {
    let mut target = vec![pt(D1, 5, 2)];
    find_and_insert(&mut target, vec![pt(D1, 9, 4)]);
    assert_eq!(flat(&target), vec![row(D1, 9, 4)]);
}

#[test]
fn empty_target_takes_incoming_as_given() {
    let mut target: Vec<GitHubMetricTrafficItem> = Vec::new();
    find_and_insert(&mut target, vec![pt(D3, 1, 1), pt(D1, 2, 2), pt(D3, 7, 7)]);
    assert_eq!(flat(&target), vec![row(D3, 1, 1), row(D1, 2, 2), row(D3, 7, 7)]);
}

#[test]
fn empty_incoming_leaves_target_unchanged() {
    let mut target = vec![pt(D1, 1, 1), pt(D3, 3, 3)];
    find_and_insert(&mut target, Vec::new());
    assert_eq!(flat(&target), vec![row(D1, 1, 1), row(D3, 3, 3)]);
}

#[test]
fn new_days_go_in_day_order() {
    let mut target = vec![pt(D2, 2, 2)];
    find_and_insert(&mut target, vec![pt(D4, 4, 4), pt(D1, 1, 1), pt(D3, 3, 3)]);
    assert_eq!(
        flat(&target),
        vec![row(D1, 1, 1), row(D2, 2, 2), row(D3, 3, 3), row(D4, 4, 4)]
    );
}

#[test]
fn merging_twice_equals_merging_once() {
    let window = || vec![pt(D2, 5, 3), pt(D3, 1, 1)];
    let mut history = vec![pt(D1, 3, 2), pt(D2, 1, 1)];
    find_and_insert(&mut history, window());
    let once = flat(&history);
    find_and_insert(&mut history, window());
    assert_eq!(flat(&history), once);
    assert_eq!(once, vec![row(D1, 3, 2), row(D2, 5, 3), row(D3, 1, 1)]);
}

#[test]
fn permuted_window_gives_same_history() {
    let mut a = vec![pt(D2, 2, 2)];
    let mut b = vec![pt(D2, 2, 2)];
    find_and_insert(&mut a, vec![pt(D1, 1, 1), pt(D2, 6, 6), pt(D4, 4, 4)]);
    find_and_insert(&mut b, vec![pt(D4, 4, 4), pt(D1, 1, 1), pt(D2, 6, 6)]);
    assert_eq!(flat(&a), flat(&b));
    assert_eq!(flat(&a), vec![row(D1, 1, 1), row(D2, 6, 6), row(D4, 4, 4)]);
}

#[test]
fn repeated_day_in_window_last_one_wins() {
    let mut target = vec![pt(D1, 1, 1)];
    find_and_insert(&mut target, vec![pt(D2, 2, 2), pt(D2, 8, 5)]);
    assert_eq!(flat(&target), vec![row(D1, 1, 1), row(D2, 8, 5)]);
    let days: Vec<String> = target.iter().map(|p| p.timestamp.clone()).collect();
    let mut unique = days.clone();
    unique.dedup();
    assert_eq!(days, unique);
}

#[test]
fn repeated_merges_keep_one_point_per_day() {
    let mut history: Vec<GitHubMetricTrafficItem> = Vec::new();
    find_and_insert(&mut history, vec![pt(D2, 2, 2), pt(D1, 1, 1)]);
    find_and_insert(&mut history, vec![pt(D1, 3, 3), pt(D3, 3, 3), pt(D3, 4, 4)]);
    find_and_insert(&mut history, vec![pt(D4, 4, 4), pt(D2, 9, 9)]);
    assert_eq!(
        flat(&history),
        vec![row(D2, 9, 9), row(D1, 3, 3), row(D3, 4, 4), row(D4, 4, 4)]
    );
}
