//! The traffic records: one point per day and metric kind.
use vstd::prelude::*;

verus! {

/// One day's total and unique count for one metric kind of one repository.
#[derive(Debug, Clone)]
pub struct GitHubMetricTrafficItem {
    pub timestamp: String,
    pub count: i64,
    pub uniques: i64,
}

/// The history of one repository: a time series per metric kind.
#[derive(Debug, Clone)]
pub struct GitHubRepoTraffics {
    pub clones: Vec<GitHubMetricTrafficItem>,
    pub views: Vec<GitHubMetricTrafficItem>,
}

/// The clones window that the hosting service reports for one repository.
#[derive(Debug, Clone)]
pub struct GitHubMetricTrafficClones {
    pub count: i64,
    pub uniques: i64,
    pub clones: Vec<GitHubMetricTrafficItem>,
}

/// The views window that the hosting service reports for one repository.
#[derive(Debug, Clone)]
pub struct GitHubMetricTrafficViews {
    pub count: i64,
    pub uniques: i64,
    pub views: Vec<GitHubMetricTrafficItem>,
}

impl GitHubMetricTrafficItem {
    pub fn new(timestamp: &str, count: i64, uniques: i64) -> (r: Self)
        ensures
            r.timestamp@ == timestamp@,
            r.count == count,
            r.uniques == uniques,
    {
        GitHubMetricTrafficItem { timestamp: timestamp.to_owned(), count, uniques }
    }
}

impl GitHubRepoTraffics {
    /// A repository with no recorded traffic yet.
    pub fn new() -> (r: Self)
        ensures
            r.clones@.len() == 0,
            r.views@.len() == 0,
    {
        GitHubRepoTraffics { clones: Vec::new(), views: Vec::new() }
    }
}

} // verus!
