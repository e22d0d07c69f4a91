//! What becomes of the outcome of loading the persisted history.
//!
//! Two callers read the store under different policies: the exposition side
//! surfaces every failure except a missing file, while a sync cycle falls back
//! to an empty history on any failure.
use vstd::prelude::*;

use crate::stats::GitHubRepoStats;

verus! {

/// Why the persisted history could not be loaded.
#[derive(Debug, Clone)]
pub enum StoreError {
    /// The backing file does not exist (the first run).
    NotFound,
    /// The backing file exists but could not be read.
    Unreadable(String),
    /// The backing file's contents are not a valid history.
    Malformed(String),
}

impl StoreError {
    /// A description of the error.
    pub fn message(&self) -> (r: String)
        ensures
            self matches StoreError::Unreadable(m) ==> r@ == m@,
            self matches StoreError::Malformed(m) ==> r@ == m@,
            self matches StoreError::NotFound ==> r@ == "backing file not found"@,
    {
        match self {
            StoreError::NotFound => "backing file not found".to_owned(),
            StoreError::Unreadable(m) => m.clone(),
            StoreError::Malformed(m) => m.clone(),
        }
    }
}

/// Loads under the surfacing policy: a missing backing file is an empty
/// history; any other failure is handed back unchanged.
pub fn read_persisted_stats(loaded: Result<GitHubRepoStats, StoreError>) -> (r: Result<
    GitHubRepoStats,
    StoreError,
>)
    requires
        loaded matches Ok(s) ==> s.wf(),
    ensures
        loaded matches Ok(s) ==> r matches Ok(t) && t.wf() && t@ == s@,
        loaded matches Err(StoreError::NotFound) ==> r matches Ok(t) && t.wf() && t@.is_empty(),
        loaded matches Err(StoreError::Unreadable(m)) ==> r matches Err(StoreError::Unreadable(n))
            && n@ == m@,
        loaded matches Err(StoreError::Malformed(m)) ==> r matches Err(StoreError::Malformed(n))
            && n@ == m@,
{
    match loaded {
        Ok(s) => Ok(s),
        Err(StoreError::NotFound) => Ok(GitHubRepoStats::new()),
        Err(e) => Err(e),
    }
}

/// Loads under the fallback policy of a sync cycle: any failure gives the
/// empty history.
pub fn stats_or_empty(loaded: Result<GitHubRepoStats, StoreError>) -> (r: GitHubRepoStats)
    requires
        loaded matches Ok(s) ==> s.wf(),
    ensures
        r.wf(),
        loaded matches Ok(s) ==> r@ == s@,
        loaded is Err ==> r@.is_empty(),
{
    match loaded {
        Ok(s) => s,
        Err(_) => GitHubRepoStats::new(),
    }
}

} // verus!
