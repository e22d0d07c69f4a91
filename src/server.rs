//! The read-only exposition of the persisted history.
use vstd::prelude::*;

use crate::stats::GitHubRepoStats;
use crate::store::{read_persisted_stats, StoreError};

verus! {

/// Serves the history kept in `db_file`.
pub struct WebServer {
    pub db_file: String,
}

impl WebServer {
    pub fn new(db_file: &str) -> (r: Self)
        ensures
            r.db_file@ == db_file@,
    {
        WebServer { db_file: db_file.to_owned() }
    }
}

/// The body of a response: `code` is "ok" with `data`, or "err" with `message`.
#[derive(Debug, Clone)]
pub struct ApiResult<T> {
    pub code: Option<String>,
    pub message: Option<String>,
    pub data: Option<T>,
}

impl<T> ApiResult<T> {
    pub fn ok(data: T) -> (r: Self)
        ensures
            code_is(r, "ok"@),
            r.message is None,
            r.data == Some(data),
    {
        ApiResult { code: Some("ok".to_owned()), message: None, data: Some(data) }
    }

    pub fn err(message: String) -> (r: Self)
        ensures
            code_is(r, "err"@),
            r.message == Some(message),
            r.data is None,
    {
        ApiResult { code: Some("err".to_owned()), message: Some(message), data: None }
    }
}

/// The response carries the given code.
pub open spec fn code_is<T>(r: ApiResult<T>, c: Seq<char>) -> bool {
    r.code matches Some(x) && x@ == c
}

/// The response to a read of the history: the loaded history, with a missing
/// backing file read as the empty history, or the load error's description.
pub fn traffics_response(loaded: Result<GitHubRepoStats, StoreError>) -> (r: ApiResult<
    GitHubRepoStats,
>)
    requires
        loaded matches Ok(s) ==> s.wf(),
    ensures
        (loaded is Ok || loaded matches Err(StoreError::NotFound)) ==> code_is(r, "ok"@),
        (loaded is Ok || loaded matches Err(StoreError::NotFound)) ==> r.message is None,
        loaded matches Ok(s) ==> (r.data matches Some(t) && t.wf() && t@ == s@),
        loaded matches Err(StoreError::NotFound) ==> (r.data matches Some(t) && t.wf()
            && t@.is_empty()),
        loaded matches Err(StoreError::Unreadable(m)) ==> code_is(r, "err"@) && r.data is None
            && (r.message matches Some(n) && n@ == m@),
        loaded matches Err(StoreError::Malformed(m)) ==> code_is(r, "err"@) && r.data is None
            && (r.message matches Some(n) && n@ == m@),
{
    match read_persisted_stats(loaded) {
        Ok(stats) => ApiResult::ok(stats),
        Err(e) => ApiResult::err(e.message()),
    }
}

} // verus!
