//! The sync cycle: load the history, fold in each configured repository's
//! fetched windows in turn, and hand the whole result to be saved only once
//! every repository was processed.
use vstd::prelude::*;

use crate::merge::is_ordered;
use crate::stats::{all_ordered, lemma_merge_repo_keeps_order, merge_repo, GitHubRepoStats, SeriesPair};
use crate::store::{stats_or_empty, StoreError};
use crate::traffic::{GitHubMetricTrafficClones, GitHubMetricTrafficViews};

verus! {

/// Credentials for the hosting service's traffic endpoints.
pub struct GitHubClient {
    pub username: String,
    pub access_token: String,
}

impl GitHubClient {
    pub fn new(username: &str, access_token: &str) -> (r: Self)
        ensures
            r.username@ == username@,
            r.access_token@ == access_token@,
    {
        GitHubClient { username: username.to_owned(), access_token: access_token.to_owned() }
    }
}

/// The hosting service refused access to a repository's traffic.
#[derive(Debug, Clone, Copy, PartialEq, Eq)]
pub enum GitHubAccessError {
    AccessForbidden,
}

impl GitHubAccessError {
    /// A description of the error.
    pub fn message(&self) -> (r: String)
        ensures
            r@ == "403 Access Forbidden"@,
    {
        "403 Access Forbidden".to_owned()
    }
}

/// The status code with which the hosting service forbids access.
pub const FORBIDDEN_STATUS: u16 = 403;

/// Decides on the status code of a traffic response: a forbidden response is
/// an access error, and any other goes on to be decoded.
pub fn check_access(status: u16) -> (r: Result<(), GitHubAccessError>)
    ensures
        r is Err <==> status == FORBIDDEN_STATUS,
{
    if status == FORBIDDEN_STATUS {
        Err(GitHubAccessError::AccessForbidden)
    } else {
        Ok(())
    }
}

/// A repository as the hosting service lists it.
#[derive(Debug, Clone)]
pub struct GitHubRepo {
    pub id: i64,
    pub name: String,
    pub full_name: String,
    pub private: bool,
    pub fork: bool,
}

/// The identifiers of the listed repositories whose traffic is tracked: the
/// public ones that are not forks, in listing order.
pub open spec fn tracked_names(repos: Seq<GitHubRepo>) -> Seq<Seq<char>>
    decreases repos.len(),
{
    if repos.len() == 0 {
        Seq::empty()
    } else {
        let rest = tracked_names(repos.drop_last());
        let r = repos.last();
        if !r.private && !r.fork {
            rest.push(r.full_name@)
        } else {
            rest
        }
    }
}

/// The identifiers of a list of repositories.
pub open spec fn names_of(repos: Seq<String>) -> Seq<Seq<char>> {
    repos.map_values(|r: String| r@)
}

/// A history after the windows of several repositories were merged in turn.
pub open spec fn merge_all(
    m: Map<Seq<char>, SeriesPair>,
    repos: Seq<Seq<char>>,
    windows: Seq<SeriesPair>,
) -> Map<Seq<char>, SeriesPair>
    decreases windows.len(),
{
    if windows.len() == 0 || repos.len() == 0 {
        m
    } else {
        let k = (windows.len() - 1) as int;
        merge_repo(merge_all(m, repos, windows.drop_last()), repos[k], windows[k].0, windows[k].1)
    }
}

/// One sync cycle under way: the history so far and how many of the
/// configured repositories have been processed.
pub struct SyncCycle {
    stats: GitHubRepoStats,
    done: usize,
    start: Ghost<Map<Seq<char>, SeriesPair>>,
    windows: Ghost<Seq<SeriesPair>>,
}

impl SyncCycle {
    /// The history at the start of the cycle.
    pub closed spec fn start(&self) -> Map<Seq<char>, SeriesPair> {
        self.start@
    }

    /// The windows merged so far, one pair per processed repository.
    pub closed spec fn windows(&self) -> Seq<SeriesPair> {
        self.windows@
    }

    /// The number of repositories processed so far.
    pub closed spec fn done(&self) -> nat {
        self.done as nat
    }

    /// The history so far.
    pub closed spec fn current(&self) -> Map<Seq<char>, SeriesPair> {
        self.stats@
    }

    /// The cycle is consistent with the configured repositories `repos`.
    pub closed spec fn inv(&self, repos: Seq<Seq<char>>) -> bool {
        &&& self.stats.wf()
        &&& self.done <= repos.len()
        &&& self.windows@.len() == self.done
        &&& self.stats@ == merge_all(self.start@, repos, self.windows@)
    }

    /// What a consistent cycle holds: one window pair per processed
    /// repository, and the start history with those windows merged in turn.
    pub proof fn lemma_inv(&self, repos: Seq<Seq<char>>)
        requires
            self.inv(repos),
        ensures
            self.done() <= repos.len(),
            self.windows().len() == self.done(),
            self.current() == merge_all(self.start(), repos, self.windows()),
    {
    }
}

/// Merging windows that are each ordered keeps every series of the history
/// ordered, whatever the number of repositories merged.
pub proof fn lemma_merge_all_keeps_order(
    m: Map<Seq<char>, SeriesPair>,
    repos: Seq<Seq<char>>,
    windows: Seq<SeriesPair>,
)
    requires
        all_ordered(m),
        forall|k: int|
            0 <= k < windows.len() ==> is_ordered((#[trigger] windows[k]).0) && is_ordered(
                windows[k].1,
            ),
    ensures
        all_ordered(merge_all(m, repos, windows)),
    decreases windows.len(),
{
    if windows.len() > 0 && repos.len() > 0 {
        let q = windows.drop_last();
        assert forall|k: int| 0 <= k < q.len() implies is_ordered((#[trigger] q[k]).0)
            && is_ordered(q[k].1) by {
            assert(q[k] == windows[k]);
        }
        lemma_merge_all_keeps_order(m, repos, q);
        let k = (windows.len() - 1) as int;
        assert(is_ordered(windows[k].0) && is_ordered(windows[k].1));
        lemma_merge_repo_keeps_order(merge_all(m, repos, q), repos[k], windows[k].0, windows[k].1);
    }
}

/// The orchestrator: the repositories to keep in sync and where their history is kept.
pub struct GitHubTrafficsSync {
    pub client: GitHubClient,
    pub repos_to_sync: Vec<String>,
    pub db_file: String,
}

impl GitHubTrafficsSync {
    /// An orchestrator with no repositories yet.
    pub fn new(client: GitHubClient, db_file: &str) -> (r: Self)
        ensures
            r.client == client,
            r.repos_to_sync@.len() == 0,
            r.db_file@ == db_file@,
    {
        GitHubTrafficsSync { client, repos_to_sync: Vec::new(), db_file: db_file.to_owned() }
    }

    /// Adds one repository to those kept in sync.
    pub fn add_repo(&mut self, repo: &str)
        ensures
            names_of(final(self).repos_to_sync@) == names_of(old(self).repos_to_sync@).push(repo@),
            final(self).client == old(self).client,
            final(self).db_file == old(self).db_file,
    {
        self.repos_to_sync.push(repo.to_owned());
        proof {
            assert(names_of(self.repos_to_sync@) =~= names_of(old(self).repos_to_sync@).push(
                repo@,
            ));
        }
    }

    /// Adds the listed repositories whose traffic is tracked: those that are
    /// neither private nor forks.
    pub fn add_tracked_repos(&mut self, repos: &Vec<GitHubRepo>)
        ensures
            names_of(final(self).repos_to_sync@) == names_of(old(self).repos_to_sync@)
                + tracked_names(repos@),
            final(self).client == old(self).client,
            final(self).db_file == old(self).db_file,
    {
        let mut i: usize = 0;
        while i < repos.len()
            invariant
                0 <= i <= repos@.len(),
                names_of(self.repos_to_sync@) == names_of(old(self).repos_to_sync@)
                    + tracked_names(repos@.subrange(0, i as int)),
                self.client == old(self).client,
                self.db_file == old(self).db_file,
            decreases repos@.len() - i,
        {
            let r = &repos[i];
            proof {
                assert(repos@.subrange(0, i + 1).drop_last() =~= repos@.subrange(0, i as int));
            }
            if !r.private && !r.fork {
                self.add_repo(r.full_name.as_str());
                proof {
                    assert(names_of(old(self).repos_to_sync@) + tracked_names(
                        repos@.subrange(0, i + 1),
                    ) =~= (names_of(old(self).repos_to_sync@) + tracked_names(
                        repos@.subrange(0, i as int),
                    )).push(r.full_name@));
                }
            }
            i = i + 1;
        }
        proof {
            assert(repos@.subrange(0, i as int) =~= repos@);
        }
    }

    /// Starts a sync cycle from the outcome of loading the store; a failed
    /// load starts from the empty history.
    pub fn start_cycle(&self, loaded: Result<GitHubRepoStats, StoreError>) -> (r: SyncCycle)
        requires
            loaded matches Ok(s) ==> s.wf(),
        ensures
            r.inv(names_of(self.repos_to_sync@)),
            r.done() == 0,
            r.windows() == Seq::<SeriesPair>::empty(),
            r.current() == r.start(),
            loaded matches Ok(s) ==> r.start() == s@,
            loaded is Err ==> r.start().is_empty(),
    {
        let stats = stats_or_empty(loaded);
        let ghost m = stats@;
        SyncCycle { stats, done: 0, start: Ghost(m), windows: Ghost(Seq::empty()) }
    }

    /// The repository whose windows are to be fetched next, or `None` once
    /// every configured repository was processed.
    pub fn next_repo<'a>(&'a self, cycle: &SyncCycle) -> (r: Option<&'a String>)
        requires
            cycle.inv(names_of(self.repos_to_sync@)),
        ensures
            r is None <==> cycle.done() == self.repos_to_sync@.len(),
            r matches Some(s) ==> *s == self.repos_to_sync@[cycle.done() as int],
    {
        if cycle.done < self.repos_to_sync.len() {
            Some(&self.repos_to_sync[cycle.done])
        } else {
            None
        }
    }

    /// Folds the fetched windows of the next repository into the cycle's history.
    pub fn record(
        &self,
        cycle: &mut SyncCycle,
        clones: GitHubMetricTrafficClones,
        views: GitHubMetricTrafficViews,
    )
        requires
            old(cycle).inv(names_of(self.repos_to_sync@)),
            old(cycle).done() < self.repos_to_sync@.len(),
        ensures
            final(cycle).inv(names_of(self.repos_to_sync@)),
            final(cycle).start() == old(cycle).start(),
            final(cycle).done() == old(cycle).done() + 1,
            final(cycle).windows() == old(cycle).windows().push((clones.clones@, views.views@)),
            final(cycle).current() == merge_repo(
                old(cycle).current(),
                self.repos_to_sync@[old(cycle).done() as int]@,
                clones.clones@,
                views.views@,
            ),
    {
        let ghost names = names_of(self.repos_to_sync@);
        let ghost w = (clones.clones@, views.views@);
        let n = self.repos_to_sync.len();
        let repo = &self.repos_to_sync[cycle.done];
        cycle.stats.merge_repo_traffics(repo, clones.clones, views.views);
        cycle.done = cycle.done + 1;
        proof {
            let ws = cycle.windows@.push(w);
            assert(ws.drop_last() =~= cycle.windows@);
            cycle.windows = Ghost(ws);
        }
    }

    /// Ends a cycle: the history to be saved, only when every configured
    /// repository was processed, so that a cycle cut short by a failed fetch
    /// leaves nothing to save.
    pub fn finish_cycle(&self, cycle: SyncCycle) -> (r: Option<GitHubRepoStats>)
        requires
            cycle.inv(names_of(self.repos_to_sync@)),
        ensures
            r is Some <==> cycle.done() == self.repos_to_sync@.len(),
            r matches Some(s) ==> s.wf() && s@ == cycle.current() && s@ == merge_all(
                cycle.start(),
                names_of(self.repos_to_sync@),
                cycle.windows(),
            ),
    {
        if cycle.done == self.repos_to_sync.len() {
            Some(cycle.stats)
        } else {
            None
        }
    }
}

} // verus!
