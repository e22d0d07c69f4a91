//! The full history: one time-series pair per repository, keyed by the
//! repository's `owner/name` identifier.
use vstd::prelude::*;

use crate::merge::{find_and_insert, is_ordered, lemma_upsert_keeps_order, upsert};
use crate::traffic::{GitHubMetricTrafficItem, GitHubRepoTraffics};

verus! {

/// The clones and views series of one repository, as sequences.
pub type SeriesPair = (Seq<GitHubMetricTrafficItem>, Seq<GitHubMetricTrafficItem>);

/// The history of one repository under its identifier.
#[derive(Debug, Clone)]
pub struct RepoEntry {
    pub repo: String,
    pub traffics: GitHubRepoTraffics,
}

pub open spec fn series_of(t: GitHubRepoTraffics) -> SeriesPair {
    (t.clones@, t.views@)
}

/// Each identifier mapped to the series of its last entry.
pub open spec fn entries_map(s: Seq<RepoEntry>) -> Map<Seq<char>, SeriesPair>
    decreases s.len(),
{
    if s.len() == 0 {
        Map::empty()
    } else {
        entries_map(s.drop_last()).insert(s.last().repo@, series_of(s.last().traffics))
    }
}

/// No identifier occurs twice.
pub open spec fn unique_repos(s: Seq<RepoEntry>) -> bool {
    forall|i: int, j: int| 0 <= i < j < s.len() ==> #[trigger] s[i].repo@ != #[trigger] s[j].repo@
}

/// The series of a repository in a history, or two empty series if it has none yet.
pub open spec fn series_or_empty(m: Map<Seq<char>, SeriesPair>, repo: Seq<char>) -> SeriesPair {
    if m.contains_key(repo) {
        m[repo]
    } else {
        (Seq::empty(), Seq::empty())
    }
}

/// A history after one repository's fetched windows were merged into it.
pub open spec fn merge_repo(
    m: Map<Seq<char>, SeriesPair>,
    repo: Seq<char>,
    clones: Seq<GitHubMetricTrafficItem>,
    views: Seq<GitHubMetricTrafficItem>,
) -> Map<Seq<char>, SeriesPair> {
    let prev = series_or_empty(m, repo);
    m.insert(repo, (upsert(prev.0, clones), upsert(prev.1, views)))
}

/// Every series of the history is strictly ascending by day.
pub open spec fn all_ordered(m: Map<Seq<char>, SeriesPair>) -> bool {
    forall|k: Seq<char>| #[trigger] m.contains_key(k) ==> is_ordered(m[k].0) && is_ordered(m[k].1)
}

/// Merging ordered windows into a history whose series are all ordered keeps
/// them all ordered.
pub proof fn lemma_merge_repo_keeps_order(
    m: Map<Seq<char>, SeriesPair>,
    repo: Seq<char>,
    clones: Seq<GitHubMetricTrafficItem>,
    views: Seq<GitHubMetricTrafficItem>,
)
    requires
        all_ordered(m),
        is_ordered(clones),
        is_ordered(views),
    ensures
        all_ordered(merge_repo(m, repo, clones, views)),
{
    let prev = series_or_empty(m, repo);
    assert(is_ordered(prev.0) && is_ordered(prev.1));
    lemma_upsert_keeps_order(prev.0, clones);
    lemma_upsert_keeps_order(prev.1, views);
}

proof fn lemma_entries_map(s: Seq<RepoEntry>)
    ensures
        forall|i: int| 0 <= i < s.len() ==> entries_map(s).contains_key((#[trigger] s[i]).repo@),
        forall|x: Seq<char>| #[trigger]
            entries_map(s).contains_key(x) ==> exists|i: int|
                0 <= i < s.len() && s[i].repo@ == x && entries_map(s)[x] == series_of(s[i].traffics),
    decreases s.len(),
{
    if s.len() > 0 {
        let q = s.drop_last();
        lemma_entries_map(q);
        assert forall|i: int| 0 <= i < s.len() implies entries_map(s).contains_key(
            (#[trigger] s[i]).repo@,
        ) by {
            if i < q.len() {
                assert(q[i] == s[i]);
            }
        }
        assert forall|x: Seq<char>| #[trigger] entries_map(s).contains_key(x) implies exists|i: int|
            0 <= i < s.len() && s[i].repo@ == x && entries_map(s)[x] == series_of(s[i].traffics) by {
            if x == s.last().repo@ {
                assert(s[s.len() - 1] == s.last());
            } else {
                let i = choose|i: int|
                    0 <= i < q.len() && q[i].repo@ == x && entries_map(q)[x] == series_of(
                        q[i].traffics,
                    );
                assert(s[i] == q[i]);
            }
        }
    }
}

proof fn lemma_entries_map_unique(s: Seq<RepoEntry>)
    requires
        unique_repos(s),
    ensures
        forall|i: int|
            0 <= i < s.len() ==> entries_map(s)[(#[trigger] s[i]).repo@] == series_of(s[i].traffics),
{
    lemma_entries_map(s);
    assert forall|i: int| 0 <= i < s.len() implies entries_map(s)[(#[trigger] s[i]).repo@]
        == series_of(s[i].traffics) by {
        let x = s[i].repo@;
        assert(entries_map(s).contains_key(x));
        let j = choose|j: int|
            0 <= j < s.len() && s[j].repo@ == x && entries_map(s)[x] == series_of(s[j].traffics);
        if i < j {
            assert(s[i].repo@ != s[j].repo@);
        } else if j < i {
            assert(s[j].repo@ != s[i].repo@);
        }
    }
}

proof fn lemma_entries_update(s: Seq<RepoEntry>, i: int, e: RepoEntry)
    requires
        unique_repos(s),
        0 <= i < s.len(),
        e.repo@ == s[i].repo@,
    ensures
        unique_repos(s.update(i, e)),
        entries_map(s.update(i, e)) == entries_map(s).insert(e.repo@, series_of(e.traffics)),
{
    let u = s.update(i, e);
    assert forall|a: int, b: int| 0 <= a < b < u.len() implies #[trigger] u[a].repo@
        != #[trigger] u[b].repo@ by {
        assert(s[a].repo@ != s[b].repo@);
    }
    lemma_entries_map(s);
    lemma_entries_map(u);
    lemma_entries_map_unique(s);
    lemma_entries_map_unique(u);
    let m = entries_map(s).insert(e.repo@, series_of(e.traffics));
    assert forall|x: Seq<char>| #[trigger] entries_map(u).contains_key(x) == m.contains_key(x) by {
        if entries_map(u).contains_key(x) {
            let j = choose|j: int|
                0 <= j < u.len() && u[j].repo@ == x && entries_map(u)[x] == series_of(u[j].traffics);
            assert(s[j].repo@ == x);
        }
        if entries_map(s).contains_key(x) {
            let j = choose|j: int|
                0 <= j < s.len() && s[j].repo@ == x && entries_map(s)[x] == series_of(s[j].traffics);
            assert(u[j].repo@ == x);
        }
    }
    assert forall|x: Seq<char>| #[trigger] entries_map(u).contains_key(x) implies entries_map(u)[x]
        == m[x] by {
        let j = choose|j: int|
            0 <= j < u.len() && u[j].repo@ == x && entries_map(u)[x] == series_of(u[j].traffics);
        if j != i {
            assert(u[j] == s[j]);
        }
    }
    assert(entries_map(u) =~= m);
}

proof fn lemma_entries_push(s: Seq<RepoEntry>, e: RepoEntry)
    requires
        unique_repos(s),
        !entries_map(s).contains_key(e.repo@),
    ensures
        unique_repos(s.push(e)),
        entries_map(s.push(e)) == entries_map(s).insert(e.repo@, series_of(e.traffics)),
{
    lemma_entries_map(s);
    let u = s.push(e);
    assert(u.drop_last() =~= s);
    assert forall|a: int, b: int| 0 <= a < b < u.len() implies #[trigger] u[a].repo@
        != #[trigger] u[b].repo@ by {
        if b == s.len() {
            assert(u[a] == s[a]);
        } else {
            assert(s[a].repo@ != s[b].repo@);
        }
    }
}

proof fn lemma_entries_dom_len(s: Seq<RepoEntry>)
    requires
        unique_repos(s),
    ensures
        entries_map(s).dom().finite(),
        entries_map(s).dom().len() == s.len(),
    decreases s.len(),
{
    if s.len() > 0 {
        let q = s.drop_last();
        assert forall|a: int, b: int| 0 <= a < b < q.len() implies #[trigger] q[a].repo@
            != #[trigger] q[b].repo@ by {
            assert(s[a].repo@ != s[b].repo@);
        }
        lemma_entries_dom_len(q);
        lemma_entries_map(q);
        if entries_map(q).contains_key(s.last().repo@) {
            let i = choose|i: int|
                0 <= i < q.len() && q[i].repo@ == s.last().repo@ && entries_map(q)[s.last().repo@]
                    == series_of(q[i].traffics);
            assert(s[i].repo@ != s[s.len() - 1].repo@);
        }
    }
}

/// The accumulated history of every tracked repository.
pub struct GitHubRepoStats {
    entries: Vec<RepoEntry>,
}

impl View for GitHubRepoStats {
    type V = Map<Seq<char>, SeriesPair>;

    closed spec fn view(&self) -> Map<Seq<char>, SeriesPair> {
        entries_map(self.entries@)
    }
}

impl GitHubRepoStats {
    /// The entries are keyed uniquely by repository.
    pub closed spec fn wf(&self) -> bool {
        unique_repos(self.entries@)
    }

    /// An empty history.
    pub fn new() -> (r: Self)
        ensures
            r.wf(),
            r@ == Map::<Seq<char>, SeriesPair>::empty(),
    {
        GitHubRepoStats { entries: Vec::new() }
    }

    /// Number of repositories in the history.
    pub fn len(&self) -> (r: usize)
        requires
            self.wf(),
        ensures
            r == self@.dom().len(),
    {
        proof {
            lemma_entries_map(self.entries@);
            lemma_entries_map_unique(self.entries@);
            lemma_entries_dom_len(self.entries@);
        }
        self.entries.len()
    }

    fn index_of(&self, repo: &String) -> (r: Option<usize>)
        requires
            self.wf(),
        ensures
            r.is_none() ==> !self@.contains_key(repo@),
            r matches Some(i) ==> i < self.entries@.len() && self.entries@[i as int].repo@ == repo@,
    {
        proof {
            lemma_entries_map(self.entries@);
        }
        let mut i: usize = 0;
        while i < self.entries.len()
            invariant
                0 <= i <= self.entries@.len(),
                forall|j: int| 0 <= j < i ==> (#[trigger] self.entries@[j]).repo@ != repo@,
            decreases self.entries@.len() - i,
        {
            if self.entries[i].repo == *repo {
                return Some(i);
            }
            i = i + 1;
        }
        None
    }

    /// The history of one repository, if it has one.
    pub fn get(&self, repo: &String) -> (r: Option<&GitHubRepoTraffics>)
        requires
            self.wf(),
        ensures
            r.is_none() == !self@.contains_key(repo@),
            r matches Some(t) ==> self@[repo@] == series_of(*t),
    {
        proof {
            lemma_entries_map(self.entries@);
            lemma_entries_map_unique(self.entries@);
        }
        match self.index_of(repo) {
            Some(i) => Some(&self.entries[i].traffics),
            None => None,
        }
    }

    /// Sets the history of one repository, replacing what it had.
    pub fn insert(&mut self, repo: String, traffics: GitHubRepoTraffics)
        requires
            old(self).wf(),
        ensures
            final(self).wf(),
            final(self)@ == old(self)@.insert(repo@, series_of(traffics)),
    {
        let ghost s = self.entries@;
        match self.index_of(&repo) {
            Some(i) => {
                let e = RepoEntry { repo, traffics };
                proof {
                    lemma_entries_update(s, i as int, e);
                }
                self.entries[i] = e;
            },
            None => {
                let e = RepoEntry { repo, traffics };
                proof {
                    lemma_entries_push(s, e);
                }
                self.entries.push(e);
            },
        }
    }

    /// Merges one repository's freshly fetched clones and views windows into
    /// its series; a repository new to the history starts from empty series.
    pub fn merge_repo_traffics(
        &mut self,
        repo: &String,
        clones: Vec<GitHubMetricTrafficItem>,
        views: Vec<GitHubMetricTrafficItem>,
    )
        requires
            old(self).wf(),
        ensures
            final(self).wf(),
            final(self)@ == merge_repo(old(self)@, repo@, clones@, views@),
    {
        let ghost s = self.entries@;
        proof {
            lemma_entries_map(s);
            lemma_entries_map_unique(s);
        }
        match self.index_of(repo) {
            Some(i) => {
                let mut e = self.entries.remove(i);
                find_and_insert(&mut e.traffics.clones, clones);
                find_and_insert(&mut e.traffics.views, views);
                proof {
                    lemma_entries_update(s, i as int, e);
                    assert(s.remove(i as int).insert(i as int, e) =~= s.update(i as int, e));
                }
                self.entries.insert(i, e);
            },
            None => {
                let mut t = GitHubRepoTraffics::new();
                find_and_insert(&mut t.clones, clones);
                find_and_insert(&mut t.views, views);
                let e = RepoEntry { repo: repo.clone(), traffics: t };
                proof {
                    lemma_entries_push(s, e);
                }
                self.entries.push(e);
            },
        }
    }

    /// Hands out the entries, one per repository.
    pub fn into_entries(self) -> (r: Vec<RepoEntry>)
        requires
            self.wf(),
        ensures
            unique_repos(r@),
            entries_map(r@) == self@,
    {
        self.entries
    }
}

} // verus!
