//! Folding a freshly fetched traffic window into an ordered history.
use std::cmp::Ordering;
use vstd::prelude::*;

use crate::order::{
    compare_days, day_lt, lemma_day_lt_irreflexive, lemma_day_lt_total, lemma_day_lt_transitive,
};
use crate::traffic::GitHubMetricTrafficItem;

verus! {

broadcast use vstd::seq_lib::group_seq_properties;

/// Points are strictly ascending by day.
pub open spec fn is_ordered(s: Seq<GitHubMetricTrafficItem>) -> bool {
    forall|i: int, j: int|
        0 <= i < j < s.len() ==> #[trigger] day_lt(s[i].timestamp@, s[j].timestamp@)
}

/// No two points share a day.
pub open spec fn unique_days(s: Seq<GitHubMetricTrafficItem>) -> bool {
    forall|i: int, j: int|
        0 <= i < j < s.len() ==> #[trigger] s[i].timestamp@ != #[trigger] s[j].timestamp@
}

/// The first index at or after `i` whose point has day `d`, or -1.
pub open spec fn same_day_from(s: Seq<GitHubMetricTrafficItem>, d: Seq<char>, i: int) -> int
    decreases s.len() - i,
{
    if i < 0 || i >= s.len() {
        -1
    } else if s[i].timestamp@ == d {
        i
    } else {
        same_day_from(s, d, i + 1)
    }
}

/// The first index at or after `i` whose point has a day later than `d`, or the length.
pub open spec fn later_day_from(s: Seq<GitHubMetricTrafficItem>, d: Seq<char>, i: int) -> int
    decreases s.len() - i,
{
    if i < 0 || i >= s.len() {
        s.len() as int
    } else if day_lt(d, s[i].timestamp@) {
        i
    } else {
        later_day_from(s, d, i + 1)
    }
}

/// One point folded in: it replaces the first point of its day, or else is
/// inserted before the first point of a later day (at the end if there is none).
pub open spec fn upsert_point(
    s: Seq<GitHubMetricTrafficItem>,
    p: GitHubMetricTrafficItem,
) -> Seq<GitHubMetricTrafficItem> {
    let f = same_day_from(s, p.timestamp@, 0);
    if f >= 0 {
        s.update(f, p)
    } else {
        s.insert(later_day_from(s, p.timestamp@, 0), p)
    }
}

/// The points of `incoming` folded in one after another, in their order.
pub open spec fn upsert_each(
    target: Seq<GitHubMetricTrafficItem>,
    incoming: Seq<GitHubMetricTrafficItem>,
) -> Seq<GitHubMetricTrafficItem>
    decreases incoming.len(),
{
    if incoming.len() == 0 {
        target
    } else {
        upsert_point(upsert_each(target, incoming.drop_last()), incoming.last())
    }
}

/// The merge of a window into a history; an empty history is replaced by the window as given.
pub open spec fn upsert(
    target: Seq<GitHubMetricTrafficItem>,
    incoming: Seq<GitHubMetricTrafficItem>,
) -> Seq<GitHubMetricTrafficItem> {
    if target.len() == 0 {
        incoming
    } else {
        upsert_each(target, incoming)
    }
}

/// Each day of a sequence mapped to its last point.
pub open spec fn by_day(s: Seq<GitHubMetricTrafficItem>) -> Map<Seq<char>, GitHubMetricTrafficItem>
    decreases s.len(),
{
    if s.len() == 0 {
        Map::empty()
    } else {
        by_day(s.drop_last()).insert(s.last().timestamp@, s.last())
    }
}

proof fn lemma_same_day_from(s: Seq<GitHubMetricTrafficItem>, d: Seq<char>, i: int)
    requires
        0 <= i <= s.len(),
    ensures
        same_day_from(s, d, i) == -1 ==> forall|j: int|
            i <= j < s.len() ==> (#[trigger] s[j]).timestamp@ != d,
        same_day_from(s, d, i) != -1 ==> {
            let f = same_day_from(s, d, i);
            &&& i <= f < s.len()
            &&& s[f].timestamp@ == d
            &&& forall|j: int| i <= j < f ==> (#[trigger] s[j]).timestamp@ != d
        },
    decreases s.len() - i,
{
    if i < s.len() {
        lemma_same_day_from(s, d, i + 1);
    }
}

proof fn lemma_later_day_from(s: Seq<GitHubMetricTrafficItem>, d: Seq<char>, i: int)
    requires
        0 <= i <= s.len(),
    ensures
        i <= later_day_from(s, d, i) <= s.len(),
        forall|j: int|
            i <= j < later_day_from(s, d, i) ==> !day_lt(d, (#[trigger] s[j]).timestamp@),
        later_day_from(s, d, i) < s.len() ==> day_lt(d, s[later_day_from(s, d, i)].timestamp@),
    decreases s.len() - i,
{
    if i < s.len() {
        lemma_later_day_from(s, d, i + 1);
    }
}

proof fn lemma_ordered_unique(s: Seq<GitHubMetricTrafficItem>)
    requires
        is_ordered(s),
    ensures
        unique_days(s),
{
    assert forall|i: int, j: int| 0 <= i < j < s.len() implies #[trigger] s[i].timestamp@
        != #[trigger] s[j].timestamp@ by {
        assert(day_lt(s[i].timestamp@, s[j].timestamp@));
        lemma_day_lt_irreflexive(s[i].timestamp@);
    }
}

/// The days in `by_day(s)` are those of `s`, each mapped to one of its points.
pub proof fn lemma_by_day(s: Seq<GitHubMetricTrafficItem>)
    ensures
        forall|i: int| 0 <= i < s.len() ==> by_day(s).contains_key((#[trigger] s[i]).timestamp@),
        forall|x: Seq<char>| #[trigger]
            by_day(s).contains_key(x) ==> exists|i: int|
                0 <= i < s.len() && s[i].timestamp@ == x && by_day(s)[x] == s[i],
    decreases s.len(),
{
    if s.len() > 0 {
        let q = s.drop_last();
        lemma_by_day(q);
        assert forall|i: int| 0 <= i < s.len() implies by_day(s).contains_key(
            (#[trigger] s[i]).timestamp@,
        ) by {
            if i < q.len() {
                assert(q[i] == s[i]);
            }
        }
        assert forall|x: Seq<char>| #[trigger] by_day(s).contains_key(x) implies exists|i: int|
            0 <= i < s.len() && s[i].timestamp@ == x && by_day(s)[x] == s[i] by {
            if x == s.last().timestamp@ {
                assert(s[s.len() - 1] == s.last());
            } else {
                let i = choose|i: int| 0 <= i < q.len() && q[i].timestamp@ == x && by_day(q)[x] == q[i];
                assert(s[i] == q[i]);
            }
        }
    }
}

proof fn lemma_by_day_unique(s: Seq<GitHubMetricTrafficItem>)
    requires
        unique_days(s),
    ensures
        forall|i: int| 0 <= i < s.len() ==> by_day(s)[(#[trigger] s[i]).timestamp@] == s[i],
{
    lemma_by_day(s);
    assert forall|i: int| 0 <= i < s.len() implies by_day(s)[(#[trigger] s[i]).timestamp@]
        == s[i] by {
        let x = s[i].timestamp@;
        assert(by_day(s).contains_key(x));
        let j = choose|j: int| 0 <= j < s.len() && s[j].timestamp@ == x && by_day(s)[x] == s[j];
        if i < j {
            assert(s[i].timestamp@ != s[j].timestamp@);
        } else if j < i {
            assert(s[j].timestamp@ != s[i].timestamp@);
        }
    }
}

/// Folding one point into an ordered sequence keeps it ordered, and sets the
/// point's day to that point.
pub proof fn lemma_upsert_point(t: Seq<GitHubMetricTrafficItem>, p: GitHubMetricTrafficItem)
    requires
        is_ordered(t),
    ensures
        is_ordered(upsert_point(t, p)),
        by_day(upsert_point(t, p)) == by_day(t).insert(p.timestamp@, p),
        upsert_point(t, p).len() >= t.len(),
{
    lemma_same_day_from(t, p.timestamp@, 0);
    if same_day_from(t, p.timestamp@, 0) >= 0 {
        lemma_upsert_replace(t, p);
    } else {
        lemma_upsert_insert(t, p);
    }
}

#[verifier::rlimit(40)]
proof fn lemma_upsert_replace(t: Seq<GitHubMetricTrafficItem>, p: GitHubMetricTrafficItem)
    requires
        is_ordered(t),
        same_day_from(t, p.timestamp@, 0) >= 0,
    ensures
        is_ordered(upsert_point(t, p)),
        by_day(upsert_point(t, p)) == by_day(t).insert(p.timestamp@, p),
        upsert_point(t, p).len() >= t.len(),
{
    let d = p.timestamp@;
    lemma_same_day_from(t, d, 0);
    lemma_by_day(t);
    lemma_ordered_unique(t);
    lemma_by_day_unique(t);
    let f = same_day_from(t, d, 0);
    let u = upsert_point(t, p);
    assert(u == t.update(f, p));
    assert forall|i: int| 0 <= i < u.len() implies (#[trigger] u[i]).timestamp@
        == t[i].timestamp@ by {}
    assert forall|i: int, j: int| 0 <= i < j < u.len() implies #[trigger] day_lt(
        u[i].timestamp@,
        u[j].timestamp@,
    ) by {
        assert(day_lt(t[i].timestamp@, t[j].timestamp@));
    }
    lemma_by_day(u);
    lemma_ordered_unique(u);
    lemma_by_day_unique(u);
    let m = by_day(t).insert(d, p);
    assert forall|x: Seq<char>| #[trigger] by_day(u).contains_key(x) == m.contains_key(x) by {
        if by_day(u).contains_key(x) {
            let i = choose|i: int| 0 <= i < u.len() && u[i].timestamp@ == x && by_day(u)[x] == u[i];
            assert(t[i].timestamp@ == x);
        }
        if by_day(t).contains_key(x) {
            let i = choose|i: int| 0 <= i < t.len() && t[i].timestamp@ == x && by_day(t)[x] == t[i];
            assert(u[i].timestamp@ == x);
        }
    }
    assert forall|x: Seq<char>| #[trigger] by_day(u).contains_key(x) implies by_day(u)[x]
        == m[x] by {
        let i = choose|i: int| 0 <= i < u.len() && u[i].timestamp@ == x && by_day(u)[x] == u[i];
        if i != f {
            assert(u[i] == t[i]);
        }
    }
    assert(by_day(u) =~= m);
}

proof fn lemma_upsert_insert(t: Seq<GitHubMetricTrafficItem>, p: GitHubMetricTrafficItem)
    requires
        is_ordered(t),
        same_day_from(t, p.timestamp@, 0) < 0,
    ensures
        is_ordered(upsert_point(t, p)),
        by_day(upsert_point(t, p)) == by_day(t).insert(p.timestamp@, p),
        upsert_point(t, p).len() >= t.len(),
{
    lemma_upsert_insert_order(t, p);
    lemma_upsert_insert_days(t, p);
}

#[verifier::rlimit(40)]
proof fn lemma_upsert_insert_order(t: Seq<GitHubMetricTrafficItem>, p: GitHubMetricTrafficItem)
    requires
        is_ordered(t),
        same_day_from(t, p.timestamp@, 0) < 0,
    ensures
        is_ordered(upsert_point(t, p)),
        upsert_point(t, p).len() >= t.len(),
{
    let d = p.timestamp@;
    lemma_same_day_from(t, d, 0);
    let u = upsert_point(t, p);
    lemma_later_day_from(t, d, 0);
    let k = later_day_from(t, d, 0);
    assert(u == t.insert(k, p));
    assert forall|i: int| 0 <= i < k implies #[trigger] day_lt(t[i].timestamp@, d) by {
        lemma_day_lt_total(t[i].timestamp@, d);
    }
    assert forall|j: int| k <= j < t.len() implies #[trigger] day_lt(d, t[j].timestamp@) by {
        if j > k {
            assert(day_lt(t[k].timestamp@, t[j].timestamp@));
            lemma_day_lt_transitive(d, t[k].timestamp@, t[j].timestamp@);
        }
    }
    assert forall|i: int| 0 <= i < u.len() implies (#[trigger] u[i]) == if i < k {
        t[i]
    } else if i == k {
        p
    } else {
        t[i - 1]
    } by {}
    assert forall|i: int, j: int| 0 <= i < j < u.len() implies #[trigger] day_lt(
        u[i].timestamp@,
        u[j].timestamp@,
    ) by {
        if j < k {
            assert(day_lt(t[i].timestamp@, t[j].timestamp@));
        } else if j == k {
            assert(day_lt(t[i].timestamp@, d));
        } else if i < k {
            assert(day_lt(t[i].timestamp@, d));
            assert(day_lt(d, t[j - 1].timestamp@));
            lemma_day_lt_transitive(t[i].timestamp@, d, t[j - 1].timestamp@);
        } else if i == k {
            assert(day_lt(d, t[j - 1].timestamp@));
        } else {
            assert(day_lt(t[i - 1].timestamp@, t[j - 1].timestamp@));
        }
    }
}

#[verifier::rlimit(40)]
proof fn lemma_upsert_insert_days(t: Seq<GitHubMetricTrafficItem>, p: GitHubMetricTrafficItem)
    requires
        is_ordered(t),
        same_day_from(t, p.timestamp@, 0) < 0,
    ensures
        by_day(upsert_point(t, p)) == by_day(t).insert(p.timestamp@, p),
{
    let d = p.timestamp@;
    lemma_same_day_from(t, d, 0);
    lemma_later_day_from(t, d, 0);
    lemma_upsert_insert_order(t, p);
    lemma_by_day(t);
    lemma_ordered_unique(t);
    lemma_by_day_unique(t);
    let u = upsert_point(t, p);
    let k = later_day_from(t, d, 0);
    assert(u == t.insert(k, p));
    assert forall|i: int| 0 <= i < u.len() implies (#[trigger] u[i]) == if i < k {
        t[i]
    } else if i == k {
        p
    } else {
        t[i - 1]
    } by {}
    lemma_by_day(u);
    lemma_ordered_unique(u);
    lemma_by_day_unique(u);
    let m = by_day(t).insert(d, p);
    assert forall|x: Seq<char>| #[trigger] by_day(u).contains_key(x) == m.contains_key(x) by {
        if by_day(u).contains_key(x) {
            let i = choose|i: int| 0 <= i < u.len() && u[i].timestamp@ == x && by_day(u)[x] == u[i];
            if i < k {
                assert(t[i].timestamp@ == x);
            } else if i > k {
                assert(t[i - 1].timestamp@ == x);
            }
        }
        if by_day(t).contains_key(x) {
            let i = choose|i: int| 0 <= i < t.len() && t[i].timestamp@ == x && by_day(t)[x] == t[i];
            if i < k {
                assert(u[i].timestamp@ == x);
            } else {
                assert(u[i + 1].timestamp@ == x);
            }
        }
        if x == d {
            assert(u[k].timestamp@ == x);
        }
    }
    assert forall|x: Seq<char>| #[trigger] by_day(u).contains_key(x) implies by_day(u)[x]
        == m[x] by {
        let i = choose|i: int| 0 <= i < u.len() && u[i].timestamp@ == x && by_day(u)[x] == u[i];
        if i < k {
            assert(u[i] == t[i]);
        } else if i > k {
            assert(u[i] == t[i - 1]);
        }
    }
    assert(by_day(u) =~= m);
}

proof fn lemma_upsert_each(t: Seq<GitHubMetricTrafficItem>, inc: Seq<GitHubMetricTrafficItem>)
    requires
        is_ordered(t),
    ensures
        is_ordered(upsert_each(t, inc)),
        by_day(upsert_each(t, inc)) == by_day(t).union_prefer_right(by_day(inc)),
        upsert_each(t, inc).len() >= t.len(),
    decreases inc.len(),
{
    if inc.len() == 0 {
        assert(by_day(t).union_prefer_right(by_day(inc)) =~= by_day(t));
    } else {
        let q = inc.drop_last();
        lemma_upsert_each(t, q);
        lemma_upsert_point(upsert_each(t, q), inc.last());
        assert(by_day(t).union_prefer_right(by_day(q)).insert(inc.last().timestamp@, inc.last())
            =~= by_day(t).union_prefer_right(by_day(inc)));
    }
}

/// The last point of an ordered sequence has its greatest day.
proof fn lemma_last_is_latest(s: Seq<GitHubMetricTrafficItem>, x: Seq<char>)
    requires
        is_ordered(s),
        s.len() > 0,
        by_day(s).contains_key(x),
        x != s.last().timestamp@,
    ensures
        day_lt(x, s.last().timestamp@),
        by_day(s.drop_last()).contains_key(x),
{
    lemma_by_day(s);
    let i = choose|i: int| 0 <= i < s.len() && s[i].timestamp@ == x && by_day(s)[x] == s[i];
    assert(i < s.len() - 1);
    assert(day_lt(s[i].timestamp@, s[s.len() - 1].timestamp@));
    lemma_by_day(s.drop_last());
    assert(s.drop_last()[i] == s[i]);
}

/// Two ordered sequences with the same point for every day are equal.
proof fn lemma_ordered_by_day_eq(a: Seq<GitHubMetricTrafficItem>, b: Seq<GitHubMetricTrafficItem>)
    requires
        is_ordered(a),
        is_ordered(b),
        by_day(a) == by_day(b),
    ensures
        a == b,
    decreases a.len(),
{
    lemma_by_day(a);
    lemma_by_day(b);
    if a.len() == 0 {
        if b.len() > 0 {
            assert(by_day(b).contains_key(b[0].timestamp@));
        }
        assert(a =~= b);
    } else {
        assert(by_day(a).contains_key(a[a.len() - 1].timestamp@));
        assert(b.len() > 0);
        assert(by_day(b).contains_key(b[b.len() - 1].timestamp@));
        let x = a.last().timestamp@;
        let y = b.last().timestamp@;
        if x != y {
            lemma_last_is_latest(b, x);
            lemma_last_is_latest(a, y);
            lemma_day_lt_transitive(x, y, x);
            lemma_day_lt_irreflexive(x);
        }
        assert(by_day(a)[x] == a.last());
        assert(by_day(b)[y] == b.last());
        let qa = a.drop_last();
        let qb = b.drop_last();
        assert forall|z: Seq<char>| #[trigger] by_day(qa).contains_key(z) == by_day(
            qb,
        ).contains_key(z) by {
            lemma_by_day(qa);
            lemma_by_day(qb);
            if by_day(qa).contains_key(z) {
                let i = choose|i: int| 0 <= i < qa.len() && qa[i].timestamp@ == z && by_day(qa)[z] == qa[i];
                assert(day_lt(a[i].timestamp@, a[a.len() - 1].timestamp@));
                lemma_day_lt_irreflexive(x);
                lemma_last_is_latest(b, z);
            }
            if by_day(qb).contains_key(z) {
                let i = choose|i: int| 0 <= i < qb.len() && qb[i].timestamp@ == z && by_day(qb)[z] == qb[i];
                assert(day_lt(b[i].timestamp@, b[b.len() - 1].timestamp@));
                lemma_day_lt_irreflexive(y);
                lemma_last_is_latest(a, z);
            }
        }
        assert forall|z: Seq<char>| #[trigger] by_day(qa).contains_key(z) implies by_day(qa)[z]
            == by_day(qb)[z] by {
            lemma_by_day(qa);
            let i = choose|i: int| 0 <= i < qa.len() && qa[i].timestamp@ == z && by_day(qa)[z] == qa[i];
            assert(day_lt(a[i].timestamp@, a[a.len() - 1].timestamp@));
            lemma_day_lt_irreflexive(x);
        }
        assert(by_day(qa) =~= by_day(qb));
        lemma_ordered_by_day_eq(qa, qb);
        assert(a =~= qa.push(a.last()));
        assert(b =~= qb.push(b.last()));
    }
}

proof fn lemma_upsert_each_self(s: Seq<GitHubMetricTrafficItem>, k: int)
    requires
        unique_days(s),
        0 <= k <= s.len(),
    ensures
        upsert_each(s, s.subrange(0, k)) == s,
    decreases k,
{
    if k > 0 {
        let pre = s.subrange(0, k);
        assert(pre.drop_last() =~= s.subrange(0, k - 1));
        lemma_upsert_each_self(s, k - 1);
        let p = s[k - 1];
        lemma_same_day_from(s, p.timestamp@, 0);
        let f = same_day_from(s, p.timestamp@, 0);
        if f != k - 1 {
            assert(s[f].timestamp@ == s[k - 1].timestamp@);
        }
        assert(s.update(k - 1, p) =~= s);
    }
}

proof fn lemma_upsert_point_unique(t: Seq<GitHubMetricTrafficItem>, p: GitHubMetricTrafficItem)
    requires
        unique_days(t),
    ensures
        unique_days(upsert_point(t, p)),
        upsert_point(t, p).len() >= t.len(),
{
    let d = p.timestamp@;
    lemma_same_day_from(t, d, 0);
    let u = upsert_point(t, p);
    if same_day_from(t, d, 0) >= 0 {
        let f = same_day_from(t, d, 0);
        assert forall|i: int, j: int| 0 <= i < j < u.len() implies #[trigger] u[i].timestamp@
            != #[trigger] u[j].timestamp@ by {
            assert(t[i].timestamp@ != t[j].timestamp@);
        }
    } else {
        lemma_later_day_from(t, d, 0);
        let k = later_day_from(t, d, 0);
        assert forall|i: int| 0 <= i < u.len() implies (#[trigger] u[i]) == if i < k {
            t[i]
        } else if i == k {
            p
        } else {
            t[i - 1]
        } by {}
        assert forall|i: int, j: int| 0 <= i < j < u.len() implies #[trigger] u[i].timestamp@
            != #[trigger] u[j].timestamp@ by {
            if j < k {
                assert(t[i].timestamp@ != t[j].timestamp@);
            } else if j == k {
                assert(t[i].timestamp@ != d);
            } else if i < k {
                assert(t[i].timestamp@ != t[j - 1].timestamp@);
            } else if i == k {
                assert(t[j - 1].timestamp@ != d);
            } else {
                assert(t[i - 1].timestamp@ != t[j - 1].timestamp@);
            }
        }
    }
}

proof fn lemma_upsert_each_unique(t: Seq<GitHubMetricTrafficItem>, inc: Seq<GitHubMetricTrafficItem>)
    requires
        unique_days(t),
    ensures
        unique_days(upsert_each(t, inc)),
        upsert_each(t, inc).len() >= t.len(),
    decreases inc.len(),
{
    if inc.len() > 0 {
        lemma_upsert_each_unique(t, inc.drop_last());
        lemma_upsert_point_unique(upsert_each(t, inc.drop_last()), inc.last());
    }
}

/// Merging keeps days unique: into a history with no repeated day, a window
/// yields a history with no repeated day, provided the window itself has none
/// where it is taken whole as the first history.
pub proof fn lemma_upsert_keeps_days_unique(
    target: Seq<GitHubMetricTrafficItem>,
    incoming: Seq<GitHubMetricTrafficItem>,
)
    requires
        unique_days(target),
        target.len() == 0 ==> unique_days(incoming),
    ensures
        unique_days(upsert(target, incoming)),
        upsert(target, incoming).len() >= target.len(),
{
    if target.len() > 0 {
        lemma_upsert_each_unique(target, incoming);
    }
}

/// A history after several windows were merged into it in turn.
pub open spec fn upsert_windows(
    target: Seq<GitHubMetricTrafficItem>,
    windows: Seq<Seq<GitHubMetricTrafficItem>>,
) -> Seq<GitHubMetricTrafficItem>
    decreases windows.len(),
{
    if windows.len() == 0 {
        target
    } else {
        upsert(upsert_windows(target, windows.drop_last()), windows.last())
    }
}

/// After any sequence of merges no two points of the history share a day,
/// provided no window with a repeated day is taken whole as the first history.
pub proof fn lemma_upsert_windows_unique(
    target: Seq<GitHubMetricTrafficItem>,
    windows: Seq<Seq<GitHubMetricTrafficItem>>,
)
    requires
        unique_days(target),
        forall|k: int|
            0 <= k < windows.len() && upsert_windows(target, windows.subrange(0, k)).len() == 0
                ==> unique_days(#[trigger] windows[k]),
    ensures
        unique_days(upsert_windows(target, windows)),
    decreases windows.len(),
{
    if windows.len() > 0 {
        let q = windows.drop_last();
        assert forall|k: int|
            0 <= k < q.len() && upsert_windows(target, q.subrange(0, k)).len() == 0 implies unique_days(
            #[trigger] q[k],
        ) by {
            assert(q.subrange(0, k) =~= windows.subrange(0, k));
            assert(q[k] == windows[k]);
        }
        lemma_upsert_windows_unique(target, q);
        let k = windows.len() - 1;
        assert(windows.subrange(0, k) =~= q);
        if upsert_windows(target, q).len() == 0 {
            assert(unique_days(windows[k]));
        }
        lemma_upsert_keeps_days_unique(upsert_windows(target, q), windows.last());
    }
}

/// A merged history is ordered: merging a window into an ordered history, or
/// taking an ordered window as a first history, leaves it ordered.
pub proof fn lemma_upsert_keeps_order(
    target: Seq<GitHubMetricTrafficItem>,
    incoming: Seq<GitHubMetricTrafficItem>,
)
    requires
        is_ordered(target),
        target.len() == 0 ==> is_ordered(incoming),
    ensures
        is_ordered(upsert(target, incoming)),
{
    if target.len() > 0 {
        lemma_upsert_each(target, incoming);
    }
}

/// Merging the same window a second time changes nothing.
pub proof fn lemma_upsert_idempotent(
    target: Seq<GitHubMetricTrafficItem>,
    incoming: Seq<GitHubMetricTrafficItem>,
)
    requires
        is_ordered(target),
        target.len() == 0 ==> unique_days(incoming),
    ensures
        upsert(upsert(target, incoming), incoming) == upsert(target, incoming),
{
    if target.len() == 0 {
        if incoming.len() > 0 {
            lemma_upsert_each_self(incoming, incoming.len() as int);
            assert(incoming.subrange(0, incoming.len() as int) =~= incoming);
        }
    } else {
        let r = upsert_each(target, incoming);
        lemma_upsert_each(target, incoming);
        lemma_upsert_each(r, incoming);
        let m = by_day(incoming);
        assert(by_day(target).union_prefer_right(m).union_prefer_right(m)
            =~= by_day(target).union_prefer_right(m));
        lemma_ordered_by_day_eq(upsert_each(r, incoming), r);
    }
}

proof fn lemma_same_points_same_days(
    a: Seq<GitHubMetricTrafficItem>,
    b: Seq<GitHubMetricTrafficItem>,
)
    requires
        unique_days(a),
        forall|p: GitHubMetricTrafficItem| a.contains(p) <==> b.contains(p),
    ensures
        by_day(a) == by_day(b),
{
    lemma_by_day(a);
    lemma_by_day(b);
    lemma_by_day_unique(a);
    assert forall|x: Seq<char>| #[trigger] by_day(a).contains_key(x) == by_day(b).contains_key(
        x,
    ) by {
        if by_day(a).contains_key(x) {
            let i = choose|i: int| 0 <= i < a.len() && a[i].timestamp@ == x && by_day(a)[x] == a[i];
            assert(a.contains(a[i]));
            let j = choose|j: int| 0 <= j < b.len() && b[j] == a[i];
            assert(b[j].timestamp@ == x);
        }
        if by_day(b).contains_key(x) {
            let j = choose|j: int| 0 <= j < b.len() && b[j].timestamp@ == x && by_day(b)[x] == b[j];
            assert(b.contains(b[j]));
            let i = choose|i: int| 0 <= i < a.len() && a[i] == b[j];
            assert(a[i].timestamp@ == x);
        }
    }
    assert forall|x: Seq<char>| #[trigger] by_day(a).contains_key(x) implies by_day(a)[x]
        == by_day(b)[x] by {
        assert(by_day(b).contains_key(x));
        let j = choose|j: int| 0 <= j < b.len() && b[j].timestamp@ == x && by_day(b)[x] == b[j];
        assert(b.contains(b[j]));
        let i = choose|i: int| 0 <= i < a.len() && a[i] == b[j];
        assert(by_day(a)[a[i].timestamp@] == a[i]);
    }
    assert(by_day(a) =~= by_day(b));
}

/// Merging a window with no repeated day into a non-empty ordered history
/// gives the same history whatever the order of the window's points.
pub proof fn lemma_upsert_order_independent(
    target: Seq<GitHubMetricTrafficItem>,
    incoming: Seq<GitHubMetricTrafficItem>,
    permuted: Seq<GitHubMetricTrafficItem>,
)
    requires
        is_ordered(target),
        target.len() > 0,
        unique_days(incoming),
        permuted.to_multiset() == incoming.to_multiset(),
    ensures
        upsert(target, permuted) == upsert(target, incoming),
{
    assert forall|p: GitHubMetricTrafficItem| incoming.contains(p) <==> permuted.contains(p) by {
        incoming.to_multiset_ensures();
        permuted.to_multiset_ensures();
        assert(incoming.contains(p) <==> incoming.to_multiset().count(p) > 0);
        assert(permuted.contains(p) <==> permuted.to_multiset().count(p) > 0);
    }
    lemma_same_points_same_days(incoming, permuted);
    lemma_upsert_each(target, incoming);
    lemma_upsert_each(target, permuted);
    lemma_ordered_by_day_eq(upsert_each(target, permuted), upsert_each(target, incoming));
}

/// Folds one point into `target`: it replaces the first point of the same day,
/// or else goes before the first point of a later day, or at the end.
fn upsert_item(target: &mut Vec<GitHubMetricTrafficItem>, item: GitHubMetricTrafficItem)
    ensures
        final(target)@ == upsert_point(old(target)@, item),
{
    let ghost t = target@;
    let ghost d = item.timestamp@;
    let mut i: usize = 0;
    while i < target.len()
        invariant
            target@ == t,
            t == old(target)@,
            d == item.timestamp@,
            0 <= i <= t.len(),
            same_day_from(t, d, 0) == same_day_from(t, d, i as int),
        decreases t.len() - i,
    {
        match compare_days(&target[i].timestamp, &item.timestamp) {
            Ordering::Equal => {
                target[i] = item;
                return;
            },
            _ => {},
        }
        i = i + 1;
    }
    let mut j: usize = 0;
    while j < target.len()
        invariant
            target@ == t,
            t == old(target)@,
            d == item.timestamp@,
            0 <= j <= t.len(),
            same_day_from(t, d, 0) == -1,
            later_day_from(t, d, 0) == later_day_from(t, d, j as int),
        decreases t.len() - j,
    {
        match compare_days(&target[j].timestamp, &item.timestamp) {
            Ordering::Greater => {
                target.insert(j, item);
                return;
            },
            _ => {},
        }
        j = j + 1;
    }
    target.push(item);
}

/// Merges a freshly fetched window into a time series.
///
/// An empty `target` becomes `source` as given. Otherwise each point of
/// `source`, in order, replaces the point of its day in `target` or is
/// inserted in day order.
pub fn find_and_insert(
    target: &mut Vec<GitHubMetricTrafficItem>,
    source: Vec<GitHubMetricTrafficItem>,
)
    ensures
        final(target)@ == upsert(old(target)@, source@),
        old(target)@.len() == 0 ==> final(target)@ == source@,
        source@.len() == 0 ==> final(target)@ == old(target)@,
        is_ordered(old(target)@) && (old(target)@.len() == 0 ==> is_ordered(source@))
            ==> is_ordered(final(target)@),
        unique_days(old(target)@) && (old(target)@.len() == 0 ==> unique_days(source@))
            ==> unique_days(final(target)@),
{
    proof {
        if is_ordered(old(target)@) && (old(target)@.len() == 0 ==> is_ordered(source@)) {
            lemma_upsert_keeps_order(old(target)@, source@);
        }
        if unique_days(old(target)@) && (old(target)@.len() == 0 ==> unique_days(source@)) {
            lemma_upsert_keeps_days_unique(old(target)@, source@);
        }
    }
    if target.len() == 0 {
        *target = source;
        return;
    }
    let ghost t0 = target@;
    let ghost src = source@;
    let n = source.len();
    let mut rest = source;
    let mut k: usize = 0;
    while rest.len() > 0
        invariant
            0 <= k <= src.len(),
            src.len() == n,
            rest@ == src.subrange(k as int, src.len() as int),
            target@ == upsert_each(t0, src.subrange(0, k as int)),
        decreases rest@.len(),
    {
        let item = rest.remove(0);
        proof {
            assert(src.subrange(0, k + 1).drop_last() =~= src.subrange(0, k as int));
        }
        upsert_item(target, item);
        k = k + 1;
        proof {
            assert(rest@ =~= src.subrange(k as int, src.len() as int));
        }
    }
    proof {
        assert(src.subrange(0, k as int) =~= src);
    }
}

} // verus!
