//! Ordering of calendar-day identifiers.
//!
//! A day is identified by its timestamp text. Days are ordered as Rust orders
//! strings: lexicographically by their UTF-8 bytes.
use std::cmp::Ordering;
use vstd::prelude::*;
use vstd::utf8::*;

verus! {

/// Lexicographic "less than" on byte sequences, looking only at positions from `i` on.
pub open spec fn bytes_lt_from(a: Seq<u8>, b: Seq<u8>, i: int) -> bool
    decreases a.len() - i,
{
    if i >= a.len() {
        i < b.len()
    } else if i >= b.len() {
        false
    } else if a[i] != b[i] {
        a[i] < b[i]
    } else {
        bytes_lt_from(a, b, i + 1)
    }
}

/// Lexicographic "less than" on byte sequences.
pub open spec fn bytes_lt(a: Seq<u8>, b: Seq<u8>) -> bool {
    bytes_lt_from(a, b, 0)
}

/// Day `a` comes strictly before day `b`.
pub open spec fn day_lt(a: Seq<char>, b: Seq<char>) -> bool {
    bytes_lt(encode_utf8(a), encode_utf8(b))
}

proof fn lemma_bytes_lt_from_irreflexive(a: Seq<u8>, i: int)
    requires
        0 <= i,
    ensures
        !bytes_lt_from(a, a, i),
    decreases a.len() - i,
{
    if i < a.len() {
        lemma_bytes_lt_from_irreflexive(a, i + 1);
    }
}

proof fn lemma_bytes_lt_from_transitive(a: Seq<u8>, b: Seq<u8>, c: Seq<u8>, i: int)
    requires
        0 <= i,
        bytes_lt_from(a, b, i),
        bytes_lt_from(b, c, i),
    ensures
        bytes_lt_from(a, c, i),
    decreases a.len() - i,
{
    if i < a.len() && i < b.len() && i < c.len() && a[i] == b[i] && b[i] == c[i] {
        lemma_bytes_lt_from_transitive(a, b, c, i + 1);
    }
}

proof fn lemma_bytes_lt_from_total(a: Seq<u8>, b: Seq<u8>, i: int)
    requires
        0 <= i <= a.len(),
        i <= b.len(),
        !bytes_lt_from(a, b, i),
        !bytes_lt_from(b, a, i),
    ensures
        a.len() == b.len(),
        forall|j: int| i <= j < a.len() ==> a[j] == b[j],
    decreases a.len() - i,
{
    if i < a.len() {
        lemma_bytes_lt_from_total(a, b, i + 1);
    }
}

/// No day comes before itself.
pub proof fn lemma_day_lt_irreflexive(a: Seq<char>)
    ensures
        !day_lt(a, a),
{
    lemma_bytes_lt_from_irreflexive(encode_utf8(a), 0);
}

/// The order of days is transitive.
pub proof fn lemma_day_lt_transitive(a: Seq<char>, b: Seq<char>, c: Seq<char>)
    requires
        day_lt(a, b),
        day_lt(b, c),
    ensures
        day_lt(a, c),
{
    lemma_bytes_lt_from_transitive(encode_utf8(a), encode_utf8(b), encode_utf8(c), 0);
}

/// Any two distinct days are ordered one way or the other.
pub proof fn lemma_day_lt_total(a: Seq<char>, b: Seq<char>)
    ensures
        a == b || day_lt(a, b) || day_lt(b, a),
{
    let x = encode_utf8(a);
    let y = encode_utf8(b);
    if !day_lt(a, b) && !day_lt(b, a) {
        lemma_bytes_lt_from_total(x, y, 0);
        lemma_bytes_lt_from_total(y, x, 0);
        assert(x =~= y);
        encode_utf8_decode_utf8(a);
        encode_utf8_decode_utf8(b);
    }
}

/// Compares two day identifiers the way Rust compares strings.
pub fn compare_days(a: &String, b: &String) -> (r: Ordering)
    ensures
        (r == Ordering::Less) == day_lt(a@, b@),
        (r == Ordering::Greater) == day_lt(b@, a@),
        (r == Ordering::Equal) == (a@ == b@),
{
    let x = a.as_str().as_bytes();
    let y = b.as_str().as_bytes();
    let ghost xs = encode_utf8(a@);
    let ghost ys = encode_utf8(b@);
    assert(x@ == xs);
    assert(y@ == ys);
    proof {
        lemma_day_lt_irreflexive(a@);
        lemma_day_lt_total(a@, b@);
        if day_lt(a@, b@) && day_lt(b@, a@) {
            lemma_day_lt_transitive(a@, b@, a@);
        }
    }
    let mut i: usize = 0;
    while i < x.len() && i < y.len()
        invariant
            xs == encode_utf8(a@),
            ys == encode_utf8(b@),
            !(day_lt(a@, b@) && day_lt(b@, a@)),
            x@ == xs,
            y@ == ys,
            i <= x@.len(),
            i <= y@.len(),
            bytes_lt_from(xs, ys, 0) == bytes_lt_from(xs, ys, i as int),
            bytes_lt_from(ys, xs, 0) == bytes_lt_from(ys, xs, i as int),
        decreases x@.len() - i,
    {
        let xi = x[i];
        let yi = y[i];
        assert(xi == xs[i as int] && yi == ys[i as int]);
        if xi < yi {
            assert(bytes_lt_from(xs, ys, i as int));
            assert(!bytes_lt_from(ys, xs, i as int));
            return Ordering::Less;
        } else if xi > yi {
            assert(bytes_lt_from(ys, xs, i as int));
            assert(!bytes_lt_from(xs, ys, i as int));
            return Ordering::Greater;
        }
        i = i + 1;
    }
    if i < y.len() {
        Ordering::Less
    } else if i < x.len() {
        Ordering::Greater
    } else {
        Ordering::Equal
    }
}

} // verus!
