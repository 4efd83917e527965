//! Byte strings under the lexicographic order of an ordered byte store:
//! bytes are compared from the front, and a string sorts after each of its
//! proper prefixes.

use vstd::prelude::*;

verus! {

/// `a` and `b` hold the same bytes before position `i` and differ at `i`.
pub open spec fn first_difference(a: Seq<u8>, b: Seq<u8>, i: int) -> bool {
    &&& 0 <= i < a.len()
    &&& i < b.len()
    &&& a[i] != b[i]
    &&& forall|j: int|
        #![trigger a[j]]
        #![trigger b[j]]
        0 <= j < i ==> a[j] == b[j]
}

/// `a` sorts strictly before `b`: either `a` is a proper prefix of `b`, or at
/// the first position where they differ `a` holds the smaller byte.
pub open spec fn lex_lt(a: Seq<u8>, b: Seq<u8>) -> bool {
    ||| a.len() < b.len() && a.is_prefix_of(b)
    ||| exists|i: int| #[trigger] first_difference(a, b, i) && a[i] < b[i]
}

/// `a` sorts before `b` or is `b`.
pub open spec fn lex_le(a: Seq<u8>, b: Seq<u8>) -> bool {
    a == b || lex_lt(a, b)
}

/// `a` and `b` hold the same bytes at every position below `n`.
pub open spec fn agree_below(a: Seq<u8>, b: Seq<u8>, n: int) -> bool {
    &&& 0 <= n <= a.len()
    &&& n <= b.len()
    &&& forall|j: int|
        #![trigger a[j]]
        #![trigger b[j]]
        0 <= j < n ==> a[j] == b[j]
}

/// A string that agrees with another on all of its own positions is a prefix of it.
pub proof fn lemma_agree_is_prefix(p: Seq<u8>, s: Seq<u8>)
    ensures
        agree_below(p, s, p.len() as int) <==> p.is_prefix_of(s),
{
    if agree_below(p, s, p.len() as int) {
        assert(p =~= s.subrange(0, p.len() as int));
    }
    if p.is_prefix_of(s) {
        assert forall|j: int| 0 <= j < p.len() implies p[j] == s[j] by {
            assert(s.subrange(0, p.len() as int)[j] == s[j]);
        }
    }
}

proof fn lemma_search_difference(a: Seq<u8>, b: Seq<u8>, n: int)
    requires
        agree_below(a, b, n),
    ensures
        a.is_prefix_of(b) || b.is_prefix_of(a) || exists|i: int| first_difference(a, b, i),
    decreases a.len() - n,
{
    if n == a.len() {
        lemma_agree_is_prefix(a, b);
    } else if n == b.len() {
        assert(agree_below(b, a, n));
        lemma_agree_is_prefix(b, a);
    } else if a[n] != b[n] {
        assert(first_difference(a, b, n));
    } else {
        lemma_search_difference(a, b, n + 1);
    }
}

/// Two byte strings either differ at some first position, or one of them is
/// a prefix of the other.
pub proof fn lemma_prefix_or_difference(a: Seq<u8>, b: Seq<u8>)
    ensures
        a.is_prefix_of(b) || b.is_prefix_of(a) || exists|i: int| first_difference(a, b, i),
{
    lemma_search_difference(a, b, 0);
}

/// The position of the first difference is unique, and where there is one
/// neither string is a prefix of the other.
pub proof fn lemma_first_difference_unique(a: Seq<u8>, b: Seq<u8>, i: int, j: int)
    requires
        first_difference(a, b, i),
    ensures
        first_difference(a, b, j) ==> i == j,
        first_difference(b, a, i),
        !a.is_prefix_of(b),
        !b.is_prefix_of(a),
{
    if first_difference(a, b, j) {
        if i < j {
            assert(a[i] == b[i]);
        }
        if j < i {
            assert(a[j] == b[j]);
        }
    }
    lemma_agree_is_prefix(a, b);
    lemma_agree_is_prefix(b, a);
    if a.is_prefix_of(b) {
        assert(a[i] == b[i]);
    }
    if b.is_prefix_of(a) {
        assert(b[i] == a[i]);
    }
}

/// No byte string sorts before itself.
pub proof fn lemma_lex_irreflexive(a: Seq<u8>)
    ensures
        !lex_lt(a, a),
{
}

/// Two byte strings never sort before each other.
pub proof fn lemma_lex_asymmetric(a: Seq<u8>, b: Seq<u8>)
    ensures
        !(lex_lt(a, b) && lex_lt(b, a)),
{
    if lex_lt(a, b) && lex_lt(b, a) {
        if exists|i: int| #[trigger] first_difference(a, b, i) && a[i] < b[i] {
            let i = choose|i: int| #[trigger] first_difference(a, b, i) && a[i] < b[i];
            if exists|k: int| #[trigger] first_difference(b, a, k) && b[k] < a[k] {
                let k = choose|k: int| #[trigger] first_difference(b, a, k) && b[k] < a[k];
                lemma_first_difference_unique(b, a, k, k);
                lemma_first_difference_unique(a, b, i, k);
            } else {
                lemma_first_difference_unique(a, b, i, i);
            }
        } else {
            if exists|k: int| #[trigger] first_difference(b, a, k) && b[k] < a[k] {
                let k = choose|k: int| #[trigger] first_difference(b, a, k) && b[k] < a[k];
                lemma_first_difference_unique(b, a, k, k);
            }
        }
    }
}

/// The order is total: of two different byte strings one sorts before the other.
pub proof fn lemma_lex_total(a: Seq<u8>, b: Seq<u8>)
    ensures
        lex_lt(a, b) || a == b || lex_lt(b, a),
{
    lemma_prefix_or_difference(a, b);
    if a.is_prefix_of(b) && b.is_prefix_of(a) {
        assert(a =~= b);
    } else if a.is_prefix_of(b) {
    } else if b.is_prefix_of(a) {
    } else {
        let i = choose|i: int| first_difference(a, b, i);
        lemma_first_difference_unique(a, b, i, i);
    }
}

/// The order is transitive.
pub proof fn lemma_lex_transitive(a: Seq<u8>, b: Seq<u8>, c: Seq<u8>)
    requires
        lex_lt(a, b),
        lex_lt(b, c),
    ensures
        lex_lt(a, c),
{
    lemma_agree_is_prefix(a, b);
    lemma_agree_is_prefix(b, c);
    lemma_agree_is_prefix(a, c);
    if exists|i: int| #[trigger] first_difference(a, b, i) && a[i] < b[i] {
        let i = choose|i: int| #[trigger] first_difference(a, b, i) && a[i] < b[i];
        if exists|k: int| #[trigger] first_difference(b, c, k) && b[k] < c[k] {
            let k = choose|k: int| #[trigger] first_difference(b, c, k) && b[k] < c[k];
            if i <= k {
                assert(first_difference(a, c, i));
            } else {
                assert(first_difference(a, c, k));
            }
        } else {
            assert(first_difference(a, c, i));
        }
    } else {
        if exists|k: int| #[trigger] first_difference(b, c, k) && b[k] < c[k] {
            let k = choose|k: int| #[trigger] first_difference(b, c, k) && b[k] < c[k];
            if k < a.len() {
                assert(first_difference(a, c, k));
            } else {
                assert(agree_below(a, c, a.len() as int));
            }
        } else {
            assert(agree_below(a, c, a.len() as int));
        }
    }
}

/// A prefix never sorts after the string it begins.
pub proof fn lemma_prefix_is_le(p: Seq<u8>, s: Seq<u8>)
    requires
        p.is_prefix_of(s),
    ensures
        lex_le(p, s),
{
    if p.len() == s.len() {
        assert(p =~= s);
    }
}

/// The strings that begin with `p` lie together in the order: whatever sorts
/// between `p` and a string that begins with `p` begins with `p` too.
pub proof fn lemma_between_prefix_and_extension(p: Seq<u8>, y: Seq<u8>, z: Seq<u8>)
    requires
        p.is_prefix_of(z),
        lex_le(p, y),
        lex_le(y, z),
    ensures
        p.is_prefix_of(y),
{
    lemma_agree_is_prefix(p, z);
    lemma_agree_is_prefix(p, y);
    if p != y && !(p.len() < y.len() && p.is_prefix_of(y)) {
        let i = choose|i: int| #[trigger] first_difference(p, y, i) && p[i] < y[i];
        assert(first_difference(z, y, i));
        assert(lex_lt(z, y));
        lemma_lex_asymmetric(y, z);
        assert(z != y);
    }
}

/// Putting the same bytes in front of two strings leaves their order as it was.
pub proof fn lemma_common_front_keeps_order(p: Seq<u8>, a: Seq<u8>, b: Seq<u8>)
    ensures
        lex_lt(p + a, p + b) <==> lex_lt(a, b),
{
    let pa = p + a;
    let pb = p + b;
    let n = p.len() as int;
    assert forall|j: int| 0 <= j < a.len() implies #[trigger] pa[n + j] == a[j] by {}
    assert forall|j: int| 0 <= j < b.len() implies #[trigger] pb[n + j] == b[j] by {}
    lemma_agree_is_prefix(a, b);
    lemma_agree_is_prefix(pa, pb);
    if lex_lt(a, b) {
        if exists|i: int| #[trigger] first_difference(a, b, i) && a[i] < b[i] {
            let i = choose|i: int| #[trigger] first_difference(a, b, i) && a[i] < b[i];
            assert(pa[n + i] == a[i] && pb[n + i] == b[i]);
            assert forall|j: int| 0 <= j < n + i implies pa[j] == pb[j] by {
                if j >= n {
                    assert(pa[n + (j - n)] == a[j - n]);
                    assert(pb[n + (j - n)] == b[j - n]);
                }
            }
            assert(first_difference(pa, pb, n + i));
        } else {
            assert forall|j: int| 0 <= j < pa.len() implies pa[j] == pb[j] by {
                if j >= n {
                    assert(pa[n + (j - n)] == a[j - n]);
                    assert(pb[n + (j - n)] == b[j - n]);
                }
            }
            assert(agree_below(pa, pb, pa.len() as int));
        }
    }
    if lex_lt(pa, pb) {
        if exists|i: int| #[trigger] first_difference(pa, pb, i) && pa[i] < pb[i] {
            let i = choose|i: int| #[trigger] first_difference(pa, pb, i) && pa[i] < pb[i];
            if i < n {
                assert(pa[i] == p[i] && pb[i] == p[i]);
            }
            assert(pa[n + (i - n)] == a[i - n] && pb[n + (i - n)] == b[i - n]);
            assert forall|j: int| 0 <= j < i - n implies a[j] == b[j] by {
                assert(pa[n + j] == pb[n + j]);
            }
            assert(first_difference(a, b, i - n));
        } else {
            assert forall|j: int| 0 <= j < a.len() implies a[j] == b[j] by {
                assert(pa[n + j] == pb[n + j]);
            }
            assert(agree_below(a, b, a.len() as int));
        }
    }
}

/// Whether `s` begins with the bytes of `p`.
pub fn starts_with(s: &[u8], p: &[u8]) -> (r: bool)
    ensures
        r == p@.is_prefix_of(s@),
{
    if p.len() > s.len() {
        return false;
    }
    let mut i: usize = 0;
    while i < p.len()
        invariant
            p@.len() <= s@.len(),
            agree_below(p@, s@, i as int),
        decreases p.len() - i,
    {
        if p[i] != s[i] {
            proof {
                lemma_agree_is_prefix(p@, s@);
            }
            return false;
        }
        i += 1;
    }
    proof {
        lemma_agree_is_prefix(p@, s@);
    }
    true
}

/// Whether `a` sorts strictly before `b`.
pub fn lex_less(a: &[u8], b: &[u8]) -> (r: bool)
    ensures
        r == lex_lt(a@, b@),
{
    let mut i: usize = 0;
    while i < a.len() && i < b.len()
        invariant
            agree_below(a@, b@, i as int),
        decreases a.len() - i,
    {
        if a[i] != b[i] {
            proof {
                assert(first_difference(a@, b@, i as int));
                lemma_first_difference_unique(a@, b@, i as int, i as int);
                assert forall|k: int| first_difference(a@, b@, k) implies k == i by {
                    lemma_first_difference_unique(a@, b@, i as int, k);
                }
            }
            return a[i] < b[i];
        }
        i += 1;
    }
    proof {
        lemma_agree_is_prefix(a@, b@);
        lemma_agree_is_prefix(b@, a@);
        if i == a.len() {
            assert(a@.is_prefix_of(b@));
            assert forall|k: int| !first_difference(a@, b@, k) by {}
        } else {
            assert(agree_below(b@, a@, b@.len() as int));
            assert forall|k: int| !first_difference(a@, b@, k) by {}
        }
    }
    a.len() < b.len()
}

} // verus!
