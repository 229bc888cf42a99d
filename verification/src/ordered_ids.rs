//! Increasing lists of distinct texts: the listing of a finite set in
//! code-point order, as iterating a `BTreeSet<String>` gives it.
use vstd::prelude::*;
use crate::text::{
    seq_lt, str_eq, str_lt, strs_view, lemma_seq_lt_irreflexive, lemma_seq_lt_transitive,
    lemma_seq_lt_total, lemma_seq_lt_asymmetric,
};

verus! {

/// Strictly increasing in code-point order.
pub open spec fn ascending(s: Seq<Seq<char>>) -> bool {
    forall|i: int, j: int| 0 <= i < j < s.len() ==> seq_lt(#[trigger] s[i], #[trigger] s[j])
}

/// The ids of a finite set listed in increasing order.
pub open spec fn ascending_listing(set: Set<Seq<char>>) -> Seq<Seq<char>> {
    choose|s: Seq<Seq<char>>| ascending(s) && s.to_set() == set
}

/// An ascending listing is determined by its set.
pub proof fn lemma_ascending_unique(a: Seq<Seq<char>>, b: Seq<Seq<char>>)
    requires
        ascending(a),
        ascending(b),
        a.to_set() == b.to_set(),
    ensures
        a == b,
    decreases a.len(),
{
    if a.len() == 0 {
        if b.len() > 0 {
            assert(b.to_set().contains(b[0]));
        }
        assert(a =~= b);
    } else {
        assert(a.to_set().contains(a[0]));
        assert(b.len() > 0);
        assert(b.to_set().contains(b[0]));
        let ja = choose|j: int| 0 <= j < b.len() && b[j] == a[0];
        let jb = choose|j: int| 0 <= j < a.len() && a[j] == b[0];
        if ja > 0 {
            assert(seq_lt(b[0], b[ja]));
            if jb > 0 {
                assert(seq_lt(a[0], a[jb]));
                lemma_seq_lt_asymmetric(a[0], b[0]);
            } else {
                lemma_seq_lt_irreflexive(a[0]);
            }
        }
        assert(a[0] == b[0]);
        let a2 = a.drop_first();
        let b2 = b.drop_first();
        assert(a2.to_set() =~= b2.to_set()) by {
            assert forall|x| a2.to_set().contains(x) <==> b2.to_set().contains(x) by {
                if a2.to_set().contains(x) {
                    let j = choose|j: int| 0 <= j < a2.len() && a2[j] == x;
                    assert(a.to_set().contains(x)) by {
                        assert(a[j + 1] == x);
                    }
                    let k = choose|k: int| 0 <= k < b.len() && b[k] == x;
                    assert(seq_lt(a[0], a[j + 1]));
                    if k == 0 {
                        lemma_seq_lt_irreflexive(x);
                    }
                    assert(b2[k - 1] == x);
                }
                if b2.to_set().contains(x) {
                    let j = choose|j: int| 0 <= j < b2.len() && b2[j] == x;
                    assert(b.to_set().contains(x)) by {
                        assert(b[j + 1] == x);
                    }
                    let k = choose|k: int| 0 <= k < a.len() && a[k] == x;
                    assert(seq_lt(b[0], b[j + 1]));
                    if k == 0 {
                        lemma_seq_lt_irreflexive(x);
                    }
                    assert(a2[k - 1] == x);
                }
            }
        }
        lemma_ascending_unique(a2, b2);
        assert(a =~= b) by {
            assert forall|i: int| 0 <= i < a.len() implies a[i] == b[i] by {
                if i > 0 {
                    assert(a[i] == a2[i - 1]);
                    assert(b[i] == b2[i - 1]);
                }
            }
        }
    }
}

pub proof fn lemma_ascending_listing_is(s: Seq<Seq<char>>, set: Set<Seq<char>>)
    requires
        ascending(s),
        s.to_set() == set,
    ensures
        ascending_listing(set) == s,
{
    let c = ascending_listing(set);
    assert(ascending(c) && c.to_set() == set);
    lemma_ascending_unique(c, s);
}

/// Inserts `x` into an increasing list of distinct ids, keeping it so.
pub fn insert_ascending(v: &mut Vec<String>, x: &str)
    requires
        ascending(strs_view(old(v)@)),
    ensures
        ascending(strs_view(final(v)@)),
        strs_view(final(v)@).to_set() == strs_view(old(v)@).to_set().insert(x@),
{
    let ghost s0 = strs_view(v@);
    let mut p: usize = 0;
    while p < v.len() && str_lt(v[p].as_str(), x)
        invariant
            0 <= p <= v@.len(),
            s0 == strs_view(v@),
            forall|k: int| 0 <= k < p ==> seq_lt(#[trigger] s0[k], x@),
        decreases v@.len() - p,
    {
        p = p + 1;
    }
    if p < v.len() && str_eq(v[p].as_str(), x) {
        proof {
            assert(s0.to_set().insert(x@) =~= s0.to_set()) by {
                assert(s0[p as int] == x@);
            }
        }
        return;
    }
    proof {
        if p < s0.len() {
            lemma_seq_lt_total(s0[p as int], x@);
            assert(seq_lt(x@, s0[p as int]));
            assert forall|k: int| p <= k < s0.len() implies seq_lt(x@, #[trigger] s0[k]) by {
                if k > p {
                    lemma_seq_lt_transitive(x@, s0[p as int], s0[k]);
                }
            }
        }
    }
    v.insert(p, x.to_owned());
    proof {
        let s1 = strs_view(v@);
        assert(s1 =~= s0.insert(p as int, x@));
        assert forall|i: int, j: int| 0 <= i < j < s1.len() implies seq_lt(
            #[trigger] s1[i],
            #[trigger] s1[j],
        ) by {
            if j < p {
            } else if j == p {
            } else if i < p {
                assert(s1[j] == s0[j - 1]);
                assert(s1[i] == s0[i]);
            } else if i == p {
                assert(s1[j] == s0[j - 1]);
            } else {
                assert(s1[j] == s0[j - 1]);
                assert(s1[i] == s0[i - 1]);
            }
        }
        assert(s1.to_set() =~= s0.to_set().insert(x@)) by {
            assert forall|y| s1.to_set().contains(y) <==> s0.to_set().insert(x@).contains(y) by {
                if s1.to_set().contains(y) {
                    let k = choose|k: int| 0 <= k < s1.len() && s1[k] == y;
                    if k < p {
                        assert(s0[k] == y);
                    } else if k > p {
                        assert(s0[k - 1] == y);
                    }
                }
                if s0.to_set().contains(y) {
                    let k = choose|k: int| 0 <= k < s0.len() && s0[k] == y;
                    if k < p {
                        assert(s1[k] == y);
                    } else {
                        assert(s1[k + 1] == y);
                    }
                }
                if y == x@ {
                    assert(s1[p as int] == y);
                }
            }
        }
    }
}

/// Appending the next element of an increasing source to an increasing
/// list drawn from the source's earlier elements keeps the list increasing.
pub proof fn lemma_ascending_push_from(a: Seq<Seq<char>>, src: Seq<Seq<char>>, i: int)
    requires
        ascending(a),
        ascending(src),
        0 <= i < src.len(),
        forall|k: int| 0 <= k < a.len() ==> src.take(i).contains(#[trigger] a[k]),
    ensures
        ascending(a.push(src[i])),
        a.push(src[i]).to_set() == a.to_set().insert(src[i]),
{
    let b = a.push(src[i]);
    assert forall|p: int, q: int| 0 <= p < q < b.len() implies seq_lt(#[trigger] b[p], #[trigger] b[q]) by {
        if q == a.len() {
            assert(src.take(i).contains(a[p]));
            let j = choose|j: int| 0 <= j < src.take(i).len() && src.take(i)[j] == a[p];
            assert(src[j] == a[p]);
        }
    }
    assert(b.to_set() =~= a.to_set().insert(src[i])) by {
        assert forall|y| b.to_set().contains(y) <==> a.to_set().insert(src[i]).contains(y) by {
            if b.to_set().contains(y) {
                let k = choose|k: int| 0 <= k < b.len() && b[k] == y;
                if k < a.len() {
                    assert(a[k] == y);
                }
            }
            if a.to_set().contains(y) {
                let k = choose|k: int| 0 <= k < a.len() && a[k] == y;
                assert(b[k] == y);
            }
            if y == src[i] {
                assert(b[a.len() as int] == y);
            }
        }
    }
}

pub proof fn lemma_take_push_set(src: Seq<Seq<char>>, i: int)
    requires
        0 <= i < src.len(),
    ensures
        src.take(i + 1).to_set() == src.take(i).to_set().insert(src[i]),
{
    assert(src.take(i + 1) =~= src.take(i).push(src[i]));
    assert(src.take(i).push(src[i]).to_set() =~= src.take(i).to_set().insert(src[i])) by {
        let a = src.take(i);
        let b = a.push(src[i]);
        assert forall|y| b.to_set().contains(y) <==> a.to_set().insert(src[i]).contains(y) by {
            if b.to_set().contains(y) {
                let k = choose|k: int| 0 <= k < b.len() && b[k] == y;
                if k < a.len() {
                    assert(a[k] == y);
                }
            }
            if a.to_set().contains(y) {
                let k = choose|k: int| 0 <= k < a.len() && a[k] == y;
                assert(b[k] == y);
            }
            if y == src[i] {
                assert(b[a.len() as int] == y);
            }
        }
    }
}

/// An increasing list with one more id inserted in its place.
proof fn lemma_insert_exists(l: Seq<Seq<char>>, x: Seq<char>) -> (r: Seq<Seq<char>>)
    requires
        ascending(l),
        !l.contains(x),
    ensures
        ascending(r),
        r.to_set() == l.to_set().insert(x),
    decreases l.len(),
{
    if l.len() == 0 {
        let r = seq![x];
        assert(r.to_set() =~= l.to_set().insert(x)) by {
            assert forall|y| r.to_set().contains(y) <==> l.to_set().insert(x).contains(y) by {
                if r.to_set().contains(y) {
                    let k = choose|k: int| 0 <= k < r.len() && r[k] == y;
                }
                if y == x {
                    assert(r[0] == y);
                }
            }
        }
        r
    } else {
        assert(l.contains(l[0]));
        lemma_seq_lt_total(x, l[0]);
        if seq_lt(x, l[0]) {
            let r = seq![x] + l;
            assert forall|i: int, j: int| 0 <= i < j < r.len() implies seq_lt(#[trigger] r[i], #[trigger] r[j]) by {
                if i == 0 {
                    if j > 1 {
                        assert(seq_lt(l[0], l[j - 1]));
                        lemma_seq_lt_transitive(x, l[0], l[j - 1]);
                    }
                } else {
                    assert(r[i] == l[i - 1] && r[j] == l[j - 1]);
                }
            }
            assert(r.to_set() =~= l.to_set().insert(x)) by {
                assert forall|y| r.to_set().contains(y) <==> l.to_set().insert(x).contains(y) by {
                    if r.to_set().contains(y) {
                        let k = choose|k: int| 0 <= k < r.len() && r[k] == y;
                        if k > 0 {
                            assert(l[k - 1] == y);
                        }
                    }
                    if l.to_set().contains(y) {
                        let k = choose|k: int| 0 <= k < l.len() && l[k] == y;
                        assert(r[k + 1] == y);
                    }
                    if y == x {
                        assert(r[0] == y);
                    }
                }
            }
            r
        } else {
            assert(x != l[0]);
            assert(seq_lt(l[0], x));
            let rest = l.drop_first();
            assert(ascending(rest)) by {
                assert forall|i: int, j: int| 0 <= i < j < rest.len() implies seq_lt(#[trigger] rest[i], #[trigger] rest[j]) by {
                    assert(rest[i] == l[i + 1] && rest[j] == l[j + 1]);
                }
            }
            assert(!rest.contains(x)) by {
                if rest.contains(x) {
                    let k = choose|k: int| 0 <= k < rest.len() && rest[k] == x;
                    assert(l[k + 1] == x);
                }
            }
            let t = lemma_insert_exists(rest, x);
            let r = seq![l[0]] + t;
            assert forall|i: int, j: int| 0 <= i < j < r.len() implies seq_lt(#[trigger] r[i], #[trigger] r[j]) by {
                if i == 0 {
                    let y = t[j - 1];
                    assert(r[j] == y);
                    assert(t.to_set().contains(y));
                    if y != x {
                        assert(rest.to_set().contains(y));
                        let k = choose|k: int| 0 <= k < rest.len() && rest[k] == y;
                        assert(l[k + 1] == y);
                    }
                } else {
                    assert(r[i] == t[i - 1] && r[j] == t[j - 1]);
                }
            }
            assert(r.to_set() =~= l.to_set().insert(x)) by {
                assert forall|y| r.to_set().contains(y) <==> l.to_set().insert(x).contains(y) by {
                    if r.to_set().contains(y) {
                        let k = choose|k: int| 0 <= k < r.len() && r[k] == y;
                        if k > 0 {
                            assert(t[k - 1] == y);
                            assert(t.to_set().contains(y));
                            if y != x {
                                assert(rest.to_set().contains(y));
                                let m = choose|m: int| 0 <= m < rest.len() && rest[m] == y;
                                assert(l[m + 1] == y);
                            }
                        }
                    }
                    if l.to_set().contains(y) {
                        let k = choose|k: int| 0 <= k < l.len() && l[k] == y;
                        if k == 0 {
                            assert(r[0] == y);
                        } else {
                            assert(rest[k - 1] == y);
                            assert(rest.to_set().contains(y));
                            assert(t.to_set().contains(y));
                            let m = choose|m: int| 0 <= m < t.len() && t[m] == y;
                            assert(r[m + 1] == y);
                        }
                    }
                    if y == x {
                        assert(t.to_set().contains(x));
                        let m = choose|m: int| 0 <= m < t.len() && t[m] == x;
                        assert(r[m + 1] == y);
                    }
                }
            }
            r
        }
    }
}

/// Every finite set of ids has its increasing listing.
pub proof fn lemma_ascending_listing_exists(set: Set<Seq<char>>)
    requires
        set.finite(),
    ensures
        ascending(ascending_listing(set)),
        ascending_listing(set).to_set() == set,
    decreases set.len(),
{
    if set.len() == 0 {
        let e = Seq::<Seq<char>>::empty();
        assert(set =~= Set::empty()) by {
            if exists|y| set.contains(y) {
                let y = choose|y| set.contains(y);
                vstd::set_lib::lemma_len_subset(set![y], set);
            }
        }
        assert(e.to_set() =~= set);
        lemma_ascending_listing_is(e, set);
    } else {
        let x = set.choose();
        let smaller = set.remove(x);
        lemma_ascending_listing_exists(smaller);
        let l = ascending_listing(smaller);
        assert(!l.contains(x)) by {
            if l.contains(x) {
                let k = choose|k: int| 0 <= k < l.len() && l[k] == x;
                assert(l.to_set().contains(x));
            }
        }
        let r = lemma_insert_exists(l, x);
        assert(r.to_set() =~= set);
        lemma_ascending_listing_is(r, set);
    }
}

} // verus!
