//! Stable sorting by a strict weak order, the behaviour of `slice::sort_by`
//! with a comparator that orders by a key.
use vstd::prelude::*;

verus! {

/// A strict weak order on the values of a type: `before(a, b)` when `a`
/// must come strictly before `b`.
pub trait SortKey: Sized {
    spec fn before(a: Self, b: Self) -> bool;

    proof fn lemma_strict_weak_order(a: Self, b: Self, c: Self)
        ensures
            !Self::before(a, a),
            Self::before(a, b) && Self::before(b, c) ==> Self::before(a, c),
            Self::before(a, c) ==> Self::before(a, b) || Self::before(b, c),
    ;

    fn precedes(&self, other: &Self) -> (r: bool)
        ensures
            r == Self::before(*self, *other),
    ;
}

/// Inserting `x` into a sorted sequence after every element it does not
/// strictly precede.
pub open spec fn insert_sorted<T: SortKey>(s: Seq<T>, x: T) -> Seq<T>
    decreases s.len(),
{
    if s.len() == 0 || !T::before(x, s.last()) {
        s.push(x)
    } else {
        insert_sorted(s.drop_last(), x).push(s.last())
    }
}

/// The stable sort of a sequence: elements that neither precedes keep
/// their relative order.
pub open spec fn stable_sort<T: SortKey>(s: Seq<T>) -> Seq<T>
    decreases s.len(),
{
    if s.len() == 0 {
        s
    } else {
        insert_sorted(stable_sort(s.drop_last()), s.last())
    }
}

pub open spec fn sorted_by_key<T: SortKey>(s: Seq<T>) -> bool {
    forall|i: int, j: int| 0 <= i < j < s.len() ==> !T::before(#[trigger] s[j], #[trigger] s[i])
}

proof fn lemma_insert_at<T: SortKey>(s: Seq<T>, x: T, p: int)
    requires
        0 <= p <= s.len(),
        forall|m: int| p <= m < s.len() ==> T::before(x, #[trigger] s[m]),
        p == 0 || !T::before(x, s[p - 1]),
    ensures
        insert_sorted(s, x) == s.insert(p, x),
    decreases s.len() - p,
{
    if s.len() == p {
        assert(s.insert(p, x) =~= s.push(x));
    } else {
        assert(T::before(x, s.last()));
        lemma_insert_at(s.drop_last(), x, p);
        assert(s.drop_last().insert(p, x).push(s.last()) =~= s.insert(p, x));
    }
}

fn insert_sorted_exec<T: SortKey>(r: &mut Vec<T>, x: T)
    ensures
        final(r)@ == insert_sorted(old(r)@, x),
{
    let mut p: usize = r.len();
    while p > 0 && x.precedes(&r[p - 1])
        invariant
            0 <= p <= r@.len(),
            r@ == old(r)@,
            forall|m: int| p <= m < r@.len() ==> T::before(x, #[trigger] r@[m]),
        decreases p,
    {
        p = p - 1;
    }
    proof {
        lemma_insert_at(r@, x, p as int);
    }
    r.insert(p, x);
}

/// Sorts stably by `T::before`.
pub fn sort_stable<T: SortKey>(v: Vec<T>) -> (r: Vec<T>)
    ensures
        r@ == stable_sort(v@),
{
    let ghost orig = v@;
    let n = v.len();
    let mut rest = v;
    let mut r: Vec<T> = Vec::new();
    let mut k: usize = 0;
    proof {
        assert(orig.take(0) =~= Seq::<T>::empty());
        assert(orig.skip(0) =~= orig);
    }
    while rest.len() > 0
        invariant
            0 <= k <= orig.len(),
            orig.len() == n,
            rest@ == orig.skip(k as int),
            rest@.len() == orig.len() - k,
            r@ == stable_sort(orig.take(k as int)),
        decreases rest@.len(),
    {
        assert(k < orig.len());
        let x = rest.remove(0);
        proof {
            assert(x == orig[k as int]);
            assert(orig.take(k + 1).drop_last() =~= orig.take(k as int));
            assert(orig.take(k + 1).last() == x);
        }
        insert_sorted_exec(&mut r, x);
        proof {
            assert(rest@ =~= orig.skip(k + 1));
        }
        k = k + 1;
    }
    proof {
        assert(orig.take(k as int) =~= orig);
    }
    r
}

proof fn lemma_insert_sorted_facts<T: SortKey>(s: Seq<T>, x: T)
    requires
        sorted_by_key(s),
    ensures
        sorted_by_key(insert_sorted(s, x)),
        insert_sorted(s, x).to_multiset() == s.to_multiset().insert(x),
    decreases s.len(),
{
    broadcast use vstd::seq_lib::group_seq_properties, vstd::multiset::group_multiset_axioms;
    if s.len() == 0 || !T::before(x, s.last()) {
        let t = s.push(x);
        assert forall|i: int, j: int| 0 <= i < j < t.len() implies !T::before(
            #[trigger] t[j],
            #[trigger] t[i],
        ) by {
            if j == s.len() {
                T::lemma_strict_weak_order(x, s.last(), s[i]);
                if i < s.len() - 1 {
                    assert(!T::before(s[s.len() - 1], s[i]));
                }
            } else {
                assert(t[i] == s[i] && t[j] == s[j]);
            }
        }
    } else {
        let d = s.drop_last();
        assert forall|i: int, j: int| 0 <= i < j < d.len() implies !T::before(
            #[trigger] d[j],
            #[trigger] d[i],
        ) by {
            assert(d[i] == s[i] && d[j] == s[j]);
        }
        lemma_insert_sorted_facts(d, x);
        let u = insert_sorted(d, x);
        let t = u.push(s.last());
        assert(u.to_multiset() == d.to_multiset().insert(x));
        assert forall|i: int, j: int| 0 <= i < j < t.len() implies !T::before(
            #[trigger] t[j],
            #[trigger] t[i],
        ) by {
            if j == u.len() {
                let e = u[i];
                assert(u.to_multiset().count(e) > 0);
                if e == x {
                    T::lemma_strict_weak_order(s.last(), x, s.last());
                } else {
                    assert(d.to_multiset().count(e) > 0);
                    assert(d.contains(e));
                    let k = choose|k: int| 0 <= k < d.len() && d[k] == e;
                    assert(!T::before(s.last(), s[k]));
                }
            }
        }
        assert(s =~= d.push(s.last()));
    }
}

/// The stable sort is ordered by the key and holds the same elements.
pub proof fn law_stable_sort_sorted_permutation<T: SortKey>(s: Seq<T>)
    ensures
        sorted_by_key(stable_sort(s)),
        stable_sort(s).to_multiset() == s.to_multiset(),
    decreases s.len(),
{
    broadcast use vstd::seq_lib::group_seq_properties, vstd::multiset::group_multiset_axioms;
    if s.len() > 0 {
        law_stable_sort_sorted_permutation(s.drop_last());
        lemma_insert_sorted_facts(stable_sort(s.drop_last()), s.last());
        assert(s =~= s.drop_last().push(s.last()));
    }
}

/// The sum of `f` over the elements.
pub open spec fn seq_sum<T>(s: Seq<T>, f: spec_fn(T) -> int) -> int
    decreases s.len(),
{
    if s.len() == 0 {
        0
    } else {
        seq_sum(s.drop_last(), f) + f(s.last())
    }
}

pub proof fn lemma_seq_sum_push<T>(s: Seq<T>, x: T, f: spec_fn(T) -> int)
    ensures
        seq_sum(s.push(x), f) == seq_sum(s, f) + f(x),
{
    assert(s.push(x).drop_last() =~= s);
}

pub proof fn lemma_seq_sum_first<T>(s: Seq<T>, f: spec_fn(T) -> int)
    requires
        s.len() > 0,
    ensures
        seq_sum(s, f) == f(s[0]) + seq_sum(s.drop_first(), f),
    decreases s.len(),
{
    if s.len() > 1 {
        lemma_seq_sum_first(s.drop_last(), f);
        assert(s.drop_last().drop_first() =~= s.drop_first().drop_last());
        assert(s.drop_last()[0] == s[0]);
        assert(s.drop_first().last() == s.last());
        assert(seq_sum(s.drop_first(), f) == seq_sum(s.drop_first().drop_last(), f) + f(s.drop_first().last()));
    } else {
        assert(s.drop_first() =~= Seq::<T>::empty());
        assert(s.drop_last() =~= Seq::<T>::empty());
        assert(seq_sum(s.drop_last(), f) == 0);
        assert(seq_sum(s.drop_first(), f) == 0);
    }
}

pub proof fn lemma_seq_sum_append<T>(a: Seq<T>, b: Seq<T>, f: spec_fn(T) -> int)
    ensures
        seq_sum(a + b, f) == seq_sum(a, f) + seq_sum(b, f),
    decreases b.len(),
{
    if b.len() == 0 {
        assert(a + b =~= a);
    } else {
        lemma_seq_sum_append(a, b.drop_last(), f);
        assert((a + b).drop_last() =~= a + b.drop_last());
    }
}

proof fn lemma_insert_sorted_sum<T: SortKey>(s: Seq<T>, x: T, f: spec_fn(T) -> int)
    ensures
        seq_sum(insert_sorted(s, x), f) == seq_sum(s, f) + f(x),
    decreases s.len(),
{
    if s.len() == 0 || !T::before(x, s.last()) {
        lemma_seq_sum_push(s, x, f);
    } else {
        lemma_insert_sorted_sum(s.drop_last(), x, f);
        lemma_seq_sum_push(insert_sorted(s.drop_last(), x), s.last(), f);
    }
}

/// Sorting keeps any sum over the elements.
pub proof fn lemma_stable_sort_sum<T: SortKey>(s: Seq<T>, f: spec_fn(T) -> int)
    ensures
        seq_sum(stable_sort(s), f) == seq_sum(s, f),
    decreases s.len(),
{
    if s.len() > 0 {
        lemma_stable_sort_sum(s.drop_last(), f);
        lemma_insert_sorted_sum(stable_sort(s.drop_last()), s.last(), f);
    }
}

} // verus!
