//! Sorting by a total order on deep views.
//!
//! Every ordered output in this library (a revision's parts, a milestone
//! listing, index keys) is "the input, sorted": a sequence that is sorted and
//! holds the same elements. Because the orders used are total, that pins the
//! result down exactly, which `lemma_sorted_unique` states.
use vstd::prelude::*;
use crate::keyed::Dup;
use crate::text::{lemma_text_lt_irreflexive, lemma_text_lt_total, lemma_text_lt_transitive, text_lt, text_lt_exec, chars_of};

verus! {

broadcast use vstd::seq_lib::group_to_multiset_ensures;

/// A strict total order on the deep views of a type.
pub trait TotalOrder: Dup {
    spec fn lt(a: Self::V, b: Self::V) -> bool;

    proof fn lemma_irreflexive(a: Self::V)
        ensures
            !Self::lt(a, a),
    ;

    proof fn lemma_transitive(a: Self::V, b: Self::V, c: Self::V)
        requires
            Self::lt(a, b),
            Self::lt(b, c),
        ensures
            Self::lt(a, c),
    ;

    proof fn lemma_total(a: Self::V, b: Self::V)
        ensures
            a == b || Self::lt(a, b) || Self::lt(b, a),
    ;

    fn less(&self, other: &Self) -> (r: bool)
        ensures
            r == Self::lt(self.deep_view(), other.deep_view()),
    ;
}

/// No element is before an earlier one.
pub open spec fn sorted<T: TotalOrder>(s: Seq<T::V>) -> bool {
    forall|i: int, j: int| 0 <= i < j < s.len() ==> !T::lt(#[trigger] s[j], #[trigger] s[i])
}

/// Two sorted sequences holding the same elements are the same sequence.
pub proof fn lemma_sorted_unique<T: TotalOrder>(a: Seq<T::V>, b: Seq<T::V>)
    requires
        sorted::<T>(a),
        sorted::<T>(b),
        a.to_multiset() == b.to_multiset(),
    ensures
        a == b,
    decreases a.len(),
{
    assert(a.len() == a.to_multiset().len());
    assert(b.len() == b.to_multiset().len());
    if a.len() == 0 {
        assert(a =~= b);
    } else {
        let x = a[0];
        let y = b[0];
        assert(a.contains(x));
        assert(a.to_multiset().count(x) > 0);
        assert(b.to_multiset().count(x) > 0);
        assert(b.contains(x));
        let j = choose|j: int| 0 <= j < b.len() && b[j] == x;
        assert(b.contains(y));
        assert(a.to_multiset().count(y) > 0);
        assert(a.contains(y));
        let i = choose|i: int| 0 <= i < a.len() && a[i] == y;
        if j > 0 {
            assert(!T::lt(b[j], b[0]));
        } else {
            T::lemma_irreflexive(x);
        }
        if i > 0 {
            assert(!T::lt(a[i], a[0]));
        } else {
            T::lemma_irreflexive(y);
        }
        T::lemma_total(x, y);
        assert(x == y);
        assert(a.remove(0) =~= a.drop_first());
        assert(b.remove(0) =~= b.drop_first());
        assert(a.drop_first().to_multiset() == a.to_multiset().remove(x));
        assert(b.drop_first().to_multiset() == b.to_multiset().remove(y));
        lemma_sorted_unique::<T>(a.drop_first(), b.drop_first());
        assert(a =~= seq![x] + a.drop_first());
        assert(b =~= seq![y] + b.drop_first());
    }
}

/// The one sorted sequence holding the elements of `s`.
pub open spec fn sorted_of<T: TotalOrder>(s: Seq<T::V>) -> Seq<T::V> {
    choose|r: Seq<T::V>| sorted::<T>(r) && r.to_multiset() == s.to_multiset()
}

/// `x` put into the sorted `r` after every element not greater than it.
pub open spec fn insert_sorted<T: TotalOrder>(r: Seq<T::V>, x: T::V) -> Seq<T::V>
    decreases r.len(),
{
    if r.len() == 0 {
        seq![x]
    } else if T::lt(x, r.last()) {
        insert_sorted::<T>(r.drop_last(), x).push(r.last())
    } else {
        r.push(x)
    }
}

/// The elements of `s` inserted one by one.
pub open spec fn insertion_sorted<T: TotalOrder>(s: Seq<T::V>) -> Seq<T::V>
    decreases s.len(),
{
    if s.len() == 0 {
        Seq::empty()
    } else {
        insert_sorted::<T>(insertion_sorted::<T>(s.drop_last()), s.last())
    }
}

proof fn lemma_insert_sorted<T: TotalOrder>(r: Seq<T::V>, x: T::V)
    requires
        sorted::<T>(r),
    ensures
        sorted::<T>(insert_sorted::<T>(r, x)),
        insert_sorted::<T>(r, x).to_multiset() == r.to_multiset().insert(x),
        forall|i: int|
            0 <= i < insert_sorted::<T>(r, x).len() ==> #[trigger] insert_sorted::<T>(r, x)[i] == x || r.contains(
                insert_sorted::<T>(r, x)[i],
            ),
    decreases r.len(),
{
    broadcast use vstd::multiset::group_multiset_axioms;

    let out = insert_sorted::<T>(r, x);
    if r.len() == 0 {
        assert(out.to_multiset() =~= Seq::<T::V>::empty().push(x).to_multiset());
        assert(r =~= Seq::<T::V>::empty());
    } else {
        let front = r.drop_last();
        let last = r.last();
        assert(r =~= front.push(last));
        assert forall|i: int, j: int| 0 <= i < j < front.len() implies !T::lt(#[trigger] front[j], #[trigger] front[i]) by {
            assert(front[i] == r[i] && front[j] == r[j]);
        }
        if T::lt(x, last) {
            lemma_insert_sorted::<T>(front, x);
            let t = insert_sorted::<T>(front, x);
            assert(out == t.push(last));
            assert forall|i: int| 0 <= i < t.len() implies !T::lt(last, #[trigger] t[i]) by {
                if t[i] == x {
                    if T::lt(last, x) {
                        T::lemma_transitive(x, last, x);
                        T::lemma_irreflexive(x);
                    }
                } else {
                    let k = choose|k: int| 0 <= k < front.len() && front[k] == t[i];
                    assert(r[k] == t[i]);
                    assert(r[r.len() - 1] == last);
                }
            }
            assert forall|i: int, j: int| 0 <= i < j < out.len() implies !T::lt(#[trigger] out[j], #[trigger] out[i]) by {
                if j < t.len() {
                    assert(out[i] == t[i] && out[j] == t[j]);
                } else {
                    assert(out[i] == t[i] && out[j] == last);
                }
            }
            assert forall|i: int| 0 <= i < out.len() implies #[trigger] out[i] == x || r.contains(out[i]) by {
                if i < t.len() {
                    assert(out[i] == t[i]);
                    if t[i] != x {
                        let k = choose|k: int| 0 <= k < front.len() && front[k] == t[i];
                        assert(r[k] == t[i]);
                    }
                } else {
                    assert(r[r.len() - 1] == out[i]);
                }
            }
            assert(out.to_multiset() =~= r.to_multiset().insert(x));
        } else {
            assert(out == r.push(x));
            assert forall|i: int, j: int| 0 <= i < j < out.len() implies !T::lt(#[trigger] out[j], #[trigger] out[i]) by {
                if j < r.len() {
                    assert(out[i] == r[i] && out[j] == r[j]);
                } else {
                    assert(out[i] == r[i] && out[j] == x);
                    if T::lt(x, r[i]) {
                        assert(r[r.len() - 1] == last);
                        T::lemma_total(r[i], last);
                        if r[i] != last && T::lt(r[i], last) {
                            T::lemma_transitive(x, r[i], last);
                        }
                    }
                }
            }
            assert forall|i: int| 0 <= i < out.len() implies #[trigger] out[i] == x || r.contains(out[i]) by {
                if i < r.len() {
                    assert(out[i] == r[i]);
                }
            }
        }
    }
}

/// Every sequence has a sorted arrangement: `sorted_of` is sorted and holds
/// the same elements.
pub proof fn lemma_sorted_of<T: TotalOrder>(s: Seq<T::V>)
    ensures
        sorted::<T>(sorted_of::<T>(s)),
        sorted_of::<T>(s).to_multiset() == s.to_multiset(),
{
    lemma_insertion_sorted::<T>(s);
}

proof fn lemma_insertion_sorted<T: TotalOrder>(s: Seq<T::V>)
    ensures
        sorted::<T>(insertion_sorted::<T>(s)),
        insertion_sorted::<T>(s).to_multiset() == s.to_multiset(),
    decreases s.len(),
{
    broadcast use vstd::multiset::group_multiset_axioms;

    if s.len() == 0 {
        assert(s.to_multiset() =~= Seq::<T::V>::empty().to_multiset());
    } else {
        lemma_insertion_sorted::<T>(s.drop_last());
        lemma_insert_sorted::<T>(insertion_sorted::<T>(s.drop_last()), s.last());
        assert(s =~= s.drop_last().push(s.last()));
    }
}

/// The elements of `v`, sorted (insertion sort).
pub fn sort<T: TotalOrder>(v: Vec<T>) -> (r: Vec<T>)
    ensures
        sorted::<T>(r.deep_view()),
        r.deep_view().to_multiset() == v.deep_view().to_multiset(),
        r.deep_view() == sorted_of::<T>(v.deep_view()),
{
    let ghost src = v.deep_view();
    let mut r: Vec<T> = Vec::new();
    let mut rest = v;
    let mut k: usize = 0;
    proof {
        assert(r.deep_view() =~= Seq::<T::V>::empty());
        assert(src.take(0) =~= Seq::<T::V>::empty());
    }
    while k < rest.len()
        invariant
            k <= rest@.len(),
            rest.deep_view() == src,
            sorted::<T>(r.deep_view()),
            r.deep_view().to_multiset() == src.take(k as int).to_multiset(),
        decreases rest@.len() - k,
    {
        let x = rest[k].dup();
        let ghost xv = x.deep_view();
        assert(xv == src[k as int]);
        let ghost before = r.deep_view();
        let mut p: usize = r.len();
        while p > 0
            invariant
                p <= r@.len(),
                r.deep_view() == before,
                xv == x.deep_view(),
                forall|q: int| p <= q < r@.len() ==> T::lt(xv, #[trigger] before[q]),
                p < r@.len() ==> T::lt(xv, before[p as int]),
            ensures
                p <= r@.len(),
                r.deep_view() == before,
                forall|q: int| p <= q < r@.len() ==> T::lt(xv, #[trigger] before[q]),
                p > 0 ==> !T::lt(xv, before[p - 1]),
            decreases p,
        {
            let go = x.less(&r[p - 1]);
            proof {
                assert(before[p - 1] == r@[p - 1].deep_view());
            }
            if !go {
                break;
            }
            p -= 1;
        }
        proof {
            if p > 0 {
                assert(before[p - 1] == r@[p - 1].deep_view());
                assert(!T::lt(xv, before[p - 1]));
            }
        }
        r.insert(p, x);
        proof {
            let after = before.insert(p as int, xv);
            assert(r.deep_view() =~= after);
            assert forall|i: int, j: int| 0 <= i < j < after.len() implies !T::lt(#[trigger] after[j], #[trigger] after[i]) by {
                if j < p {
                    assert(after[i] == before[i] && after[j] == before[j]);
                } else if j == p {
                    assert(after[i] == before[i]);
                    if p > 0 {
                        if i < p - 1 {
                            assert(!T::lt(before[p - 1], before[i]));
                            if T::lt(xv, before[i]) {
                                T::lemma_total(before[p - 1], before[i]);
                                if before[p - 1] == before[i] {
                                } else {
                                    T::lemma_transitive(xv, before[i], before[p - 1]);
                                }
                            }
                        }
                    }
                } else if i == p {
                    assert(after[j] == before[j - 1]);
                    assert(T::lt(xv, before[j - 1]));
                    if T::lt(before[j - 1], xv) {
                        T::lemma_transitive(xv, before[j - 1], xv);
                        T::lemma_irreflexive(xv);
                    }
                } else if i < p {
                    assert(after[i] == before[i] && after[j] == before[j - 1]);
                } else {
                    assert(after[i] == before[i - 1] && after[j] == before[j - 1]);
                }
            }
            assert(src.take(k + 1) =~= src.take(k as int).push(xv));
        }
        k += 1;
    }
    proof {
        assert(src.take(k as int) =~= src);
        let w = r.deep_view();
        assert(sorted::<T>(w) && w.to_multiset() == src.to_multiset());
        lemma_sorted_unique::<T>(w, sorted_of::<T>(src));
    }
    r
}

impl TotalOrder for String {
    open spec fn lt(a: Seq<char>, b: Seq<char>) -> bool {
        text_lt(a, b)
    }

    proof fn lemma_irreflexive(a: Seq<char>) {
        lemma_text_lt_irreflexive(a);
    }

    proof fn lemma_transitive(a: Seq<char>, b: Seq<char>, c: Seq<char>) {
        lemma_text_lt_transitive(a, b, c);
    }

    proof fn lemma_total(a: Seq<char>, b: Seq<char>) {
        lemma_text_lt_total(a, b);
    }

    fn less(&self, other: &Self) -> (r: bool) {
        let a = chars_of(self.as_str());
        let b = chars_of(other.as_str());
        text_lt_exec(a.as_slice(), b.as_slice())
    }
}

} // verus!
