//! Entries named by a string key, and lookup of the first entry with a key.
//! Every name-to-value table in this library (properties, joined reference
//! fields, milestone pins, settings per project) is a list of such entries read
//! front to back, so "the value for a key" means the first entry naming it.
//!
//! Also the copying discipline: a record's meaning is its deep view, and
//! `Dup::dup` copies a value to one with the same deep view.
use vstd::prelude::*;
use crate::text::text_eq;

verus! {

/// A value that can be copied to one with the same deep view.
pub trait Dup: DeepView + Sized {
    fn dup(&self) -> (r: Self)
        ensures
            r.deep_view() == self.deep_view(),
    ;
}

impl Dup for String {
    fn dup(&self) -> (r: Self) {
        self.clone()
    }
}

impl<T: Dup> Dup for Option<T> {
    fn dup(&self) -> (r: Self) {
        match self {
            Some(x) => Some(x.dup()),
            None => None,
        }
    }
}

impl<T: Dup> Dup for Vec<T> {
    fn dup(&self) -> (r: Self) {
        let mut r: Vec<T> = Vec::new();
        let mut i: usize = 0;
        while i < self.len()
            invariant
                i <= self@.len(),
                r@.len() == i,
                forall|j: int| 0 <= j < i ==> #[trigger] r@[j].deep_view() == self@[j].deep_view(),
            decreases self@.len() - i,
        {
            r.push(self[i].dup());
            i += 1;
        }
        assert(r.deep_view() =~= self.deep_view());
        r
    }
}

/// An entry named by a string key, read off its deep view.
pub trait Keyed: DeepView {
    spec fn key_of(v: Self::V) -> Seq<char>;

    fn key_str(&self) -> (r: &str)
        ensures
            r@ == Self::key_of(self.deep_view()),
    ;
}

/// Position of the first entry named `k`, or -1 when none is.
pub open spec fn index_of<T: Keyed>(s: Seq<T::V>, k: Seq<char>) -> int
    decreases s.len(),
{
    if s.len() == 0 {
        -1
    } else if T::key_of(s[0]) == k {
        0
    } else {
        let r = index_of::<T>(s.drop_first(), k);
        if r < 0 {
            -1
        } else {
            r + 1
        }
    }
}

/// The first entry named `k`.
pub open spec fn entry<T: Keyed>(s: Seq<T::V>, k: Seq<char>) -> Option<T::V> {
    let i = index_of::<T>(s, k);
    if i < 0 {
        None
    } else {
        Some(s[i])
    }
}

pub open spec fn has_key<T: Keyed>(s: Seq<T::V>, k: Seq<char>) -> bool {
    exists|j: int| 0 <= j < s.len() && T::key_of(#[trigger] s[j]) == k
}

pub proof fn lemma_index_of<T: Keyed>(s: Seq<T::V>, k: Seq<char>)
    ensures
        index_of::<T>(s, k) == -1 ==> forall|j: int| 0 <= j < s.len() ==> T::key_of(#[trigger] s[j]) != k,
        index_of::<T>(s, k) != -1 ==> {
            &&& 0 <= index_of::<T>(s, k) < s.len()
            &&& T::key_of(s[index_of::<T>(s, k)]) == k
            &&& forall|j: int| 0 <= j < index_of::<T>(s, k) ==> T::key_of(#[trigger] s[j]) != k
        },
        index_of::<T>(s, k) == -1 <==> !has_key::<T>(s, k),
    decreases s.len(),
{
    if s.len() > 0 {
        lemma_index_of::<T>(s.drop_first(), k);
        assert forall|j: int| 0 < j < s.len() implies #[trigger] s[j] == s.drop_first()[j - 1] by {}
        if T::key_of(s[0]) != k && index_of::<T>(s.drop_first(), k) == -1 {
            assert forall|j: int| 0 <= j < s.len() implies T::key_of(#[trigger] s[j]) != k by {
                if j > 0 {
                    assert(s[j] == s.drop_first()[j - 1]);
                }
            }
        }
        if index_of::<T>(s, k) != -1 {
            let i = index_of::<T>(s, k);
            assert(T::key_of(s[i]) == k);
            assert(has_key::<T>(s, k));
        }
    }
}

pub proof fn lemma_index_of_at<T: Keyed>(s: Seq<T::V>, k: Seq<char>, i: int)
    requires
        0 <= i <= s.len(),
        forall|j: int| 0 <= j < i ==> T::key_of(#[trigger] s[j]) != k,
        i == s.len() || T::key_of(s[i]) == k,
    ensures
        index_of::<T>(s, k) == if i == s.len() {
            -1
        } else {
            i
        },
{
    lemma_index_of::<T>(s, k);
    let r = index_of::<T>(s, k);
    if r != -1 {
        if r < i {
            assert(T::key_of(s[r]) != k);
        } else if r > i {
            assert(T::key_of(s[i]) != k);
        }
    } else if i < s.len() {
        assert(T::key_of(s[i]) != k);
    }
}

/// Position of the first entry named `k`.
pub fn find<T: Keyed>(s: &[T], k: &str) -> (r: Option<usize>)
    ensures
        match r {
            Some(i) => index_of::<T>(s.deep_view(), k@) == i as int && i < s@.len(),
            None => index_of::<T>(s.deep_view(), k@) == -1,
        },
{
    let ghost d = s.deep_view();
    let mut i: usize = 0;
    while i < s.len()
        invariant
            i <= s@.len(),
            d == s.deep_view(),
            d.len() == s@.len(),
            forall|j: int| 0 <= j < i ==> T::key_of(#[trigger] d[j]) != k@,
        decreases s@.len() - i,
    {
        assert(d[i as int] == s@[i as int].deep_view());
        if text_eq(s[i].key_str(), k) {
            proof {
                lemma_index_of_at::<T>(d, k@, i as int);
            }
            return Some(i);
        }
        i += 1;
    }
    proof {
        lemma_index_of_at::<T>(d, k@, i as int);
    }
    None
}

/// The first entry named `k`.
pub fn lookup<'a, T: Keyed>(s: &'a [T], k: &str) -> (r: Option<&'a T>)
    ensures
        match r {
            Some(e) => entry::<T>(s.deep_view(), k@) == Some(e.deep_view()),
            None => entry::<T>(s.deep_view(), k@) is None,
        },
{
    match find(s, k) {
        Some(i) => {
            assert(s.deep_view()[i as int] == s@[i as int].deep_view());
            Some(&s[i])
        },
        None => None,
    }
}

/// Position of the first element satisfying `p`, or -1.
pub open spec fn first_where<T>(s: Seq<T>, p: spec_fn(T) -> bool) -> int
    decreases s.len(),
{
    if s.len() == 0 {
        -1
    } else if p(s[0]) {
        0
    } else {
        let r = first_where(s.drop_first(), p);
        if r < 0 {
            -1
        } else {
            r + 1
        }
    }
}

pub proof fn lemma_first_where<T>(s: Seq<T>, p: spec_fn(T) -> bool)
    ensures
        first_where(s, p) == -1 ==> forall|j: int| 0 <= j < s.len() ==> !p(#[trigger] s[j]),
        first_where(s, p) != -1 ==> {
            &&& 0 <= first_where(s, p) < s.len()
            &&& p(s[first_where(s, p)])
            &&& forall|j: int| 0 <= j < first_where(s, p) ==> !p(#[trigger] s[j])
        },
    decreases s.len(),
{
    if s.len() > 0 {
        lemma_first_where(s.drop_first(), p);
        assert forall|j: int| 0 < j < s.len() implies #[trigger] s[j] == s.drop_first()[j - 1] by {}
        if !p(s[0]) && first_where(s.drop_first(), p) == -1 {
            assert forall|j: int| 0 <= j < s.len() implies !p(#[trigger] s[j]) by {
                if j > 0 {
                    assert(s[j] == s.drop_first()[j - 1]);
                }
            }
        }
    }
}

pub proof fn lemma_first_where_at<T>(s: Seq<T>, p: spec_fn(T) -> bool, i: int)
    requires
        0 <= i <= s.len(),
        forall|j: int| 0 <= j < i ==> !p(#[trigger] s[j]),
        i == s.len() || p(s[i]),
    ensures
        first_where(s, p) == if i == s.len() {
            -1
        } else {
            i
        },
{
    lemma_first_where(s, p);
    let r = first_where(s, p);
    if r != -1 {
        if r < i {
            assert(!p(s[r]));
        } else if r > i {
            assert(!p(s[i]));
        }
    } else if i < s.len() {
        assert(!p(s[i]));
    }
}

} // verus!
