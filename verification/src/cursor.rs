//! Content cursors: a table of text rows, sorted, hashed and rendered as 16
//! lowercase hex digits.
//!
//! A cursor names *which* snapshots a read is made of, so it must not depend on
//! the order those were found in: the rows are sorted before hashing, and
//! `lemma_cursor_is_order_free` states that any reordering gives the same
//! cursor.
use vstd::prelude::*;
use std::hash::Hasher;
use std::collections::hash_map::DefaultHasher;
use vstd::std_specs::hash::DefaultHasherAdditionalSpecFns;
use crate::order::{lemma_sorted_unique, sort, sorted, TotalOrder};

verus! {

broadcast use vstd::seq_lib::group_to_multiset_ensures;

/// Lexicographic order on sequences: the first differing element decides, and
/// a proper prefix comes first.
pub open spec fn seq_lt<T: TotalOrder>(a: Seq<T::V>, b: Seq<T::V>) -> bool
    decreases a.len(),
{
    if a.len() == 0 {
        b.len() > 0
    } else if b.len() == 0 {
        false
    } else if a[0] != b[0] {
        T::lt(a[0], b[0])
    } else {
        seq_lt::<T>(a.drop_first(), b.drop_first())
    }
}

proof fn lemma_seq_lt_irreflexive<T: TotalOrder>(a: Seq<T::V>)
    ensures
        !seq_lt::<T>(a, a),
    decreases a.len(),
{
    if a.len() > 0 {
        lemma_seq_lt_irreflexive::<T>(a.drop_first());
    }
}

proof fn lemma_seq_lt_transitive<T: TotalOrder>(a: Seq<T::V>, b: Seq<T::V>, c: Seq<T::V>)
    requires
        seq_lt::<T>(a, b),
        seq_lt::<T>(b, c),
    ensures
        seq_lt::<T>(a, c),
    decreases a.len(),
{
    if a.len() > 0 && b.len() > 0 && c.len() > 0 {
        if a[0] == b[0] && b[0] == c[0] {
            lemma_seq_lt_transitive::<T>(a.drop_first(), b.drop_first(), c.drop_first());
        } else if a[0] == b[0] {
        } else if b[0] == c[0] {
        } else {
            T::lemma_transitive(a[0], b[0], c[0]);
            if a[0] == c[0] {
                T::lemma_irreflexive(a[0]);
            }
        }
    }
}

proof fn lemma_seq_lt_total<T: TotalOrder>(a: Seq<T::V>, b: Seq<T::V>)
    ensures
        a == b || seq_lt::<T>(a, b) || seq_lt::<T>(b, a),
    decreases a.len(),
{
    if a.len() > 0 && b.len() > 0 {
        if a[0] == b[0] {
            lemma_seq_lt_total::<T>(a.drop_first(), b.drop_first());
            if a.drop_first() == b.drop_first() {
                assert(a =~= seq![a[0]] + a.drop_first());
                assert(b =~= seq![b[0]] + b.drop_first());
            }
        } else {
            T::lemma_total(a[0], b[0]);
        }
    } else if a.len() == 0 && b.len() == 0 {
        assert(a =~= b);
    }
}

impl<T: TotalOrder> TotalOrder for Vec<T> {
    open spec fn lt(a: Seq<T::V>, b: Seq<T::V>) -> bool {
        seq_lt::<T>(a, b)
    }

    proof fn lemma_irreflexive(a: Seq<T::V>) {
        lemma_seq_lt_irreflexive::<T>(a);
    }

    proof fn lemma_transitive(a: Seq<T::V>, b: Seq<T::V>, c: Seq<T::V>) {
        lemma_seq_lt_transitive::<T>(a, b, c);
    }

    proof fn lemma_total(a: Seq<T::V>, b: Seq<T::V>) {
        lemma_seq_lt_total::<T>(a, b);
    }

    fn less(&self, other: &Self) -> (r: bool) {
        let ghost a = self.deep_view();
        let ghost b = other.deep_view();
        let mut i: usize = 0;
        proof {
            assert(a.skip(0) =~= a);
            assert(b.skip(0) =~= b);
        }
        while i < self.len() && i < other.len()
            invariant
                a == self.deep_view(),
                b == other.deep_view(),
                i <= self@.len(),
                i <= other@.len(),
                seq_lt::<T>(a, b) == seq_lt::<T>(a.skip(i as int), b.skip(i as int)),
            decreases self@.len() - i,
        {
            assert(a[i as int] == self@[i as int].deep_view());
            assert(b[i as int] == other@[i as int].deep_view());
            assert(a.skip(i as int)[0] == a[i as int]);
            assert(b.skip(i as int)[0] == b[i as int]);
            if self[i].less(&other[i]) {
                proof {
                    T::lemma_irreflexive(a[i as int]);
                }
                return true;
            }
            if other[i].less(&self[i]) {
                proof {
                    T::lemma_irreflexive(a[i as int]);
                }
                return false;
            }
            proof {
                T::lemma_total(a[i as int], b[i as int]);
                assert(a.skip(i as int).drop_first() =~= a.skip(i + 1));
                assert(b.skip(i as int).drop_first() =~= b.skip(i + 1));
            }
            i += 1;
        }
        i < other.len() && i == self.len()
    }
}

/// The hex digits, by value.
pub open spec fn hex_digits() -> Seq<char> {
    seq!['0', '1', '2', '3', '4', '5', '6', '7', '8', '9', 'a', 'b', 'c', 'd', 'e', 'f']
}

/// The low `k` hex digits of `n`, most significant first, zero-padded.
pub open spec fn hex_of(n: nat, k: nat) -> Seq<char>
    decreases k,
{
    if k == 0 {
        Seq::empty()
    } else {
        hex_of(n / 16, (k - 1) as nat).push(hex_digits()[(n % 16) as int])
    }
}

fn hex_exec(n: u64, k: u32) -> (v: Vec<char>)
    ensures
        v@ == hex_of(n as nat, k as nat),
    decreases k,
{
    if k == 0 {
        Vec::new()
    } else {
        let digits: Vec<char> = vec!['0', '1', '2', '3', '4', '5', '6', '7', '8', '9', 'a', 'b', 'c', 'd', 'e', 'f'];
        assert(digits@ =~= hex_digits());
        let mut v = hex_exec(n / 16, k - 1);
        v.push(digits[(n % 16) as usize]);
        v
    }
}

/// `n` as 16 lowercase hex digits (`{:016x}`).
pub fn hex16(n: u64) -> (r: String)
    ensures
        r@ == hex_of(n as nat, 16),
{
    let v = hex_exec(n, 16);
    crate::text::string_of(v.as_slice())
}

/// What the hasher is fed for one row: each cell's UTF-8 bytes, then a 0xff
/// terminator, cell by cell.
pub open spec fn row_input(row: Seq<Seq<char>>) -> Seq<Seq<u8>>
    decreases row.len(),
{
    if row.len() == 0 {
        Seq::empty()
    } else {
        row_input(row.drop_last()) + seq![vstd::utf8::encode_utf8(row.last()), seq![0xffu8]]
    }
}

/// What the hasher is fed for a table: its rows in order.
pub open spec fn table_input(rows: Seq<Seq<Seq<char>>>) -> Seq<Seq<u8>>
    decreases rows.len(),
{
    if rows.len() == 0 {
        Seq::empty()
    } else {
        table_input(rows.drop_last()) + row_input(rows.last())
    }
}

/// The rows in order: the one sorted sequence holding them.
pub open spec fn sorted_rows(rows: Seq<Seq<Seq<char>>>) -> Seq<Seq<Seq<char>>> {
    choose|r: Seq<Seq<Seq<char>>>| sorted::<Vec<String>>(r) && r.to_multiset() == rows.to_multiset()
}

/// What the hasher is fed for a table: the number of rows as eight
/// little-endian bytes (the length a `Vec` writes first, as a 64-bit
/// little-endian machine writes it), then the rows in order.
pub open spec fn hashed_input(rows: Seq<Seq<Seq<char>>>) -> Seq<Seq<u8>> {
    seq![vstd::bytes::spec_u64_to_le_bytes(rows.len() as u64)] + table_input(rows)
}

/// The cursor of a table of rows.
pub open spec fn cursor_of(rows: Seq<Seq<Seq<char>>>) -> Seq<char> {
    hex_of(DefaultHasher::spec_finish(hashed_input(sorted_rows(rows))) as nat, 16)
}

/// Feed a table to a hasher, row by row.
fn feed(hasher: &mut DefaultHasher, rows: &[Vec<String>])
    ensures
        final(hasher)@ == old(hasher)@ + table_input(rows.deep_view()),
{
    let ghost d = rows.deep_view();
    let ghost start = hasher@;
    let sep: Vec<u8> = vec![0xffu8];
    let mut i: usize = 0;
    proof {
        assert(d.take(0) =~= Seq::<Seq<Seq<char>>>::empty());
        assert(start + table_input(d.take(0)) =~= start);
    }
    while i < rows.len()
        invariant
            i <= rows@.len(),
            d == rows.deep_view(),
            start == old(hasher)@,
            sep@ == seq![0xffu8],
            hasher@ == start + table_input(d.take(i as int)),
        decreases rows@.len() - i,
    {
        let row = &rows[i];
        let ghost rd = row.deep_view();
        assert(rd == d[i as int]);
        let ghost mid = hasher@;
        let mut j: usize = 0;
        proof {
            assert(rd.take(0) =~= Seq::<Seq<char>>::empty());
            assert(mid + row_input(rd.take(0)) =~= mid);
        }
        while j < row.len()
            invariant
                j <= row@.len(),
                rd == row.deep_view(),
                sep@ == seq![0xffu8],
                hasher@ == mid + row_input(rd.take(j as int)),
            decreases row@.len() - j,
        {
            assert(rd[j as int] == row@[j as int]@);
            let bytes = row[j].as_str().as_bytes();
            hasher.write(bytes);
            hasher.write(sep.as_slice());
            proof {
                assert(rd.take(j + 1).drop_last() =~= rd.take(j as int));
                assert(hasher@ =~= mid + row_input(rd.take(j + 1)));
            }
            j += 1;
        }
        proof {
            assert(rd.take(j as int) =~= rd);
            assert(d.take(i + 1).drop_last() =~= d.take(i as int));
            assert(d.take(i + 1).last() == rd);
            assert(hasher@ =~= start + table_input(d.take(i + 1)));
        }
        i += 1;
    }
    proof {
        assert(d.take(i as int) =~= d);
    }
}

/// The cursor of a table: its rows sorted, hashed, rendered as hex.
pub fn cursor(rows: Vec<Vec<String>>) -> (r: String)
    ensures
        r@ == cursor_of(rows.deep_view()),
{
    let ghost input = rows.deep_view();
    let ordered = sort(rows);
    proof {
        let w = ordered.deep_view();
        assert(sorted::<Vec<String>>(w) && w.to_multiset() == input.to_multiset());
        let c = sorted_rows(input);
        lemma_sorted_unique::<Vec<String>>(w, c);
    }
    let mut hasher = DefaultHasher::new();
    let os = ordered.as_slice();
    assert(os.deep_view() =~= ordered.deep_view());
    let count = vstd::bytes::u64_to_le_bytes(os.len() as u64);
    hasher.write(count.as_slice());
    assert(hasher@ =~= seq![vstd::bytes::spec_u64_to_le_bytes(os.len() as u64)]);
    feed(&mut hasher, os);
    assert(hasher@ =~= hashed_input(sorted_rows(input)));
    let h = hasher.finish();
    hex16(h)
}

/// A cursor does not depend on the order its rows were found in.
pub proof fn lemma_cursor_is_order_free(a: Seq<Seq<Seq<char>>>, b: Seq<Seq<Seq<char>>>)
    requires
        a.to_multiset() == b.to_multiset(),
    ensures
        cursor_of(a) == cursor_of(b),
{
    assert(sorted_rows(a) == sorted_rows(b));
}

} // verus!
