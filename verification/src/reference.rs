//! Reference datasets as uploaded: a small CSV whose first row labels the
//! columns, whose second row names (in its first cell) the element property
//! that holds the link value, and whose remaining rows are records keyed by
//! their first cell.
//!
//! Cells are separated by commas and trimmed; a line's trailing carriage
//! return is dropped and blank lines are skipped. Quoted cells are not
//! interpreted.
use vstd::prelude::*;
use crate::contract::{Field, FieldV, KeyedRecord, KeyedRecordV, ReferenceData, ReferenceDataV, ReferenceRecord};
use crate::text::{chars_of, string_of, trim, trim_chars};

verus! {

/// Split text at every `sep`: one more piece than separators.
pub open spec fn split(s: Seq<char>, sep: char) -> Seq<Seq<char>>
    decreases s.len(),
{
    if s.len() == 0 {
        seq![Seq::<char>::empty()]
    } else {
        let r = split(s.drop_last(), sep);
        if s.last() == sep {
            r.push(Seq::<char>::empty())
        } else {
            r.update(r.len() - 1, r.last().push(s.last()))
        }
    }
}

proof fn lemma_split_nonempty(s: Seq<char>, sep: char)
    ensures
        split(s, sep).len() >= 1,
    decreases s.len(),
{
    if s.len() > 0 {
        lemma_split_nonempty(s.drop_last(), sep);
    }
}

/// The pieces of `s` between separators.
pub fn split_exec(s: &[char], sep: char) -> (r: Vec<Vec<char>>)
    ensures
        r.deep_view() == split(s@, sep),
{
    let mut out: Vec<Vec<char>> = Vec::new();
    let mut cur: Vec<char> = Vec::new();
    let mut i: usize = 0;
    proof {
        assert(s@.take(0) =~= Seq::<char>::empty());
        assert(out.deep_view().push(cur@) =~= split(s@.take(0), sep));
    }
    while i < s.len()
        invariant
            i <= s@.len(),
            out.deep_view().push(cur@) == split(s@.take(i as int), sep),
        decreases s@.len() - i,
    {
        let c = s[i];
        let ghost before = out.deep_view();
        let ghost cb = cur@;
        proof {
            lemma_split_nonempty(s@.take(i as int), sep);
            assert(s@.take(i + 1).drop_last() =~= s@.take(i as int));
            assert(s@.take(i + 1).last() == c);
        }
        if c == sep {
            assert(cur.deep_view() =~= cur@);
            out.push(cur);
            cur = Vec::new();
            proof {
                assert(out.deep_view() =~= before.push(cb));
                assert(out.deep_view().push(cur@) =~= split(s@.take(i + 1), sep));
            }
        } else {
            cur.push(c);
            proof {
                assert(out.deep_view().push(cur@) =~= before.push(cb).update(before.len() as int, cb.push(c)));
            }
        }
        i += 1;
    }
    proof {
        assert(s@.take(i as int) =~= s@);
    }
    let ghost before = out.deep_view();
    assert(cur.deep_view() =~= cur@);
    out.push(cur);
    assert(out.deep_view() =~= before.push(cur@));
    out
}

/// A line without its trailing carriage return.
pub open spec fn strip_cr(line: Seq<char>) -> Seq<char> {
    if line.len() > 0 && line.last() == '\r' {
        line.drop_last()
    } else {
        line
    }
}

/// The non-blank lines, carriage returns dropped.
pub open spec fn lines_from(pieces: Seq<Seq<char>>) -> Seq<Seq<char>>
    decreases pieces.len(),
{
    if pieces.len() == 0 {
        Seq::empty()
    } else {
        let rest = lines_from(pieces.drop_last());
        let line = strip_cr(pieces.last());
        if trim(line).len() == 0 {
            rest
        } else {
            rest.push(line)
        }
    }
}

pub open spec fn lines_of(text: Seq<char>) -> Seq<Seq<char>> {
    lines_from(split(text, '\n'))
}

/// The trimmed cells of one line.
pub open spec fn cells_of(line: Seq<char>) -> Seq<Seq<char>> {
    split(line, ',').map_values(|c: Seq<char>| trim(c))
}

/// One data row's fields: each label after the first with the cell under it,
/// for as many cells as the row has.
pub open spec fn fields_of(labels: Seq<Seq<char>>, cells: Seq<Seq<char>>) -> Seq<FieldV> {
    let n = if labels.len() < cells.len() {
        labels.len()
    } else {
        cells.len()
    };
    Seq::new(if n > 0 { (n - 1) as nat } else { 0 }, |j: int| FieldV { name: labels[j + 1], value: cells[j + 1] })
}

/// The records of the data rows, keyed by their first cell; a row with a blank
/// first cell is no record.
pub open spec fn records_of(labels: Seq<Seq<char>>, rows: Seq<Seq<char>>) -> Seq<KeyedRecordV>
    decreases rows.len(),
{
    if rows.len() == 0 {
        Seq::empty()
    } else {
        let rest = records_of(labels, rows.drop_last());
        let cells = cells_of(rows.last());
        if cells[0].len() == 0 {
            rest
        } else {
            rest.push(KeyedRecordV { id: cells[0], fields: fields_of(labels, cells) })
        }
    }
}

/// The dataset an uploaded CSV holds, or why it holds none.
pub open spec fn load_of(text: Seq<char>) -> Result<ReferenceDataV, Seq<char>> {
    let lines = lines_of(text);
    if lines.len() < 2 {
        Err("reference CSV needs a label row and a link-property row"@)
    } else {
        let labels = cells_of(lines[0]);
        let link = cells_of(lines[1])[0];
        if link.len() == 0 {
            Err("reference CSV names no link property in its second row"@)
        } else {
            Ok(
                ReferenceDataV {
                    link_property: link,
                    by_id: records_of(labels, lines.skip(2)),
                    all_labels: labels.skip(1),
                },
            )
        }
    }
}

proof fn lemma_cells_nonempty(line: Seq<char>)
    ensures
        cells_of(line).len() >= 1,
{
    lemma_split_nonempty(line, ',');
}

fn cells_exec(line: &[char]) -> (r: Vec<String>)
    ensures
        r.deep_view() == cells_of(line@),
        r@.len() >= 1,
{
    let pieces = split_exec(line, ',');
    let ghost pd = pieces.deep_view();
    let mut out: Vec<String> = Vec::new();
    let mut i: usize = 0;
    while i < pieces.len()
        invariant
            i <= pieces@.len(),
            pd == pieces.deep_view(),
            out.deep_view() == pd.take(i as int).map_values(|c: Seq<char>| trim(c)),
        decreases pieces@.len() - i,
    {
        assert(pieces@[i as int]@ == pd[i as int]);
        let t = trim_chars(pieces[i].as_slice());
        out.push(string_of(t.as_slice()));
        assert(pd.take(i + 1).map_values(|c: Seq<char>| trim(c)) =~= pd.take(i as int).map_values(
            |c: Seq<char>| trim(c),
        ).push(trim(pd[i as int])));
        assert(out.deep_view() =~= pd.take(i + 1).map_values(|c: Seq<char>| trim(c)));
        i += 1;
    }
    assert(pd.take(i as int) =~= pd);
    proof {
        lemma_cells_nonempty(line@);
    }
    out
}

fn lines_exec(text: &[char]) -> (r: Vec<Vec<char>>)
    ensures
        r.deep_view() == lines_of(text@),
{
    let pieces = split_exec(text, '\n');
    let ghost pd = pieces.deep_view();
    let mut out: Vec<Vec<char>> = Vec::new();
    let mut i: usize = 0;
    while i < pieces.len()
        invariant
            i <= pieces@.len(),
            pd == pieces.deep_view(),
            out.deep_view() == lines_from(pd.take(i as int)),
        decreases pieces@.len() - i,
    {
        let p = &pieces[i];
        assert(p@ == pd[i as int]);
        let mut line: Vec<char> = Vec::new();
        let n = if p.len() > 0 && p[p.len() - 1] == '\r' {
            p.len() - 1
        } else {
            p.len()
        };
        let mut k: usize = 0;
        while k < n
            invariant
                k <= n <= p@.len(),
                line@ == p@.take(k as int),
            decreases n - k,
        {
            line.push(p[k]);
            assert(p@.take(k + 1) == p@.take(k as int).push(p@[k as int]));
            k += 1;
        }
        assert(line@ =~= strip_cr(pd[i as int]));
        proof {
            assert(pd.take(i + 1).drop_last() =~= pd.take(i as int));
            assert(pd.take(i + 1).last() == pd[i as int]);
        }
        let t = trim_chars(line.as_slice());
        let ghost before = out.deep_view();
        if t.len() > 0 {
            assert(line.deep_view() =~= line@);
            out.push(line);
            assert(out.deep_view() =~= before.push(strip_cr(pd[i as int])));
        }
        i += 1;
    }
    assert(pd.take(i as int) =~= pd);
    out
}

fn fields_exec(labels: &[String], cells: &[String]) -> (r: Vec<Field>)
    requires
        labels@.len() >= 1,
    ensures
        r.deep_view() == fields_of(labels.deep_view(), cells.deep_view()),
{
    let n = if labels.len() < cells.len() {
        labels.len()
    } else {
        cells.len()
    };
    let mut out: Vec<Field> = Vec::new();
    let ghost want = fields_of(labels.deep_view(), cells.deep_view());
    if n <= 1 {
        assert(out.deep_view() =~= want);
        return out;
    }
    let mut j: usize = 1;
    while j < n
        invariant
            1 <= j <= n,
            n <= labels@.len(),
            n <= cells@.len(),
            n == labels@.len() || n == cells@.len(),
            want == fields_of(labels.deep_view(), cells.deep_view()),
            want.len() == n - 1,
            out.deep_view() == want.take(j - 1),
        decreases n - j,
    {
        assert(labels.deep_view()[j as int] == labels@[j as int]@);
        assert(cells.deep_view()[j as int] == cells@[j as int]@);
        out.push(Field { name: labels[j].clone(), value: cells[j].clone() });
        assert(want.take(j as int) =~= want.take(j - 1).push(FieldV { name: labels@[j as int]@, value: cells@[j as int]@ }));
        j += 1;
    }
    assert(want.take(j - 1) =~= want);
    out
}

/// Parse an uploaded reference CSV.
pub fn load_reference(text: &str) -> (r: Result<ReferenceData, String>)
    ensures
        match r {
            Ok(d) => load_of(text@) == Ok::<ReferenceDataV, Seq<char>>(d.deep_view()),
            Err(m) => load_of(text@) == Err::<ReferenceDataV, Seq<char>>(m@),
        },
{
    let chars = chars_of(text);
    let lines = lines_exec(chars.as_slice());
    let ghost ld = lines.deep_view();
    if lines.len() < 2 {
        return Err(crate::text::owned("reference CSV needs a label row and a link-property row"));
    }
    assert(lines@[0]@ == ld[0]);
    assert(lines@[1]@ == ld[1]);
    let labels = cells_exec(lines[0].as_slice());
    let second = cells_exec(lines[1].as_slice());
    assert(second.deep_view()[0] == second@[0]@);
    if second[0].as_str().is_empty() {
        return Err(crate::text::owned("reference CSV names no link property in its second row"));
    }
    let ghost lv = labels.deep_view();
    let mut by_id: Vec<KeyedRecord> = Vec::new();
    let mut i: usize = 2;
    proof {
        assert(ld.skip(2).take(0) =~= Seq::<Seq<char>>::empty());
    }
    while i < lines.len()
        invariant
            2 <= i <= lines@.len(),
            ld == lines.deep_view(),
            lv == labels.deep_view(),
            labels@.len() >= 1,
            by_id.deep_view() == records_of(lv, ld.skip(2).take(i - 2)),
        decreases lines@.len() - i,
    {
        assert(lines@[i as int]@ == ld[i as int]);
        let cells = cells_exec(lines[i].as_slice());
        proof {
            assert(ld.skip(2).take(i - 1).drop_last() =~= ld.skip(2).take(i - 2));
            assert(ld.skip(2).take(i - 1).last() == ld[i as int]);
        }
        assert(cells.deep_view()[0] == cells@[0]@);
        let ghost before = by_id.deep_view();
        if !cells[0].as_str().is_empty() {
            let ls = labels.as_slice();
            let cs = cells.as_slice();
            assert(ls.deep_view() =~= lv);
            assert(cs.deep_view() =~= cells.deep_view());
            let fields = fields_exec(ls, cs);
            by_id.push(KeyedRecord { id: cells[0].clone(), record: ReferenceRecord { fields } });
            assert(by_id.deep_view() =~= before.push(
                KeyedRecordV { id: cells.deep_view()[0], fields: fields_of(lv, cells.deep_view()) },
            ));
        }
        i += 1;
    }
    assert(ld.skip(2).take(i - 2) =~= ld.skip(2));
    let mut all_labels: Vec<String> = Vec::new();
    let mut k: usize = 1;
    while k < labels.len()
        invariant
            1 <= k <= labels@.len(),
            lv == labels.deep_view(),
            all_labels.deep_view() == lv.subrange(1, k as int),
        decreases labels@.len() - k,
    {
        assert(lv[k as int] == labels@[k as int]@);
        let c = labels[k].clone();
        assert(c@ == lv[k as int]);
        let ghost before = all_labels.deep_view();
        all_labels.push(c);
        assert(all_labels.deep_view() =~= before.push(lv[k as int]));
        assert(all_labels.deep_view() =~= lv.subrange(1, k + 1));
        k += 1;
    }
    assert(lv.subrange(1, k as int) =~= lv.skip(1));
    Ok(ReferenceData { link_property: second[0].clone(), by_id, all_labels })
}


/// `std::str::from_utf8`, with the text copied out. Trusted: std documents
/// that it succeeds exactly when the bytes are valid UTF-8, and that the text
/// it returns is those bytes read as UTF-8.
#[verifier::external_body]
fn text_of_bytes(bytes: &[u8]) -> (r: Option<String>)
    ensures
        (r is Some) == vstd::utf8::valid_utf8(bytes@),
        r matches Some(s) ==> vstd::utf8::encode_utf8(s@) == bytes@,
{
    match std::str::from_utf8(bytes) {
        Ok(s) => Some(s.to_string()),
        Err(_) => None,
    }
}

/// The dataset an uploaded file holds: its bytes read as UTF-8 text, then
/// parsed; text that is not UTF-8 holds none.
pub open spec fn load_bytes_of(bytes: Seq<u8>) -> Result<ReferenceDataV, Seq<char>> {
    if vstd::utf8::valid_utf8(bytes) {
        load_of(vstd::utf8::decode_utf8(bytes))
    } else {
        Err("reference CSV is not UTF-8 text"@)
    }
}

/// Parse an uploaded reference file.
pub fn load_reference_from_bytes(bytes: &[u8]) -> (r: Result<ReferenceData, String>)
    ensures
        match r {
            Ok(d) => load_bytes_of(bytes@) == Ok::<ReferenceDataV, Seq<char>>(d.deep_view()),
            Err(m) => load_bytes_of(bytes@) == Err::<ReferenceDataV, Seq<char>>(m@),
        },
{
    match text_of_bytes(bytes) {
        Some(text) => {
            proof {
                vstd::utf8::encode_utf8_decode_utf8(text@);
            }
            load_reference(text.as_str())
        },
        None => Err(crate::text::owned("reference CSV is not UTF-8 text")),
    }
}

} // verus!
