//! The filter grammar every entity read shares: a predicate names a field,
//! optionally qualified by a joined source (`source.label`), an operator and a
//! value; a group joins predicates with all/any.
//!
//! **A missing value is never evidence.** Every operator but `blank` fails on
//! a field that is absent or empty, including the negative ones: "this door has
//! no `to_room`" does not say its `to_room` differs from anything.
use vstd::prelude::*;
use crate::contract::{opt_str, Presence, PropertyPresence};
use crate::decimal::{dec_lt, dec_lt_exec, numeric_match, numeric_match_of, parse_decimal, parse_decimal_exec};
use crate::keyed::{first_where, lemma_first_where_at, Dup};
use crate::text::{chars_eq, chars_of, concat, contains, contains_exec, ends_with, ends_with_exec, fold, fold_chars, owned, starts_with, starts_with_exec, string_of, trim, trim_chars, trimmed};

verus! {

/// A comparison operator.
#[derive(Clone, Copy, PartialEq, Eq, Structural, Debug)]
pub enum Op {
    Eq,
    Ne,
    Gt,
    Ge,
    Lt,
    Le,
    Contains,
    NotContains,
    StartsWith,
    EndsWith,
    Between,
    Blank,
    HasValue,
}

/// How a group joins its items.
#[derive(Clone, Copy, PartialEq, Eq, Structural, Debug)]
pub enum Mode {
    /// Every item holds (an empty group holds).
    All,
    /// Some item holds (an empty group holds too).
    Any,
}

/// One condition on one field.
pub struct Predicate {
    /// The joined source a qualified name reads, or `None` for the element's
    /// own fields.
    pub source: Option<String>,
    pub property: String,
    pub op: Op,
    pub value: String,
    /// The upper bound of a `between`.
    pub value2: Option<String>,
    /// Compare text exactly rather than ASCII case-folded.
    pub case_sensitive: bool,
}

pub struct PredicateV {
    pub source: Option<Seq<char>>,
    pub property: Seq<char>,
    pub op: Op,
    pub value: Seq<char>,
    pub value2: Option<Seq<char>>,
    pub case_sensitive: bool,
}

impl DeepView for Predicate {
    type V = PredicateV;

    open spec fn deep_view(&self) -> PredicateV {
        PredicateV {
            source: self.source.deep_view(),
            property: self.property@,
            op: self.op,
            value: self.value@,
            value2: self.value2.deep_view(),
            case_sensitive: self.case_sensitive,
        }
    }
}

impl Dup for Predicate {
    fn dup(&self) -> (r: Self) {
        Predicate {
            source: self.source.dup(),
            property: self.property.dup(),
            op: self.op,
            value: self.value.dup(),
            value2: self.value2.dup(),
            case_sensitive: self.case_sensitive,
        }
    }
}

/// Text as compared: folded unless case matters.
pub open spec fn as_compared(s: Seq<char>, case_sensitive: bool) -> Seq<char> {
    if case_sensitive {
        s
    } else {
        fold(s)
    }
}

/// Equality of two values: as numbers when both are numbers, else as text.
pub open spec fn value_eq(v: Seq<char>, w: Seq<char>, case_sensitive: bool) -> bool {
    match numeric_match_of(v, w) {
        Some(b) => b,
        None => as_compared(v, case_sensitive) == as_compared(w, case_sensitive),
    }
}

/// An ordering operator on two values: only numbers are ordered.
pub open spec fn ordered(op: Op, v: Seq<char>, w: Seq<char>) -> bool {
    match (parse_decimal(v), parse_decimal(w)) {
        (Some(x), Some(y)) => match op {
            Op::Gt => dec_lt(y, x),
            Op::Ge => !dec_lt(x, y),
            Op::Lt => dec_lt(x, y),
            Op::Le => !dec_lt(y, x),
            _ => false,
        },
        _ => false,
    }
}

/// `lo <= v <= hi` as numbers.
pub open spec fn between(v: Seq<char>, lo: Seq<char>, hi: Option<Seq<char>>) -> bool {
    match (parse_decimal(v), parse_decimal(lo), hi) {
        (Some(x), Some(a), Some(h)) => match parse_decimal(h) {
            Some(b) => !dec_lt(x, a) && !dec_lt(b, x),
            None => false,
        },
        _ => false,
    }
}

/// A predicate against a value that is there.
pub open spec fn holds_on(p: PredicateV, v: Seq<char>) -> bool {
    let cs = p.case_sensitive;
    match p.op {
        Op::Eq => value_eq(v, p.value, cs),
        Op::Ne => !value_eq(v, p.value, cs),
        Op::Contains => contains(as_compared(v, cs), as_compared(p.value, cs)),
        Op::NotContains => !contains(as_compared(v, cs), as_compared(p.value, cs)),
        Op::StartsWith => starts_with(as_compared(v, cs), as_compared(p.value, cs)),
        Op::EndsWith => ends_with(as_compared(v, cs), as_compared(p.value, cs)),
        Op::Between => between(v, p.value, p.value2),
        Op::Gt | Op::Ge | Op::Lt | Op::Le => ordered(p.op, v, p.value),
        Op::Blank => false,
        Op::HasValue => true,
    }
}

/// A predicate against a field's presence.
pub open spec fn holds(p: PredicateV, presence: Presence) -> bool {
    match p.op {
        Op::Blank => !(presence is Present),
        Op::HasValue => presence is Present,
        _ => match presence {
            Presence::Present(v) => holds_on(p, v),
            _ => false,
        },
    }
}

/// Anything a predicate can be asked of: a record that answers a field name.
pub trait FilterTarget {
    /// The field's presence: `source` names a joined source, `None` the
    /// record's own fields.
    spec fn presence_of(&self, source: Option<Seq<char>>, property: Seq<char>) -> Presence;

    fn presence(&self, source: Option<&str>, property: &str) -> (r: PropertyPresence)
        ensures
            r@ == self.presence_of(opt_str(source), property@),
    ;
}

fn folded_if(s: &str, case_sensitive: bool) -> (r: Vec<char>)
    ensures
        r@ == as_compared(s@, case_sensitive),
{
    let c = chars_of(s);
    if case_sensitive {
        c
    } else {
        fold_chars(c.as_slice())
    }
}

fn value_eq_exec(v: &str, w: &str, case_sensitive: bool) -> (r: bool)
    ensures
        r == value_eq(v@, w@, case_sensitive),
{
    match numeric_match(v, w) {
        Some(b) => b,
        None => {
            let a = folded_if(v, case_sensitive);
            let b = folded_if(w, case_sensitive);
            chars_eq(a.as_slice(), b.as_slice())
        },
    }
}

fn ordered_exec(op: Op, v: &str, w: &str) -> (r: bool)
    ensures
        r == ordered(op, v@, w@),
{
    match (parse_decimal_exec(v), parse_decimal_exec(w)) {
        (Some(x), Some(y)) => match op {
            Op::Gt => dec_lt_exec(&y, &x),
            Op::Ge => !dec_lt_exec(&x, &y),
            Op::Lt => dec_lt_exec(&x, &y),
            Op::Le => !dec_lt_exec(&y, &x),
            _ => false,
        },
        _ => false,
    }
}

fn between_exec(v: &str, lo: &str, hi: Option<&String>) -> (r: bool)
    ensures
        r == between(v@, lo@, match hi {
            Some(h) => Some(h@),
            None => None,
        }),
{
    match (parse_decimal_exec(v), parse_decimal_exec(lo), hi) {
        (Some(x), Some(a), Some(h)) => match parse_decimal_exec(h.as_str()) {
            Some(b) => !dec_lt_exec(&x, &a) && !dec_lt_exec(&b, &x),
            None => false,
        },
        _ => false,
    }
}

/// A predicate against a value that is there.
pub fn holds_on_exec(p: &Predicate, v: &str) -> (r: bool)
    ensures
        r == holds_on(p.deep_view(), v@),
{
    let cs = p.case_sensitive;
    match p.op {
        Op::Eq => value_eq_exec(v, p.value.as_str(), cs),
        Op::Ne => !value_eq_exec(v, p.value.as_str(), cs),
        Op::Contains | Op::NotContains | Op::StartsWith | Op::EndsWith => {
            let hay = folded_if(v, cs);
            let needle = folded_if(p.value.as_str(), cs);
            match p.op {
                Op::Contains => contains_exec(hay.as_slice(), needle.as_slice()),
                Op::NotContains => !contains_exec(hay.as_slice(), needle.as_slice()),
                Op::StartsWith => starts_with_exec(hay.as_slice(), needle.as_slice()),
                _ => ends_with_exec(hay.as_slice(), needle.as_slice()),
            }
        },
        Op::Between => between_exec(v, p.value.as_str(), p.value2.as_ref()),
        Op::Gt | Op::Ge | Op::Lt | Op::Le => ordered_exec(p.op, v, p.value.as_str()),
        Op::Blank => false,
        Op::HasValue => true,
    }
}

/// A predicate against a field's presence.
pub fn holds_exec(p: &Predicate, presence: &PropertyPresence) -> (r: bool)
    ensures
        r == holds(p.deep_view(), presence@),
{
    match p.op {
        Op::Blank => !matches!(presence, PropertyPresence::Present(_)),
        Op::HasValue => matches!(presence, PropertyPresence::Present(_)),
        _ => match presence {
            PropertyPresence::Present(v) => holds_on_exec(p, v.as_str()),
            _ => false,
        },
    }
}

/// The view of an optional owned name.
pub open spec fn opt_string(o: Option<String>) -> Option<Seq<char>> {
    match o {
        Some(s) => Some(s@),
        None => None,
    }
}

/// A record's answer to every field name.
pub type PresenceFn = spec_fn(Option<Seq<char>>, Seq<char>) -> Presence;

/// A record's fields, as a function.
pub open spec fn presence_fn<T: FilterTarget>(t: T) -> PresenceFn {
    |source: Option<Seq<char>>, property: Seq<char>| t.presence_of(source, property)
}

/// Whether a predicate holds for a record.
pub open spec fn holds_with(p: PredicateV, pres: PresenceFn) -> bool {
    holds(p, pres(p.source, p.property))
}

/// Whether a predicate holds for a record, reading the field it names.
pub fn holds_for<T: FilterTarget>(p: &Predicate, target: &T) -> (r: bool)
    ensures
        r == holds_with(p.deep_view(), presence_fn(*target)),
{
    let source: Option<&str> = match &p.source {
        Some(s) => Some(s.as_str()),
        None => None,
    };
    let presence = target.presence(source, p.property.as_str());
    holds_exec(p, &presence)
}

/// A filter tree: predicates joined by all/any groups.
pub enum FilterNode {
    Group { mode: Mode, items: Vec<FilterNode> },
    Leaf(Predicate),
}

/// Whether a filter tree holds for a record.
pub open spec fn node_holds(n: FilterNode, pres: PresenceFn) -> bool
    decreases n,
{
    match n {
        FilterNode::Leaf(p) => holds_with(p.deep_view(), pres),
        FilterNode::Group { mode, items } => match mode {
            Mode::All => forall|i: int| 0 <= i < items@.len() ==> node_holds(#[trigger] items@[i], pres),
            Mode::Any => items@.len() == 0 || exists|i: int|
                0 <= i < items@.len() && node_holds(#[trigger] items@[i], pres),
        },
    }
}

/// Whether a filter tree holds for a record.
pub fn node_matches<T: FilterTarget>(n: &FilterNode, target: &T) -> (r: bool)
    ensures
        r == node_holds(*n, presence_fn(*target)),
    decreases n,
{
    match n {
        FilterNode::Leaf(p) => holds_for(p, target),
        FilterNode::Group { mode, items } => {
            let want = *mode == Mode::All;
            if items.len() == 0 {
                return true;
            }
            let mut i: usize = 0;
            while i < items.len()
                invariant
                    i <= items@.len(),
                    *n == (FilterNode::Group { mode: *mode, items: *items }),
                    want == (*mode == Mode::All),
                    items@.len() > 0,
                    forall|j: int| 0 <= j < i ==> node_holds(#[trigger] items@[j], presence_fn(*target)) == want,
                decreases items@.len() - i,
            {
                proof {
                    assert(decreases_to!(*n => (*n)->items));
                    assert(decreases_to!((*n)->items => (*n)->items@));
                    assert(decreases_to!((*n)->items@ => (*n)->items@[i as int]));
                }
                let v = node_matches(&items[i], target);
                if v != want {
                    return v;
                }
                i += 1;
            }
            proof {
                if !want {
                    assert(!node_holds(items@[0], presence_fn(*target)));
                }
            }
            want
        },
    }
}

/// A parsed `?filter=` expression.
pub struct RoomFilter {
    pub root: FilterNode,
}

impl RoomFilter {
    /// Whether this filter holds for a record.
    pub fn matches<T: FilterTarget>(&self, target: &T) -> (r: bool)
        ensures
            r == node_holds(self.root, presence_fn(*target)),
    {
        node_matches(&self.root, target)
    }
}

/// How a field name splits against the known joined sources.
pub enum NamespaceSplit {
    /// `source.label` for a known source.
    Joined { source: String, property: String },
    /// A name of the record's own.
    Unqualified(String),
    /// `prefix.rest` whose prefix names no known source.
    UnknownSource(String),
}

pub enum NamespaceSplitV {
    Joined { source: Seq<char>, property: Seq<char> },
    Unqualified(Seq<char>),
    UnknownSource(Seq<char>),
}

impl DeepView for NamespaceSplit {
    type V = NamespaceSplitV;

    open spec fn deep_view(&self) -> NamespaceSplitV {
        match self {
            NamespaceSplit::Joined { source, property } => NamespaceSplitV::Joined {
                source: source@,
                property: property@,
            },
            NamespaceSplit::Unqualified(s) => NamespaceSplitV::Unqualified(s@),
            NamespaceSplit::UnknownSource(s) => NamespaceSplitV::UnknownSource(s@),
        }
    }
}

/// Whether `name` is one of `known`.
pub open spec fn is_known(known: Seq<Seq<char>>, name: Seq<char>) -> bool {
    exists|i: int| 0 <= i < known.len() && known[i] == name
}

/// A name without a dot is the record's own; with one, the part before the
/// first dot must name a known source.
pub open spec fn split_of(field: Seq<char>, known: Seq<Seq<char>>) -> NamespaceSplitV {
    let k = first_where(field, crate::decimal::is_dot());
    if k < 0 {
        NamespaceSplitV::Unqualified(field)
    } else if is_known(known, field.take(k)) {
        NamespaceSplitV::Joined { source: field.take(k), property: field.skip(k + 1) }
    } else {
        NamespaceSplitV::UnknownSource(field.take(k))
    }
}

/// Whether `name` is one of `known`.
pub fn known_contains(known: &[String], name: &str) -> (r: bool)
    ensures
        r == is_known(known.deep_view(), name@),
{
    let ghost d = known.deep_view();
    let mut i: usize = 0;
    while i < known.len()
        invariant
            i <= known@.len(),
            d == known.deep_view(),
            forall|j: int| 0 <= j < i ==> d[j] != name@,
        decreases known@.len() - i,
    {
        assert(d[i as int] == known@[i as int]@);
        if crate::text::text_eq(known[i].as_str(), name) {
            return true;
        }
        i += 1;
    }
    false
}

/// Split a field name into its source and property.
pub fn split_namespace(field: &str, known: &[String]) -> (r: NamespaceSplit)
    ensures
        r.deep_view() == split_of(field@, known.deep_view()),
{
    let c = chars_of(field);
    let ghost cv = c@;
    let mut k: usize = 0;
    while k < c.len() && c[k] != '.'
        invariant
            k <= c@.len(),
            cv == c@,
            forall|j: int| 0 <= j < k ==> !crate::decimal::is_dot()(#[trigger] cv[j]),
        decreases c@.len() - k,
    {
        k += 1;
    }
    proof {
        if k < c@.len() {
            assert(crate::decimal::is_dot()(cv[k as int]));
        }
        lemma_first_where_at(cv, crate::decimal::is_dot(), k as int);
    }
    if k == c.len() {
        return NamespaceSplit::Unqualified(owned(field));
    }
    let mut head: Vec<char> = Vec::new();
    let mut j: usize = 0;
    while j < k
        invariant
            j <= k < c@.len(),
            cv == c@,
            head@ == cv.take(j as int),
        decreases k - j,
    {
        head.push(c[j]);
        assert(cv.take(j + 1) == cv.take(j as int).push(cv[j as int]));
        j += 1;
    }
    let mut tail: Vec<char> = Vec::new();
    let mut m: usize = k + 1;
    while m < c.len()
        invariant
            k + 1 <= m <= c@.len(),
            cv == c@,
            tail@ == cv.subrange(k + 1, m as int),
        decreases c@.len() - m,
    {
        tail.push(c[m]);
        assert(cv.subrange(k + 1, m + 1) == cv.subrange(k + 1, m as int).push(cv[m as int]));
        m += 1;
    }
    assert(tail@ =~= cv.skip(k + 1));
    let source = string_of(head.as_slice());
    if known_contains(known, source.as_str()) {
        NamespaceSplit::Joined { source, property: string_of(tail.as_slice()) }
    } else {
        NamespaceSplit::UnknownSource(source)
    }
}


pub open spec fn is_op_char() -> spec_fn(char) -> bool {
    |c: char| c == '=' || c == '!' || c == '<' || c == '>'
}

/// Where a query term's operator is, how long it is, and which it is.
pub open spec fn term_op(t: Seq<char>) -> Option<(int, int, Op)> {
    let k = first_where(t, is_op_char());
    if k < 0 {
        None
    } else {
        let two = k + 1 < t.len() && t[k + 1] == '=';
        if t[k] == '!' {
            if two {
                Some((k, 2, Op::Ne))
            } else {
                None
            }
        } else if t[k] == '<' {
            if two {
                Some((k, 2, Op::Le))
            } else {
                Some((k, 1, Op::Lt))
            }
        } else if t[k] == '>' {
            if two {
                Some((k, 2, Op::Ge))
            } else {
                Some((k, 1, Op::Gt))
            }
        } else {
            Some((k, 1, Op::Eq))
        }
    }
}

/// A `?filter=` term, `field op value` with the operator one of `=`, `!=`,
/// `<`, `<=`, `>`, `>=`: the predicate it states, or the reason it states none.
pub open spec fn parse_query_of(expr: Seq<char>, known: Seq<Seq<char>>) -> Result<PredicateV, Seq<char>> {
    match term_op(expr) {
        None => Err("filter has no operator (=, !=, <, <=, >, >=): "@ + expr),
        Some((k, l, op)) => {
            let field = trim(expr.take(k));
            let value = trim(expr.skip(k + l));
            if field.len() == 0 {
                Err("filter has no field name: "@ + expr)
            } else {
                match split_of(field, known) {
                    NamespaceSplitV::Joined { source, property } => Ok(
                        PredicateV { source: Some(source), property, op, value, value2: None, case_sensitive: false },
                    ),
                    NamespaceSplitV::Unqualified(property) => Ok(
                        PredicateV { source: None, property, op, value, value2: None, case_sensitive: false },
                    ),
                    NamespaceSplitV::UnknownSource(name) => Err("filter names an unknown data source: "@ + name),
                }
            }
        },
    }
}

/// Whether a filter is exactly one predicate under an `all` group.
pub open spec fn is_single(f: RoomFilter, p: PredicateV) -> bool {
    match f.root {
        FilterNode::Group { mode, items } => mode == Mode::All && items@.len() == 1 && match items@[0] {
            FilterNode::Leaf(q) => q.deep_view() == p,
            _ => false,
        },
        _ => false,
    }
}

impl RoomFilter {
    /// Parse a `?filter=` term.
    pub fn parse_query(expr: &str, known: &[String]) -> (r: Result<RoomFilter, String>)
        ensures
            match r {
                Ok(f) => parse_query_of(expr@, known.deep_view()) matches Ok(p) && is_single(f, p),
                Err(m) => parse_query_of(expr@, known.deep_view()) == Err::<PredicateV, Seq<char>>(m@),
            },
    {
        let c = chars_of(expr);
        let ghost cv = c@;
        let mut k: usize = 0;
        while k < c.len() && !(c[k] == '=' || c[k] == '!' || c[k] == '<' || c[k] == '>')
            invariant
                k <= c@.len(),
                cv == c@,
                forall|j: int| 0 <= j < k ==> !is_op_char()(#[trigger] cv[j]),
            decreases c@.len() - k,
        {
            k += 1;
        }
        proof {
            if k < c@.len() {
                assert(is_op_char()(cv[k as int]));
            }
            lemma_first_where_at(cv, is_op_char(), k as int);
        }
        if k == c.len() {
            return Err(concat("filter has no operator (=, !=, <, <=, >, >=): ", expr));
        }
        let two = k + 1 < c.len() && c[k + 1] == '=';
        let (len, op): (usize, Op) = if c[k] == '!' {
            if two {
                (2, Op::Ne)
            } else {
                return Err(concat("filter has no operator (=, !=, <, <=, >, >=): ", expr));
            }
        } else if c[k] == '<' {
            if two {
                (2, Op::Le)
            } else {
                (1, Op::Lt)
            }
        } else if c[k] == '>' {
            if two {
                (2, Op::Ge)
            } else {
                (1, Op::Gt)
            }
        } else {
            (1, Op::Eq)
        };
        let mut head: Vec<char> = Vec::new();
        let mut j: usize = 0;
        while j < k
            invariant
                j <= k < c@.len(),
                cv == c@,
                head@ == cv.take(j as int),
            decreases k - j,
        {
            head.push(c[j]);
            assert(cv.take(j + 1) == cv.take(j as int).push(cv[j as int]));
            j += 1;
        }
        let mut tail: Vec<char> = Vec::new();
        let mut m: usize = k + len;
        while m < c.len()
            invariant
                k + len <= m <= c@.len(),
                cv == c@,
                tail@ == cv.subrange(k + len, m as int),
            decreases c@.len() - m,
        {
            tail.push(c[m]);
            assert(cv.subrange(k + len, m + 1) == cv.subrange(k + len, m as int).push(cv[m as int]));
            m += 1;
        }
        assert(tail@ =~= cv.skip(k + len));
        let field_chars = trim_chars(head.as_slice());
        let value_chars = trim_chars(tail.as_slice());
        if field_chars.len() == 0 {
            return Err(concat("filter has no field name: ", expr));
        }
        let field = string_of(field_chars.as_slice());
        let value = string_of(value_chars.as_slice());
        let (source, property) = match split_namespace(field.as_str(), known) {
            NamespaceSplit::Joined { source, property } => (Some(source), property),
            NamespaceSplit::Unqualified(p) => (None, p),
            NamespaceSplit::UnknownSource(name) => {
                return Err(concat("filter names an unknown data source: ", name.as_str()));
            },
        };
        let pred = Predicate { source, property, op, value, value2: None, case_sensitive: false };
        let mut items: Vec<FilterNode> = Vec::new();
        items.push(FilterNode::Leaf(pred));
        Ok(RoomFilter { root: FilterNode::Group { mode: Mode::All, items } })
    }
}

} // verus!
