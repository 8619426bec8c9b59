//! Plain decimal numbers written as text, compared exactly.
//!
//! A value like `10`, `10.0`, `-0.50` or `+3.` is a decimal; it is held as its
//! sign, its integer digits without leading zeros and its fractional digits
//! without trailing zeros, so two texts naming the same number have the same
//! form. Equality and order are decided on that form, digit by digit: no
//! rounding ever takes place.
use vstd::prelude::*;
use crate::keyed::{first_where, lemma_first_where_at};
use crate::text::{chars_eq, chars_of, text_lt, text_lt_exec, trim, trimmed};

verus! {

pub open spec fn is_digit(c: char) -> bool {
    '0' <= c && c <= '9'
}

pub open spec fn all_digits(s: Seq<char>) -> bool {
    forall|i: int| 0 <= i < s.len() ==> is_digit(#[trigger] s[i])
}

pub open spec fn strip_leading_zeros(s: Seq<char>) -> Seq<char>
    decreases s.len(),
{
    if s.len() > 0 && s[0] == '0' {
        strip_leading_zeros(s.drop_first())
    } else {
        s
    }
}

pub open spec fn strip_trailing_zeros(s: Seq<char>) -> Seq<char>
    decreases s.len(),
{
    if s.len() > 0 && s.last() == '0' {
        strip_trailing_zeros(s.drop_last())
    } else {
        s
    }
}

/// A decimal in its one written form.
pub struct DecimalV {
    pub negative: bool,
    pub int_digits: Seq<char>,
    pub frac_digits: Seq<char>,
}

pub open spec fn is_dot() -> spec_fn(char) -> bool {
    |c: char| c == '.'
}

/// The sign, and the rest of the text after it.
pub open spec fn split_sign(t: Seq<char>) -> (bool, Seq<char>) {
    if t.len() > 0 && t[0] == '-' {
        (true, t.drop_first())
    } else if t.len() > 0 && t[0] == '+' {
        (false, t.drop_first())
    } else {
        (false, t)
    }
}

/// The number a text names, when it names one: surrounding whitespace, then
/// an optional sign, digits, and at most one decimal point, with at least one
/// digit in all.
pub open spec fn parse_decimal(s: Seq<char>) -> Option<DecimalV> {
    let t = trim(s);
    let (neg, body) = split_sign(t);
    let dot = first_where(body, is_dot());
    let ip = if dot < 0 {
        body
    } else {
        body.take(dot)
    };
    let fp = if dot < 0 {
        Seq::<char>::empty()
    } else {
        body.skip(dot + 1)
    };
    if all_digits(ip) && all_digits(fp) && ip.len() + fp.len() > 0 {
        let i = strip_leading_zeros(ip);
        let f = strip_trailing_zeros(fp);
        Some(DecimalV { negative: neg && (i.len() > 0 || f.len() > 0), int_digits: i, frac_digits: f })
    } else {
        None
    }
}

/// Magnitude order: more integer digits is larger, then the digits decide.
pub open spec fn mag_lt(a: DecimalV, b: DecimalV) -> bool {
    if a.int_digits.len() != b.int_digits.len() {
        a.int_digits.len() < b.int_digits.len()
    } else if a.int_digits != b.int_digits {
        text_lt(a.int_digits, b.int_digits)
    } else {
        text_lt(a.frac_digits, b.frac_digits)
    }
}

/// Numeric order on decimals.
pub open spec fn dec_lt(a: DecimalV, b: DecimalV) -> bool {
    if a.negative != b.negative {
        a.negative
    } else if a.negative {
        mag_lt(b, a)
    } else {
        mag_lt(a, b)
    }
}

/// Whether two texts name the same number; `None` when either is not one.
pub open spec fn numeric_match_of(a: Seq<char>, b: Seq<char>) -> Option<bool> {
    match (parse_decimal(a), parse_decimal(b)) {
        (Some(x), Some(y)) => Some(x == y),
        _ => None,
    }
}

/// A decimal in its one written form.
pub struct Decimal {
    pub negative: bool,
    pub int_digits: Vec<char>,
    pub frac_digits: Vec<char>,
}

impl View for Decimal {
    type V = DecimalV;

    open spec fn view(&self) -> DecimalV {
        DecimalV { negative: self.negative, int_digits: self.int_digits@, frac_digits: self.frac_digits@ }
    }
}

proof fn lemma_strip_leading(s: Seq<char>, k: int)
    requires
        0 <= k <= s.len(),
        forall|j: int| 0 <= j < k ==> s[j] == '0',
        k == s.len() || s[k] != '0',
    ensures
        strip_leading_zeros(s) == s.skip(k),
    decreases k,
{
    if k == 0 {
        assert(s.skip(0) =~= s);
    } else {
        lemma_strip_leading(s.drop_first(), k - 1);
        assert(s.drop_first().skip(k - 1) =~= s.skip(k));
    }
}

proof fn lemma_strip_trailing(s: Seq<char>, k: int)
    requires
        0 <= k <= s.len(),
        forall|j: int| k <= j < s.len() ==> s[j] == '0',
        k == 0 || s[k - 1] != '0',
    ensures
        strip_trailing_zeros(s) == s.take(k),
    decreases s.len() - k,
{
    if k == s.len() {
        assert(s.take(k) =~= s);
    } else {
        lemma_strip_trailing(s.drop_last(), k);
        assert(s.drop_last().take(k) =~= s.take(k));
    }
}

fn all_digits_exec(s: &[char]) -> (r: bool)
    ensures
        r == all_digits(s@),
{
    let mut i: usize = 0;
    while i < s.len()
        invariant
            i <= s@.len(),
            forall|j: int| 0 <= j < i ==> is_digit(#[trigger] s@[j]),
        decreases s@.len() - i,
    {
        if !('0' <= s[i] && s[i] <= '9') {
            return false;
        }
        i += 1;
    }
    true
}

fn slice_of(s: &[char], from: usize, to: usize) -> (r: Vec<char>)
    requires
        from <= to <= s@.len(),
    ensures
        r@ == s@.subrange(from as int, to as int),
{
    let mut r: Vec<char> = Vec::new();
    let mut k: usize = from;
    while k < to
        invariant
            from <= k <= to <= s@.len(),
            r@ == s@.subrange(from as int, k as int),
        decreases to - k,
    {
        r.push(s[k]);
        assert(s@.subrange(from as int, k + 1) == s@.subrange(from as int, k as int).push(s@[k as int]));
        k += 1;
    }
    r
}

fn strip_leading_exec(s: &[char]) -> (r: Vec<char>)
    ensures
        r@ == strip_leading_zeros(s@),
{
    let mut k: usize = 0;
    while k < s.len() && s[k] == '0'
        invariant
            k <= s@.len(),
            forall|j: int| 0 <= j < k ==> s@[j] == '0',
        decreases s@.len() - k,
    {
        k += 1;
    }
    proof {
        lemma_strip_leading(s@, k as int);
        assert(s@.skip(k as int) =~= s@.subrange(k as int, s@.len() as int));
    }
    slice_of(s, k, s.len())
}

fn strip_trailing_exec(s: &[char]) -> (r: Vec<char>)
    ensures
        r@ == strip_trailing_zeros(s@),
{
    let mut k: usize = s.len();
    while k > 0 && s[k - 1] == '0'
        invariant
            k <= s@.len(),
            forall|j: int| k <= j < s@.len() ==> s@[j] == '0',
        decreases k,
    {
        k -= 1;
    }
    proof {
        lemma_strip_trailing(s@, k as int);
        assert(s@.take(k as int) =~= s@.subrange(0, k as int));
    }
    slice_of(s, 0, k)
}

/// The number a text names, when it names one.
pub fn parse_decimal_exec(s: &str) -> (r: Option<Decimal>)
    ensures
        match r {
            Some(d) => parse_decimal(s@) == Some(d@),
            None => parse_decimal(s@) is None,
        },
{
    let t = trimmed(s);
    let ghost tv = t@;
    let (neg, start): (bool, usize) = if t.len() > 0 && t[0] == '-' {
        (true, 1)
    } else if t.len() > 0 && t[0] == '+' {
        (false, 1)
    } else {
        (false, 0)
    };
    let body = slice_of(t.as_slice(), start, t.len());
    let ghost bv = body@;
    proof {
        let (n2, b2) = split_sign(tv);
        assert(n2 == neg);
        if start == 1 {
            assert(b2 =~= bv);
        } else {
            assert(b2 =~= bv);
        }
    }
    let mut dot: usize = 0;
    while dot < body.len() && body[dot] != '.'
        invariant
            dot <= body@.len(),
            bv == body@,
            forall|j: int| 0 <= j < dot ==> !is_dot()(#[trigger] bv[j]),
        decreases body@.len() - dot,
    {
        dot += 1;
    }
    proof {
        if dot < body@.len() {
            assert(is_dot()(bv[dot as int]));
        }
        lemma_first_where_at(bv, is_dot(), dot as int);
    }
    let has_dot = dot < body.len();
    let ip = slice_of(body.as_slice(), 0, dot);
    let fp = if has_dot {
        slice_of(body.as_slice(), dot + 1, body.len())
    } else {
        Vec::new()
    };
    proof {
        if has_dot {
            assert(ip@ =~= bv.take(dot as int));
            assert(fp@ =~= bv.skip(dot + 1));
        } else {
            assert(ip@ =~= bv);
            assert(fp@ =~= Seq::<char>::empty());
        }
    }
    if all_digits_exec(ip.as_slice()) && all_digits_exec(fp.as_slice()) && ip.len() + fp.len() > 0 {
        let i = strip_leading_exec(ip.as_slice());
        let f = strip_trailing_exec(fp.as_slice());
        let negative = neg && (i.len() > 0 || f.len() > 0);
        Some(Decimal { negative, int_digits: i, frac_digits: f })
    } else {
        None
    }
}

fn mag_lt_exec(a: &Decimal, b: &Decimal) -> (r: bool)
    ensures
        r == mag_lt(a@, b@),
{
    if a.int_digits.len() != b.int_digits.len() {
        a.int_digits.len() < b.int_digits.len()
    } else if !chars_eq(a.int_digits.as_slice(), b.int_digits.as_slice()) {
        text_lt_exec(a.int_digits.as_slice(), b.int_digits.as_slice())
    } else {
        text_lt_exec(a.frac_digits.as_slice(), b.frac_digits.as_slice())
    }
}

/// `a < b` as numbers.
pub fn dec_lt_exec(a: &Decimal, b: &Decimal) -> (r: bool)
    ensures
        r == dec_lt(a@, b@),
{
    if a.negative != b.negative {
        a.negative
    } else if a.negative {
        mag_lt_exec(b, a)
    } else {
        mag_lt_exec(a, b)
    }
}

/// `a == b` as numbers.
pub fn dec_eq_exec(a: &Decimal, b: &Decimal) -> (r: bool)
    ensures
        r == (a@ == b@),
{
    a.negative == b.negative && chars_eq(a.int_digits.as_slice(), b.int_digits.as_slice()) && chars_eq(
        a.frac_digits.as_slice(),
        b.frac_digits.as_slice(),
    )
}

/// Whether two texts name the same number; `None` when either is not a
/// number, so the caller can fall back to comparing them as text.
pub fn numeric_match(a: &str, b: &str) -> (r: Option<bool>)
    ensures
        r == numeric_match_of(a@, b@),
{
    match (parse_decimal_exec(a), parse_decimal_exec(b)) {
        (Some(x), Some(y)) => Some(dec_eq_exec(&x, &y)),
        _ => None,
    }
}

/// The number a digit string names.
pub open spec fn digits_value(s: Seq<char>) -> nat
    decreases s.len(),
{
    if s.len() == 0 {
        0
    } else {
        digits_value(s.drop_last()) * 10 + ((s.last() as int - '0' as int) as nat)
    }
}

/// Ten to the `n`.
pub open spec fn pow10(n: nat) -> nat
    decreases n,
{
    if n == 0 {
        1
    } else {
        pow10((n - 1) as nat) * 10
    }
}

proof fn lemma_pow10_16()
    ensures
        pow10(15) == 1_000_000_000_000_000,
        pow10(16) == 10_000_000_000_000_000,
{
    reveal_with_fuel(pow10, 17);
}

proof fn lemma_pow10_mono(a: nat, b: nat)
    requires
        a <= b,
    ensures
        pow10(a) <= pow10(b),
    decreases b,
{
    if a < b {
        lemma_pow10_mono(a, (b - 1) as nat);
    }
}

/// Hundredths of a fractional part of at most two digits.
pub open spec fn frac_hundredths(f: Seq<char>) -> nat {
    if f.len() == 0 {
        0
    } else if f.len() == 1 {
        digits_value(f) * 10
    } else {
        digits_value(f)
    }
}

/// The amount a text names in hundredths, when it is a plain number written
/// without surrounding space, with at most two decimals and at most sixteen
/// integer digits.
pub open spec fn hundredths_of(s: Seq<char>) -> Option<int> {
    match parse_decimal(s) {
        Some(d) => if trim(s) == s && d.frac_digits.len() <= 2 && d.int_digits.len() <= 16 {
            let mag = digits_value(d.int_digits) * 100 + frac_hundredths(d.frac_digits);
            Some(if d.negative {
                -(mag as int)
            } else {
                mag as int
            })
        } else {
            None
        },
        None => None,
    }
}

/// The value of a digit string of at most sixteen digits.
fn digits_u64(s: &[char]) -> (r: u64)
    requires
        all_digits(s@),
        s@.len() <= 16,
    ensures
        r == digits_value(s@),
        r < pow10(16),
{
    let mut acc: u64 = 0;
    let mut i: usize = 0;
    proof {
        lemma_pow10_16();
    }
    while i < s.len()
        invariant
            i <= s@.len(),
            s@.len() <= 16,
            all_digits(s@),
            acc == digits_value(s@.take(i as int)),
            acc < pow10(i as nat),
            pow10(16) == 10_000_000_000_000_000,
        decreases s@.len() - i,
    {
        proof {
            lemma_pow10_mono(i as nat, 15);
            lemma_pow10_16();
            assert(is_digit(s@[i as int]));
            assert(s@.take(i + 1).drop_last() =~= s@.take(i as int));
            assert(s@.take(i + 1).last() == s@[i as int]);
        }
        let d = (s[i] as u32 - '0' as u32) as u64;
        acc = acc * 10 + d;
        i += 1;
    }
    proof {
        assert(s@.take(i as int) =~= s@);
        lemma_pow10_mono(i as nat, 16);
    }
    acc
}

/// The amount a text names in hundredths, when it is a plain number written
/// without surrounding space, with at most two decimals and at most sixteen
/// integer digits.
pub fn hundredths_exec(s: &str) -> (r: Option<i128>)
    ensures
        match r {
            Some(v) => hundredths_of(s@) == Some(v as int),
            None => hundredths_of(s@) is None,
        },
        r matches Some(v) ==> -1_000_000_000_000_000_000 < v < 1_000_000_000_000_000_000,
{
    let d = match parse_decimal_exec(s) {
        Some(d) => d,
        None => return None,
    };
    let t = trimmed(s);
    let all = chars_of(s);
    if !chars_eq(t.as_slice(), all.as_slice()) || d.frac_digits.len() > 2 || d.int_digits.len() > 16 {
        return None;
    }
    proof {
        let body = split_sign(trim(s@)).1;
        let dot = first_where(body, is_dot());
        if dot < 0 {
            lemma_strip_all_digits(body);
        } else {
            lemma_strip_all_digits(body.take(dot));
            lemma_strip_trailing_digits(body.skip(dot + 1));
        }
    }
    let ip = digits_u64(d.int_digits.as_slice());
    let fp = digits_u64(d.frac_digits.as_slice());
    proof {
        lemma_pow10_16();
        let f = d.frac_digits@;
        if f.len() >= 1 {
            assert(is_digit(f[0]));
        }
        if f.len() == 1 {
            assert(f.drop_last() =~= Seq::<char>::empty());
            assert(digits_value(f.drop_last()) == 0);
            assert(f.last() == f[0]);
            assert(fp < 10);
        } else if f.len() == 2 {
            assert(is_digit(f[1]));
            assert(f.drop_last().drop_last() =~= Seq::<char>::empty());
            assert(digits_value(f.drop_last().drop_last()) == 0);
            assert(f.drop_last().last() == f[0]);
            assert(f.last() == f[1]);
            assert(digits_value(f.drop_last()) < 10);
            assert(fp < 100);
        }
    }
    let frac: u64 = if d.frac_digits.len() == 0 {
        0
    } else if d.frac_digits.len() == 1 {
        fp * 10
    } else {
        fp
    };
    let mag: i128 = (ip as i128) * 100 + (frac as i128);
    if d.negative {
        Some(-mag)
    } else {
        Some(mag)
    }
}

proof fn lemma_strip_all_digits(s: Seq<char>)
    requires
        all_digits(s),
    ensures
        all_digits(strip_leading_zeros(s)),
    decreases s.len(),
{
    if s.len() > 0 && s[0] == '0' {
        assert forall|i: int| 0 <= i < s.drop_first().len() implies is_digit(#[trigger] s.drop_first()[i]) by {
            assert(s.drop_first()[i] == s[i + 1]);
        }
        lemma_strip_all_digits(s.drop_first());
    }
}

proof fn lemma_strip_trailing_digits(s: Seq<char>)
    requires
        all_digits(s),
    ensures
        all_digits(strip_trailing_zeros(s)),
    decreases s.len(),
{
    if s.len() > 0 && s.last() == '0' {
        assert forall|i: int| 0 <= i < s.drop_last().len() implies is_digit(#[trigger] s.drop_last()[i]) by {
            assert(s.drop_last()[i] == s[i]);
        }
        lemma_strip_trailing_digits(s.drop_last());
    }
}

} // verus!
