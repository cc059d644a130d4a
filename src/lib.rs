//! Parses duration literals such as `300ms`, `-1.5h` or `2h45m` into a signed
//! count of nanoseconds.
use vstd::prelude::*;

pub mod laws;
pub mod scan;
pub mod unit;

use scan::{
    all_digits, chars_of, digit_end, digits_value, is_digit, kept_digits, leading_fraction,
    leading_int, pow10, shift_down,
};
use unit::{scan_unit, unit_end, unit_nanos, unit_of};

verus! {

/// A duration literal that could not be read. The message names the whole
/// input, as it was given.
#[derive(Debug, PartialEq)]
pub enum Error {
    ParseError(String),
}

impl View for Error {
    type V = Seq<char>;

    open spec fn view(&self) -> Seq<char> {
        match self {
            Error::ParseError(m) => m@,
        }
    }
}

impl Error {
    /// The error as a line of text for a user.
    pub fn to_message(&self) -> (r: String)
        ensures
            r@ == "Parse error: "@ + self@,
    {
        let Error::ParseError(m) = self;
        let mut r = String::from_str("Parse error: ");
        r.append(m.as_str());
        r
    }
}

pub open spec fn invalid_message(s: Seq<char>) -> Seq<char> {
    "invalid duration: "@ + s
}

pub open spec fn number_message(s: Seq<char>) -> Seq<char> {
    "invalid character in: "@ + s
}

pub open spec fn missing_unit_message(s: Seq<char>) -> Seq<char> {
    "missing unit in duration: "@ + s
}

pub open spec fn unknown_unit_message(u: Seq<char>, s: Seq<char>) -> Seq<char> {
    "unknown unit "@ + u + " in duration "@ + s
}

pub open spec fn overflow_message(s: Seq<char>) -> Seq<char> {
    "invalid duration "@ + s
}

/// Nanoseconds that the fraction digits `d` add to one `unit`, rounded
/// toward zero: digits past those that fit in an `i64` are not counted.
pub open spec fn fraction_nanos(d: Seq<char>, unit: int) -> int {
    digits_value(kept_digits(d)) * unit / pow10(kept_digits(d).len())
}

/// The term `<digits>[.<digits>]<unit>` that starts at `i`: its value in
/// nanoseconds and where it ends, or the message of the error it holds.
pub open spec fn term_at(s: Seq<char>, i: int) -> Result<(int, int), Seq<char>> {
    let p = digit_end(s, i);
    let v = digits_value(s.subrange(i, p));
    let dot = p < s.len() && s[p] == '.';
    let q = if dot {
        p + 1
    } else {
        p
    };
    let e = if dot {
        digit_end(s, q)
    } else {
        p
    };
    let w = unit_end(s, e);
    if !(s[i] == '.' || is_digit(s[i])) {
        Err(invalid_message(s))
    } else if v > i64::MAX {
        Err(number_message(s))
    } else if p == i && e == q {
        Err(invalid_message(s))
    } else if w == e {
        Err(missing_unit_message(s))
    } else {
        match unit_nanos(s.subrange(e, w)) {
            None => Err(unknown_unit_message(s.subrange(e, w), s)),
            Some(unit) => {
                let t = v * unit + fraction_nanos(s.subrange(q, e), unit);
                if v * unit > i64::MAX || t > i64::MAX {
                    Err(overflow_message(s))
                } else {
                    Ok((t, w))
                }
            },
        }
    }
}

/// The sum of the terms from `i` on, added to `total`; it fails where a term
/// does or where the sum leaves the `i64` range.
pub open spec fn terms(s: Seq<char>, i: nat, total: int) -> Result<int, Seq<char>>
    decreases s.len() - i,
    via terms_decreases
{
    if i >= s.len() {
        Ok(total)
    } else {
        match term_at(s, i as int) {
            Err(m) => Err(m),
            Ok((t, w)) => if total + t > i64::MAX {
                Err(overflow_message(s))
            } else {
                terms(s, w as nat, total + t)
            },
        }
    }
}

#[via_fn]
proof fn terms_decreases(s: Seq<char>, i: nat, total: int) {
    if i < s.len() {
        lemma_term_advances(s, i as int);
    }
}

/// What a duration literal means: an optional sign, then either `0` or one
/// or more terms.
pub open spec fn duration_value(s: Seq<char>) -> Result<int, Seq<char>> {
    let signed = s.len() > 0 && (s[0] == '-' || s[0] == '+');
    let start: nat = if signed {
        1
    } else {
        0
    };
    if s.subrange(start as int, s.len() as int) == seq!['0'] {
        Ok(0)
    } else if start == s.len() {
        Err(invalid_message(s))
    } else {
        match terms(s, start, 0) {
            Ok(d) => Ok(
                if signed && s[0] == '-' {
                    -d
                } else {
                    d
                },
            ),
            Err(m) => Err(m),
        }
    }
}

/// The result of a parse, as numbers and text.
pub open spec fn outcome(r: Result<i64, Error>) -> Result<int, Seq<char>> {
    match r {
        Ok(n) => Ok(n as int),
        Err(e) => Err(e@),
    }
}

pub proof fn lemma_term_advances(s: Seq<char>, i: int)
    requires
        0 <= i < s.len(),
    ensures
        term_at(s, i) matches Ok((t, w)) ==> i < w <= s.len() && 0 <= t <= i64::MAX,
{
    let p = digit_end(s, i);
    scan::lemma_digit_end_bounds(s, i);
    if p < s.len() && s[p] == '.' {
        scan::lemma_digit_end_bounds(s, p + 1);
        let e = digit_end(s, p + 1);
        unit::lemma_unit_end_bounds(s, e);
        lemma_fraction_bound(s.subrange(p + 1, e), 1);
    } else {
        unit::lemma_unit_end_bounds(s, p);
    }
    scan::lemma_digits_value_nonneg(s.subrange(i, p));
    if let Ok((t, w)) = term_at(s, i) {
        let dot = p < s.len() && s[p] == '.';
        let q = if dot { p + 1 } else { p };
        let e = if dot { digit_end(s, q) } else { p };
        let unit = unit_nanos(s.subrange(e, w)).unwrap();
        lemma_fraction_bound(s.subrange(q, e), unit);
        let v = digits_value(s.subrange(i, p));
        assert(0 <= v * unit) by (nonlinear_arith)
            requires
                0 <= v,
                0 < unit,
        ;
    }
}

/// The fraction digits add at most one unit.
proof fn lemma_fraction_bound(d: Seq<char>, unit: int)
    requires
        all_digits(d),
        0 < unit,
    ensures
        0 <= fraction_nanos(d, unit) <= unit,
{
    let k = kept_digits(d);
    scan::lemma_kept_digits(d);
    scan::lemma_digits_value_nonneg(k);
    scan::lemma_pow10_pos(k.len());
    let f = digits_value(k);
    let p = pow10(k.len());
    assert(0 <= f * unit <= p * unit) by (nonlinear_arith)
        requires
            0 <= f < p,
            0 < unit,
    ;
    vstd::arithmetic::div_mod::lemma_div_is_ordered(f * unit, p * unit, p);
    vstd::arithmetic::div_mod::lemma_div_is_ordered(0, f * unit, p);
    vstd::arithmetic::div_mod::lemma_div_multiples_vanish_fancy(unit, 0, p);
    assert(p * unit + 0 == p * unit);
}

/// `head` followed by the input.
fn error_with(head: &str, string: &str) -> (r: Error)
    ensures
        r@ == head@ + string@,
{
    let mut m = String::from_str(head);
    m.append(string);
    Error::ParseError(m)
}

fn unknown_unit(u: &str, string: &str) -> (r: Error)
    ensures
        r@ == unknown_unit_message(u@, string@),
{
    let mut m = String::from_str("unknown unit ");
    m.append(u);
    m.append(" in duration ");
    m.append(string);
    Error::ParseError(m)
}

/// `v * u` exceeds `m` exactly when `v` exceeds `m / u`.
proof fn lemma_product_exceeds(v: int, u: int, m: int)
    requires
        0 <= v,
        0 < u,
        0 <= m,
    ensures
        (v > m / u) <==> (v * u > m),
{
    vstd::arithmetic::div_mod::lemma_fundamental_div_mod(m, u);
    vstd::arithmetic::div_mod::lemma_mod_pos_bound(m, u);
    let q = m / u;
    let r = m % u;
    assert((v > q) <==> (v * u > m)) by (nonlinear_arith)
        requires
            m == u * q + r,
            0 <= r < u,
            0 <= v,
    ;
}

/// Reads the term at `i` of `s`, the characters of `string`.
fn read_term(s: &Vec<char>, string: &str, i: usize) -> (r: Result<(i64, usize), Error>)
    requires
        s@ == string@,
        i < s.len(),
    ensures
        match r {
            Ok((t, w)) => term_at(s@, i as int) == Ok::<(int, int), Seq<char>>((t as int, w as int)),
            Err(e) => term_at(s@, i as int) == Err::<(int, int), Seq<char>>(e@),
        },
{
    let c = s[i];
    if !(c == '.' || ('0' <= c && c <= '9')) {
        return Err(error_with("invalid duration: ", string));
    }
    proof {
        scan::lemma_digit_end_bounds(s@, i as int);
    }
    let (v, p) = match leading_int(s, i) {
        Some(x) => x,
        None => {
            return Err(error_with("invalid character in: ", string));
        },
    };
    proof {
        scan::lemma_digits_value_nonneg(s@.subrange(i as int, p as int));
    }
    let mut f: i64 = 0;
    let mut k: usize = 0;
    let mut q: usize = p;
    let mut e: usize = p;
    if p < s.len() && s[p] == '.' {
        q = p + 1;
        proof {
            scan::lemma_digit_end_bounds(s@, q as int);
        }
        let (f1, k1, e1) = leading_fraction(s, q);
        f = f1;
        k = k1;
        e = e1;
    }
    let ghost d = s@.subrange(q as int, e as int);
    proof {
        if q == e {
            assert(d.len() == 0);
            assert(kept_digits(d) == d);
        }
        scan::lemma_kept_digits(d);
        scan::lemma_digits_value_nonneg(kept_digits(d));
    }
    if p == i && e == q {
        return Err(error_with("invalid duration: ", string));
    }
    let w = scan_unit(s, e);
    if w == e {
        return Err(error_with("missing unit in duration: ", string));
    }
    proof {
        unit::lemma_unit_end_bounds(s@, e as int);
    }
    let unit = match unit_of(s, e, w) {
        Some(u) => u,
        None => {
            return Err(unknown_unit(string.substring_char(e, w), string));
        },
    };
    proof {
        lemma_product_exceeds(v as int, unit as int, i64::MAX as int);
        lemma_fraction_bound(d, unit as int);
    }
    if v > i64::MAX / unit {
        return Err(error_with("invalid duration ", string));
    }
    let vu = v * unit;
    proof {
        assert(0 <= f as int * unit as int <= i64::MAX as int * 3_600_000_000_000) by (nonlinear_arith)
            requires
                0 <= f <= i64::MAX,
                0 < unit <= 3_600_000_000_000,
        ;
    }
    let frac = shift_down(f as u128 * unit as u128, k) as i64;
    if frac > i64::MAX - vu {
        return Err(error_with("invalid duration ", string));
    }
    Ok((vu + frac, w))
}

/// Parses a duration literal into nanoseconds: an optional sign, then `0` or
/// one or more terms, each a decimal number with an optional fraction and a
/// unit (`ns`, `us`, `\u{b5}s`, `\u{3bc}s`, `ms`, `s`, `m`, `h`), as in `300ms`,
/// `-1.5h` or `2h45m`.
pub fn parse_duration(string: &str) -> (r: Result<i64, Error>)
    ensures
        outcome(r) == duration_value(string@),
{
    let s = chars_of(string);
    let n = s.len();
    let mut i: usize = 0;
    let mut neg = false;
    if n > 0 && (s[0] == '-' || s[0] == '+') {
        neg = s[0] == '-';
        i = 1;
    }
    proof {
        assert(seq!['0'].len() == 1 && seq!['0'][0] == '0');
        if n - i == 1 {
            assert(s@.subrange(i as int, n as int)[0] == s@[i as int]);
        }
    }
    if n - i == 1 && s[i] == '0' {
        assert(s@.subrange(i as int, n as int) =~= seq!['0']);
        return Ok(0);
    }
    if i == n {
        return Err(error_with("invalid duration: ", string));
    }
    let ghost start = i as nat;
    assert(s@.subrange(i as int, n as int) != seq!['0']);
    let mut d: i64 = 0;
    while i < n
        invariant
            start <= i <= n,
            n == s.len(),
            s@ == string@,
            0 <= d,
            terms(s@, start, 0) == terms(s@, i as nat, d as int),
            duration_value(s@) == match terms(s@, start, 0) {
                Ok(v) => Ok(
                    if neg {
                        -v
                    } else {
                        v
                    },
                ),
                Err(m) => Err::<int, Seq<char>>(m),
            },
        decreases n - i,
    {
        proof {
            lemma_term_advances(s@, i as int);
        }
        match read_term(&s, string, i) {
            Err(e) => {
                return Err(e);
            },
            Ok((t, w)) => {
                if d > i64::MAX - t {
                    return Err(error_with("invalid duration ", string));
                }
                d = d + t;
                i = w;
            },
        }
    }
    if neg {
        Ok(-d)
    } else {
        Ok(d)
    }
}

} // verus!
