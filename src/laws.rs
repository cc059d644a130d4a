use vstd::prelude::*;

use crate::scan::{all_digits, digits_value, is_digit, lemma_digit_end_at};
use crate::unit::{lemma_unit_end_at, lemma_unit_letters, unit_nanos};
use crate::{duration_value, outcome, term_at, terms, Error};

verus! {

/// Parsing is deterministic: two parses of one literal end alike, with the
/// same number or the same message.
pub proof fn lemma_parse_deterministic(s: &str, r1: Result<i64, Error>, r2: Result<i64, Error>)
    requires
        outcome(r1) == duration_value(s@),
        outcome(r2) == duration_value(s@),
    ensures
        r1 is Ok <==> r2 is Ok,
        r1 is Ok ==> r1->Ok_0 == r2->Ok_0,
        r1 is Err ==> r1->Err_0@ == r2->Err_0@,
{
}

/// A term whose whole number of units holds more nanoseconds than an `i64`
/// can is refused, with or without a sign before it: the count never wraps.
pub proof fn lemma_term_overflow_fails(sign: Seq<char>, digits: Seq<char>, u: Seq<char>)
    requires
        sign == Seq::<char>::empty() || sign == seq!['+'] || sign == seq!['-'],
        digits.len() > 0,
        all_digits(digits),
        unit_nanos(u) is Some,
        digits_value(digits) * unit_nanos(u)->0 > i64::MAX,
    ensures
        duration_value(sign + digits + u) is Err,
{
    let s = sign + digits + u;
    let start = sign.len() as int;
    let p = start + digits.len();
    assert(seq!['+'].len() == 1 && seq!['+'][0] == '+');
    assert(seq!['-'].len() == 1 && seq!['-'][0] == '-');
    lemma_unit_letters(u);
    assert forall|k: int| start <= k < p implies is_digit(#[trigger] s[k]) by {
        assert(s[k] == digits[k - start]);
    }
    assert forall|k: int| p <= k < s.len() implies !('0' <= #[trigger] s[k] && s[k] <= '9') && s[k]
        != '.' by {
        assert(s[k] == u[k - p]);
    }
    assert(s[p] == u[0]);
    assert(is_digit(digits[0]));
    assert(s[start] == digits[0]);
    lemma_digit_end_at(s, start, p);
    lemma_unit_end_at(s, p);
    assert(s.subrange(start, s.len() as int).len() >= 2);
    assert(seq!['0'].len() == 1);
    assert(s.subrange(start, p) =~= digits);
    assert(s.subrange(p, s.len() as int) =~= u);
    if sign.len() == 0 {
        assert(!(s[0] == '-' || s[0] == '+'));
    } else {
        assert(s[0] == sign[0]);
    }
    assert(term_at(s, start) is Err);
    assert(terms(s, start as nat, 0) is Err);
}

} // verus!
