use vstd::prelude::*;

verus! {

/// The characters of `s`, in order.
pub fn chars_of(s: &str) -> (r: Vec<char>)
    ensures
        r@ == s@,
{
    let mut r: Vec<char> = Vec::new();
    for c in it: s.chars()
        invariant
            r@ == it.seq().take(it.index() as int),
            it.seq() == s@,
    {
        r.push(c);
    }
    r
}

pub open spec fn is_digit(c: char) -> bool {
    '0' <= c && c <= '9'
}

pub open spec fn digit_value(c: char) -> int {
    c as int - '0' as int
}

/// True when every character of `d` is an ASCII digit.
pub open spec fn all_digits(d: Seq<char>) -> bool {
    forall|k: int| 0 <= k < d.len() ==> is_digit(#[trigger] d[k])
}

/// The number that the decimal digits `d` spell, most significant first.
pub open spec fn digits_value(d: Seq<char>) -> int
    decreases d.len(),
{
    if d.len() == 0 {
        0
    } else {
        10 * digits_value(d.drop_last()) + digit_value(d.last())
    }
}

pub open spec fn pow10(k: nat) -> int
    decreases k,
{
    if k == 0 {
        1
    } else {
        10 * pow10((k - 1) as nat)
    }
}

/// The end of the run of digits that starts at `i`.
pub open spec fn digit_end(s: Seq<char>, i: int) -> int
    decreases s.len() - i,
{
    if 0 <= i < s.len() && is_digit(s[i]) {
        digit_end(s, i + 1)
    } else {
        i
    }
}

/// The longest prefix of the digits `d` whose value fits in an `i64`:
/// fraction digits past it add no precision.
pub open spec fn kept_digits(d: Seq<char>) -> Seq<char>
    decreases d.len(),
{
    if d.len() == 0 || digits_value(d) <= i64::MAX {
        d
    } else {
        kept_digits(d.drop_last())
    }
}

/// The kept digits are digits, and no more than there were.
pub proof fn lemma_kept_digits(d: Seq<char>)
    requires
        all_digits(d),
    ensures
        all_digits(kept_digits(d)),
        kept_digits(d).len() <= d.len(),
    decreases d.len(),
{
    if !(d.len() == 0 || digits_value(d) <= i64::MAX) {
        let p = d.drop_last();
        assert(all_digits(p)) by {
            assert forall|k: int| 0 <= k < p.len() implies is_digit(#[trigger] p[k]) by {
                assert(p[k] == d[k]);
            }
        }
        lemma_kept_digits(p);
    }
}

pub proof fn lemma_digit_end_bounds(s: Seq<char>, i: int)
    requires
        0 <= i <= s.len(),
    ensures
        i <= digit_end(s, i) <= s.len(),
        all_digits(s.subrange(i, digit_end(s, i))),
    decreases s.len() - i,
{
    if i < s.len() && is_digit(s[i]) {
        lemma_digit_end_bounds(s, i + 1);
        let e = digit_end(s, i);
        assert forall|k: int| 0 <= k < e - i implies is_digit(#[trigger] s.subrange(i, e)[k]) by {
            if k > 0 {
                assert(s.subrange(i, e)[k] == s.subrange(i + 1, e)[k - 1]);
            }
        }
    }
}

/// A run of digits from `i` to `j` that nothing else continues ends at `j`.
pub proof fn lemma_digit_end_at(s: Seq<char>, i: int, j: int)
    requires
        0 <= i <= j <= s.len(),
        forall|k: int| i <= k < j ==> is_digit(#[trigger] s[k]),
        j == s.len() || !is_digit(s[j]),
    ensures
        digit_end(s, i) == j,
    decreases j - i,
{
    if i < j {
        lemma_digit_end_at(s, i + 1, j);
    }
}

pub proof fn lemma_digits_value_nonneg(d: Seq<char>)
    requires
        all_digits(d),
    ensures
        0 <= digits_value(d) < pow10(d.len()),
    decreases d.len(),
{
    if d.len() > 0 {
        assert(is_digit(d[d.len() - 1]));
        assert(all_digits(d.drop_last())) by {
            assert forall|k: int| 0 <= k < d.len() - 1 implies is_digit(#[trigger] d.drop_last()[k]) by {
                assert(d.drop_last()[k] == d[k]);
            }
        }
        lemma_digits_value_nonneg(d.drop_last());
    }
}

/// Appending digits never makes the value smaller.
pub proof fn lemma_digits_value_grows(d: Seq<char>, j: int)
    requires
        all_digits(d),
        0 <= j <= d.len(),
    ensures
        digits_value(d.take(j)) <= digits_value(d),
    decreases d.len(),
{
    if j < d.len() {
        let p = d.drop_last();
        assert(all_digits(p)) by {
            assert forall|k: int| 0 <= k < p.len() implies is_digit(#[trigger] p[k]) by {
                assert(p[k] == d[k]);
            }
        }
        lemma_digits_value_grows(p, j);
        assert(p.take(j) =~= d.take(j));
        lemma_digits_value_nonneg(p);
        assert(is_digit(d[d.len() - 1]));
    } else {
        assert(d.take(j) =~= d);
    }
}

proof fn lemma_value_step(s: Seq<char>, i: int, j: int)
    requires
        0 <= i <= j < s.len(),
    ensures
        digits_value(s.subrange(i, j + 1)) == 10 * digits_value(s.subrange(i, j))
            + digit_value(s[j]),
{
    assert(s.subrange(i, j + 1).drop_last() =~= s.subrange(i, j));
}

/// Reads the run of digits at `i`. `None` when its value does not fit in an
/// `i64`; else the value and the index where the run ends.
pub fn leading_int(s: &Vec<char>, i: usize) -> (r: Option<(i64, usize)>)
    requires
        i <= s.len(),
    ensures
        match r {
            Some((v, e)) => e == digit_end(s@, i as int) && v == digits_value(
                s@.subrange(i as int, e as int),
            ),
            None => digits_value(s@.subrange(i as int, digit_end(s@, i as int))) > i64::MAX,
        },
{
    let mut x: i64 = 0;
    let mut j: usize = i;
    while j < s.len() && '0' <= s[j] && s[j] <= '9'
        invariant
            i <= j <= s.len(),
            digit_end(s@, i as int) == digit_end(s@, j as int),
            x == digits_value(s@.subrange(i as int, j as int)),
            0 <= x,
        decreases s.len() - j,
    {
        let d = (s[j] as u32 - '0' as u32) as i64;
        proof {
            lemma_value_step(s@, i as int, j as int);
        }
        if x > (i64::MAX - d) / 10 {
            proof {
                let e = digit_end(s@, i as int);
                lemma_digit_end_bounds(s@, i as int);
                lemma_digit_end_bounds(s@, j + 1);
                let run = s@.subrange(i as int, e);
                assert(run.take(j + 1 - i) =~= s@.subrange(i as int, j + 1));
                lemma_digits_value_grows(run, j + 1 - i);
            }
            return None;
        }
        x = x * 10 + d;
        j = j + 1;
    }
    Some((x, j))
}

/// Reads the run of fraction digits at `i`, keeping those whose value fits in
/// an `i64` and passing over the rest. Returns the value of the kept digits,
/// how many were kept, and the index where the run ends.
pub fn leading_fraction(s: &Vec<char>, i: usize) -> (r: (i64, usize, usize))
    requires
        i <= s.len(),
    ensures
        r.2 == digit_end(s@, i as int),
        r.0 == digits_value(kept_digits(s@.subrange(i as int, r.2 as int))),
        r.1 == kept_digits(s@.subrange(i as int, r.2 as int)).len(),
{
    let mut x: i64 = 0;
    let mut k: usize = 0;
    let mut full = false;
    let mut j: usize = i;
    while j < s.len() && '0' <= s[j] && s[j] <= '9'
        invariant
            i <= j <= s.len(),
            k <= j - i,
            digit_end(s@, i as int) == digit_end(s@, j as int),
            all_digits(s@.subrange(i as int, j as int)),
            x == digits_value(kept_digits(s@.subrange(i as int, j as int))),
            k == kept_digits(s@.subrange(i as int, j as int)).len(),
            !full ==> k == j - i && 0 <= x <= i64::MAX && digits_value(
                s@.subrange(i as int, j as int),
            ) <= i64::MAX,
            full ==> digits_value(s@.subrange(i as int, j as int)) > i64::MAX,
        decreases s.len() - j,
    {
        let ghost before = s@.subrange(i as int, j as int);
        let ghost after = s@.subrange(i as int, j + 1);
        let d = (s[j] as u32 - '0' as u32) as i64;
        proof {
            lemma_value_step(s@, i as int, j as int);
            assert(after.drop_last() =~= before);
            assert(all_digits(after)) by {
                assert forall|t: int| 0 <= t < after.len() implies is_digit(#[trigger] after[t]) by {
                    if t < before.len() {
                        assert(after[t] == before[t]);
                    }
                }
            }
            lemma_digits_value_nonneg(before);
        }
        if !full {
            assert(kept_digits(before) == before);
            if x > (i64::MAX - d) / 10 {
                full = true;
            } else {
                x = x * 10 + d;
                k = k + 1;
            }
        }
        j = j + 1;
    }
    (x, k, j)
}

/// `n / 10^k`, for `n` the product of a fraction's numerator and a unit.
pub fn shift_down(n: u128, k: usize) -> (r: u128)
    ensures
        r == n as int / pow10(k as nat),
{
    let mut r: u128 = n;
    let mut t: usize = 0;
    while t < k
        invariant
            t <= k,
            r == n as int / pow10(t as nat),
        decreases k - t,
    {
        proof {
            lemma_pow10_pos(t as nat);
            vstd::arithmetic::div_mod::lemma_div_denominator(n as int, pow10(t as nat), 10);
            assert(pow10((t + 1) as nat) == pow10(t as nat) * 10);
        }
        r = r / 10;
        t = t + 1;
    }
    r
}

pub proof fn lemma_pow10_pos(k: nat)
    ensures
        pow10(k) >= 1,
    decreases k,
{
    if k > 0 {
        lemma_pow10_pos((k - 1) as nat);
    }
}

} // verus!
