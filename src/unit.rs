use vstd::prelude::*;

verus! {

/// Nanoseconds in one of each unit. Both the micro sign (U+00B5) and the
/// Greek small mu (U+03BC) spell microseconds.
pub open spec fn unit_nanos(u: Seq<char>) -> Option<int> {
    if u == seq!['n', 's'] {
        Some(1)
    } else if u == seq!['u', 's'] || u == seq!['\u{b5}', 's'] || u == seq!['\u{3bc}', 's'] {
        Some(1_000)
    } else if u == seq!['m', 's'] {
        Some(1_000_000)
    } else if u == seq!['s'] {
        Some(1_000_000_000)
    } else if u == seq!['m'] {
        Some(60_000_000_000)
    } else if u == seq!['h'] {
        Some(3_600_000_000_000)
    } else {
        None
    }
}

/// The end of the run of unit characters (neither a digit nor '.') at `i`.
pub open spec fn unit_end(s: Seq<char>, i: int) -> int
    decreases s.len() - i,
{
    if 0 <= i < s.len() && !('0' <= s[i] && s[i] <= '9') && s[i] != '.' {
        unit_end(s, i + 1)
    } else {
        i
    }
}

pub proof fn lemma_unit_end_bounds(s: Seq<char>, i: int)
    requires
        0 <= i <= s.len(),
    ensures
        i <= unit_end(s, i) <= s.len(),
    decreases s.len() - i,
{
    if i < s.len() && !('0' <= s[i] && s[i] <= '9') && s[i] != '.' {
        lemma_unit_end_bounds(s, i + 1);
    }
}

/// A unit that runs to the end of `s` from `i` ends there.
pub proof fn lemma_unit_end_at(s: Seq<char>, i: int)
    requires
        0 <= i <= s.len(),
        forall|k: int| i <= k < s.len() ==> !('0' <= #[trigger] s[k] && s[k] <= '9') && s[k] != '.',
    ensures
        unit_end(s, i) == s.len(),
    decreases s.len() - i,
{
    if i < s.len() {
        lemma_unit_end_at(s, i + 1);
    }
}

/// Every unit is spelled with neither digits nor '.'.
pub proof fn lemma_unit_letters(u: Seq<char>)
    requires
        unit_nanos(u) is Some,
    ensures
        u.len() >= 1,
        forall|k: int| 0 <= k < u.len() ==> !('0' <= #[trigger] u[k] && u[k] <= '9') && u[k] != '.',
        1 <= unit_nanos(u)->0 <= 3_600_000_000_000,
{
    lemma_unit_spellings();
}

/// Finds the end of the unit that starts at `i`.
pub fn scan_unit(s: &Vec<char>, i: usize) -> (r: usize)
    requires
        i <= s.len(),
    ensures
        r == unit_end(s@, i as int),
{
    let mut j: usize = i;
    while j < s.len() && !('0' <= s[j] && s[j] <= '9') && s[j] != '.'
        invariant
            i <= j <= s.len(),
            unit_end(s@, i as int) == unit_end(s@, j as int),
        decreases s.len() - j,
    {
        j = j + 1;
    }
    j
}

proof fn lemma_unit_spellings()
    ensures
        seq!['n', 's'].len() == 2 && seq!['n', 's'][0] == 'n' && seq!['n', 's'][1] == 's',
        seq!['u', 's'].len() == 2 && seq!['u', 's'][0] == 'u' && seq!['u', 's'][1] == 's',
        seq!['\u{b5}', 's'].len() == 2 && seq!['\u{b5}', 's'][0] == '\u{b5}'
            && seq!['\u{b5}', 's'][1] == 's',
        seq!['\u{3bc}', 's'].len() == 2 && seq!['\u{3bc}', 's'][0] == '\u{3bc}'
            && seq!['\u{3bc}', 's'][1] == 's',
        seq!['m', 's'].len() == 2 && seq!['m', 's'][0] == 'm' && seq!['m', 's'][1] == 's',
        seq!['s'].len() == 1 && seq!['s'][0] == 's',
        seq!['m'].len() == 1 && seq!['m'][0] == 'm',
        seq!['h'].len() == 1 && seq!['h'][0] == 'h',
{
}

/// Looks up the unit spelled by `s[from..to]`.
pub fn unit_of(s: &Vec<char>, from: usize, to: usize) -> (r: Option<i64>)
    requires
        from <= to <= s.len(),
    ensures
        match r {
            Some(n) => unit_nanos(s@.subrange(from as int, to as int)) == Some(n as int),
            None => unit_nanos(s@.subrange(from as int, to as int)) is None,
        },
{
    let ghost u = s@.subrange(from as int, to as int);
    proof {
        lemma_unit_spellings();
    }
    if to - from == 1 {
        let c = s[from];
        if c == 's' {
            assert(u =~= seq!['s']);
            Some(1_000_000_000)
        } else if c == 'm' {
            assert(u =~= seq!['m']);
            Some(60_000_000_000)
        } else if c == 'h' {
            assert(u =~= seq!['h']);
            Some(3_600_000_000_000)
        } else {
            assert(u[0] == c);
            None
        }
    } else if to - from == 2 && s[from + 1] == 's' {
        let c = s[from];
        assert(u[0] == c && u[1] == 's');
        if c == 'n' {
            assert(u =~= seq!['n', 's']);
            Some(1)
        } else if c == 'u' {
            assert(u =~= seq!['u', 's']);
            Some(1_000)
        } else if c == '\u{b5}' {
            assert(u =~= seq!['\u{b5}', 's']);
            Some(1_000)
        } else if c == '\u{3bc}' {
            assert(u =~= seq!['\u{3bc}', 's']);
            Some(1_000)
        } else if c == 'm' {
            assert(u =~= seq!['m', 's']);
            Some(1_000_000)
        } else {
            None
        }
    } else {
        proof {
            if to - from == 2 {
                assert(u[1] == s@[from + 1]);
            }
        }
        None
    }
}

} // verus!
