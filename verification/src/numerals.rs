//! Decimal numerals in texts.

use vstd::prelude::*;

use crate::text::{dec, digit_char};

verus! {

/// The value of the first `n` characters as decimal digits.
pub open spec fn digits_value(s: Seq<char>, n: int) -> Option<nat>
    decreases n,
{
    if n <= 0 {
        Some(0nat)
    } else {
        match digits_value(s, n - 1) {
            Some(v) => if '0' <= s[n - 1] <= '9' {
                Some((v * 10 + (s[n - 1] as int - '0' as int)) as nat)
            } else {
                None
            },
            None => None,
        }
    }
}

/// The number that a decimal numeral stands for, if it is at most `max`. A plus
/// sign may stand in front.
pub open spec fn numeral(s: Seq<char>, max: nat) -> Option<nat> {
    let digits = if s.len() > 1 && s[0] == '+' {
        s.skip(1)
    } else {
        s
    };
    if digits.len() == 0 {
        None
    } else {
        match digits_value(digits, digits.len() as int) {
            Some(v) => if v <= max {
                Some(v)
            } else {
                None
            },
            None => None,
        }
    }
}

proof fn digits_grow(s: Seq<char>, k: int, n: int)
    requires
        0 <= k <= n,
    ensures
        digits_value(s, k) is None ==> digits_value(s, n) is None,
        digits_value(s, n) is Some ==> digits_value(s, k) is Some && digits_value(s, k)->0
            <= digits_value(s, n)->0,
    decreases n,
{
    if k < n {
        digits_grow(s, k, n - 1);
    }
}

/// The number, at most `max`, that the characters from `from` up to `to` stand for.
pub fn parse_number(v: &Vec<char>, from: usize, to: usize, max: u64) -> (r: Option<u64>)
    requires
        from <= to <= v@.len(),
    ensures
        match (r, numeral(v@.subrange(from as int, to as int), max as nat)) {
            (Some(a), Some(b)) => a == b,
            (None, None) => true,
            _ => false,
        },
{
    let ghost s = v@.subrange(from as int, to as int);
    let start: usize = if to - from > 1 && v[from] == '+' {
        from + 1
    } else {
        from
    };
    if start == to {
        return None;
    }
    let ghost d = v@.subrange(start as int, to as int);
    assert(d =~= if s.len() > 1 && s[0] == '+' {
        s.skip(1)
    } else {
        s
    });
    let mut value: u64 = 0;
    let mut i: usize = start;
    while i < to
        invariant
            from <= start <= i <= to <= v@.len(),
            start < to,
            s == v@.subrange(from as int, to as int),
            d == v@.subrange(start as int, to as int),
            d == (if s.len() > 1 && s[0] == '+' {
                s.skip(1)
            } else {
                s
            }),
            digits_value(d, i - start) == Some(value as nat),
            value <= max,
        decreases to - i,
    {
        let c: char = v[i];
        assert(d[i - start] == c);
        proof {
            digits_grow(d, i - start + 1, to - start);
        }
        if !('0' <= c && c <= '9') {
            return None;
        }
        let x: u64 = (c as u32 - '0' as u32) as u64;
        if x > max || value > (max - x) / 10 {
            return None;
        }
        value = value * 10 + x;
        i = i + 1;
    }
    Some(value)
}

/// The digits of a numeral read back as the number.
pub proof fn dec_reads_back(n: nat)
    ensures
        digits_value(dec(n), dec(n).len() as int) == Some(n),
        dec(n).len() > 0,
        forall|i: int| 0 <= i < dec(n).len() ==> '0' <= #[trigger] dec(n)[i] <= '9',
    decreases n,
{
    let s = dec(n);
    if n < 10 {
        reveal_with_fuel(digits_value, 2);
        assert(s.len() == 1);
    } else {
        dec_reads_back(n / 10);
        let t = dec(n / 10);
        assert(s == t.push(digit_char(n % 10)));
        digits_of_prefix(s, t, t.len() as int);
        assert(digits_value(s, s.len() as int) == Some(((n / 10) * 10 + n % 10) as nat));
    }
}

/// What the first `n` digits stand for depends on them alone.
pub proof fn digits_of_prefix(s: Seq<char>, t: Seq<char>, n: int)
    requires
        0 <= n <= s.len(),
        n <= t.len(),
        forall|i: int| 0 <= i < n ==> s[i] == t[i],
    ensures
        digits_value(s, n) == digits_value(t, n),
    decreases n,
{
    if n > 0 {
        digits_of_prefix(s, t, n - 1);
    }
}

/// Where the digits that a text begins with end.
pub open spec fn digit_run(s: Seq<char>, from: int) -> int
    decreases s.len() - from,
{
    if 0 <= from < s.len() && '0' <= s[from] <= '9' {
        digit_run(s, from + 1)
    } else {
        from
    }
}

/// Digits up to `n` and none there are a run that ends at `n`.
pub proof fn run_of_digits(s: Seq<char>, n: int, from: int)
    requires
        0 <= from <= n < s.len(),
        forall|i: int| from <= i < n ==> '0' <= #[trigger] s[i] <= '9',
        !('0' <= s[n] <= '9'),
    ensures
        digit_run(s, from) == n,
    decreases n - from,
{
    if from < n {
        run_of_digits(s, n, from + 1);
    }
}

} // verus!
