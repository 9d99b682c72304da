//! Decimal digits in ASCII text, written and read back.
use vstd::prelude::*;

verus! {

/// ASCII `'0'..='9'`.
pub open spec fn is_digit(b: u8) -> bool {
    48 <= b && b <= 57
}

/// The ASCII decimal form of `n`, without leading zeros.
pub open spec fn dec(n: nat) -> Seq<u8>
    decreases n,
{
    if n < 10 {
        seq![(48 + n) as u8]
    } else {
        dec(n / 10).push((48 + n % 10) as u8)
    }
}

/// The first index at or after `i` that does not hold a digit (or the end).
pub open spec fn digits_end(s: Seq<u8>, i: int) -> int
    decreases s.len() - i,
{
    if 0 <= i < s.len() && is_digit(s[i]) {
        digits_end(s, i + 1)
    } else {
        i
    }
}

/// The value of the digits `s[i..j]`, read as a decimal number.
pub open spec fn digits_value(s: Seq<u8>, i: int, j: int) -> nat
    decreases j - i,
{
    if j <= i {
        0
    } else {
        digits_value(s, i, j - 1) * 10 + (s[j - 1] - 48) as nat
    }
}

/// Appends the decimal form of `n` to `out`.
pub fn push_decimal(out: &mut Vec<u8>, n: u64)
    ensures
        final(out)@ == old(out)@ + dec(n as nat),
    decreases n,
{
    if n >= 10 {
        push_decimal(out, n / 10);
    }
    out.push((48 + n % 10) as u8);
    assert(final(out)@ =~= old(out)@ + dec(n as nat));
}

/// An unsigned number at `s[i..]`: the longest run of digits there, which
/// must be non-empty and whose value must not exceed `max`. The result holds
/// the index just past the digits and the value.
pub open spec fn spec_uint(s: Seq<u8>, i: int, max: nat) -> Option<(int, nat)> {
    let j = digits_end(s, i);
    if j == i || digits_value(s, i, j) > max {
        None
    } else {
        Some((j, digits_value(s, i, j)))
    }
}

proof fn lemma_digits_end_step(s: Seq<u8>, i: int)
    requires
        0 <= i < s.len(),
        is_digit(s[i]),
    ensures
        digits_end(s, i) == digits_end(s, i + 1),
{
}

/// A longer run of digits never reads as a smaller number.
proof fn lemma_digits_value_mono(s: Seq<u8>, i: int, j: int, k: int)
    requires
        i <= j <= k <= s.len(),
        0 <= i,
        forall|m: int| i <= m < k ==> is_digit(#[trigger] s[m]),
    ensures
        digits_value(s, i, j) <= digits_value(s, i, k),
    decreases k - j,
{
    if j < k {
        lemma_digits_value_mono(s, i, j, k - 1);
    }
}

pub proof fn lemma_digits_end_bounds(s: Seq<u8>, i: int)
    requires
        0 <= i <= s.len(),
    ensures
        i <= digits_end(s, i) <= s.len(),
        forall|m: int| i <= m < digits_end(s, i) ==> is_digit(#[trigger] s[m]),
    decreases s.len() - i,
{
    if i < s.len() && is_digit(s[i]) {
        lemma_digits_end_bounds(s, i + 1);
    }
}

pub proof fn lemma_dec_digits(n: nat)
    ensures
        dec(n).len() >= 1,
        forall|k: int| 0 <= k < dec(n).len() ==> is_digit(#[trigger] dec(n)[k]),
    decreases n,
{
    if n >= 10 {
        lemma_dec_digits(n / 10);
    }
}

proof fn lemma_dec_value(s: Seq<u8>, p: int, n: nat)
    requires
        0 <= p,
        p + dec(n).len() <= s.len(),
        s.subrange(p, p + dec(n).len()) == dec(n),
    ensures
        digits_value(s, p, p + dec(n).len()) == n,
    decreases n,
{
    let len = dec(n).len() as int;
    assert(s[p + len - 1] == dec(n)[len - 1]);
    if n < 10 {
        assert(digits_value(s, p, p) == 0);
    } else {
        let m = n / 10;
        lemma_dec_digits(m);
        assert(dec(n) == dec(m).push((48 + n % 10) as u8));
        assert(s.subrange(p, p + dec(m).len()) =~= dec(n).subrange(0, dec(m).len() as int));
        assert(dec(n).subrange(0, dec(m).len() as int) =~= dec(m));
        lemma_dec_value(s, p, m);
    }
}

proof fn lemma_digits_end_at(s: Seq<u8>, i: int, q: int)
    requires
        0 <= i <= q <= s.len(),
        forall|m: int| i <= m < q ==> is_digit(#[trigger] s[m]),
        q == s.len() || !is_digit(s[q]),
    ensures
        digits_end(s, i) == q,
    decreases q - i,
{
    if i < q {
        lemma_digits_end_at(s, i + 1, q);
    }
}

/// Where `s` holds the decimal form of `n` at `p`, followed by a non-digit or
/// by the end, a number of at most `max >= n` read at `p` is `n`.
pub proof fn lemma_read_dec(s: Seq<u8>, p: int, n: nat, max: nat)
    requires
        0 <= p,
        p + dec(n).len() <= s.len(),
        s.subrange(p, p + dec(n).len()) == dec(n),
        p + dec(n).len() == s.len() || !is_digit(s[p + dec(n).len()]),
        n <= max,
    ensures
        spec_uint(s, p, max) == Some((p + dec(n).len(), n)),
{
    let q = p + dec(n).len();
    lemma_dec_digits(n);
    assert forall|m: int| p <= m < q implies is_digit(#[trigger] s[m]) by {
        assert(s[m] == s.subrange(p, q)[m - p]);
    }
    lemma_digits_end_at(s, p, q);
    lemma_dec_value(s, p, n);
}

/// Reads an unsigned number of at most `max` at `s[i..]`.
pub fn read_uint(s: &[u8], i: usize, max: u64) -> (r: Option<(usize, u64)>)
    requires
        i <= s@.len(),
    ensures
        match r {
            None => spec_uint(s@, i as int, max as nat) is None,
            Some((j, v)) => spec_uint(s@, i as int, max as nat) == Some((j as int, v as nat)),
        },
{
    let mut k: usize = i;
    let mut value: u64 = 0;
    while k < s.len() && 48 <= s[k] && s[k] <= 57
        invariant
            i <= k <= s@.len(),
            value as nat == digits_value(s@, i as int, k as int),
            value <= max,
            digits_end(s@, i as int) == digits_end(s@, k as int),
            forall|m: int| i <= m < k ==> is_digit(#[trigger] s@[m]),
        decreases s@.len() - k,
    {
        proof {
            lemma_digits_end_step(s@, k as int);
        }
        let d: u64 = (s[k] - 48) as u64;
        assert(digits_value(s@, i as int, k + 1) == value * 10 + d);
        if d > max || value > (max - d) / 10 {
            proof {
                assert(value * 10 + d > max) by (nonlinear_arith)
                    requires
                        d > max || value > (max - d) / 10,
                        d <= 9,
                ;
                lemma_digits_end_bounds(s@, k + 1);
                lemma_digits_value_mono(s@, i as int, k + 1, digits_end(s@, i as int));
            }
            return None;
        }
        assert(value * 10 + d <= max) by (nonlinear_arith)
            requires
                d <= max,
                value <= (max - d) / 10,
        ;
        value = value * 10 + d;
        k = k + 1;
    }
    if k == i {
        None
    } else {
        Some((k, value))
    }
}

} // verus!
