//! Fixed-point numeric cell values.
//!
//! Every numeric cell of a dataset is carried through the pipeline as an
//! `i64` holding the cell's decimal value scaled by [`SCALE`] (milli-units),
//! so aggregation and geometry work on exact integers.  A cell parses
//! when it matches `['+'|'-'] digits ['.' digits]` with at least one
//! digit in all and at most [`MAX_INT_DIGITS`] before the dot;
//! fractional digits beyond the third are truncated.  Exponent notation
//! and non-finite forms are not numbers here: anything else is a
//! per-cell parse failure, reported and skipped, never fatal for the
//! dataset.

use vstd::prelude::*;

verus! {

/// Every parsed value is the cell's decimal value times this factor.
pub const SCALE: i64 = 1000;

/// Longest accepted integer part; keeps every accepted value inside `i64`.
pub const MAX_INT_DIGITS: usize = 15;

/// A decimal digit `'0'..='9'`.
pub open spec fn is_digit(c: char) -> bool {
    '0' <= c && c <= '9'
}

/// Numeric value of one decimal digit.
pub open spec fn digit_val(c: char) -> int {
    c as int - '0' as int
}

/// Whether every character of `s` is a decimal digit.
pub open spec fn all_digits(s: Seq<char>) -> bool {
    forall|i: int| 0 <= i < s.len() ==> is_digit(#[trigger] s[i])
}

/// Value of a digit string read most-significant first.
pub open spec fn digits_val(s: Seq<char>) -> int
    decreases s.len(),
{
    if s.len() == 0 {
        0
    } else {
        digits_val(s.drop_last()) * 10 + digit_val(s.last())
    }
}

/// Index of the first `'.'` in `s`, or `s.len()` if there is none.
pub open spec fn find_dot(s: Seq<char>) -> int
    decreases s.len(),
{
    if s.len() == 0 {
        0
    } else if s[0] == '.' {
        0
    } else {
        1 + find_dot(s.drop_first())
    }
}

/// Integer part of an unsigned number string: everything before the first dot.
pub open spec fn int_part(s: Seq<char>) -> Seq<char> {
    s.subrange(0, find_dot(s))
}

/// Fractional part of an unsigned number string: everything after the first
/// dot, or empty if there is no dot.
pub open spec fn frac_part(s: Seq<char>) -> Seq<char> {
    if find_dot(s) < s.len() {
        s.subrange(find_dot(s) + 1, s.len() as int)
    } else {
        Seq::empty()
    }
}

/// An unsigned number string: an all-digit integer part of at most
/// `MAX_INT_DIGITS` digits and an all-digit fractional part, with at
/// least one digit between them (so a bare dot is no number, but `1.`
/// and `.5` are).
pub open spec fn well_formed_unsigned(s: Seq<char>) -> bool {
    &&& int_part(s).len() <= MAX_INT_DIGITS
    &&& all_digits(int_part(s))
    &&& all_digits(frac_part(s))
    &&& int_part(s).len() + frac_part(s).len() > 0
}

/// Ten to the `k`-th power.
pub open spec fn pow10(k: nat) -> int
    decreases k,
{
    if k == 0 {
        1
    } else {
        10 * pow10((k - 1) as nat)
    }
}

/// The fractional part scaled to milli-units: the first three fractional
/// digits, padded with zeros on the right; later digits are truncated.
pub open spec fn frac_scaled(f: Seq<char>) -> int {
    if f.len() >= 3 {
        digits_val(f.subrange(0, 3))
    } else {
        digits_val(f) * pow10((3 - f.len()) as nat)
    }
}

/// Magnitude of an unsigned number string in milli-units.
pub open spec fn magnitude(s: Seq<char>) -> int {
    digits_val(int_part(s)) * (SCALE as int) + frac_scaled(frac_part(s))
}

/// What parsing a numeric cell yields: the signed milli-unit value for a
/// well-formed number, `None` for anything else.
pub open spec fn spec_parse_scaled(s: Seq<char>) -> Option<i64> {
    let signed = s.len() > 0 && (s[0] == '-' || s[0] == '+');
    let neg = s.len() > 0 && s[0] == '-';
    let t = if signed { s.drop_first() } else { s };
    if well_formed_unsigned(t) {
        if neg {
            Some((-magnitude(t)) as i64)
        } else {
            Some(magnitude(t) as i64)
        }
    } else {
        None
    }
}

/// `find_dot` points at the first dot: no dot lies before it, and it is a
/// dot unless the string has none.
pub proof fn lemma_find_dot(s: Seq<char>)
    ensures
        0 <= find_dot(s) <= s.len(),
        find_dot(s) < s.len() ==> s[find_dot(s)] == '.',
        forall|i: int| 0 <= i < find_dot(s) ==> s[i] != '.',
    decreases s.len(),
{
    if s.len() == 0 {
    } else if s[0] == '.' {
    } else {
        lemma_find_dot(s.drop_first());
        assert forall|i: int| 0 <= i < find_dot(s) implies s[i] != '.' by {
            if i > 0 {
                assert(s.drop_first()[i - 1] == s[i]);
            }
        }
    }
}

/// A digit string's value is non-negative and below `10^len`.
pub proof fn lemma_digits_val_bound(s: Seq<char>)
    requires
        all_digits(s),
    ensures
        0 <= digits_val(s) < pow10(s.len()),
    decreases s.len(),
{
    if s.len() == 0 {
    } else {
        assert(all_digits(s.drop_last())) by {
            assert(forall|i: int|
                0 <= i < s.len() - 1 ==> is_digit(#[trigger] s.drop_last()[i]) == is_digit(s[i]));
        }
        lemma_digits_val_bound(s.drop_last());
        assert(is_digit(s.last()));
        assert(0 <= digit_val(s.last()) <= 9);
        assert(digits_val(s.drop_last()) * 10 + digit_val(s.last()) < pow10(s.len())) by {
            assert(pow10(s.len()) == 10 * pow10((s.len() - 1) as nat));
            assert(digits_val(s.drop_last()) <= pow10((s.len() - 1) as nat) - 1);
            assert(digits_val(s.drop_last()) * 10 <= (pow10((s.len() - 1) as nat) - 1) * 10)
                by (nonlinear_arith)
                requires digits_val(s.drop_last()) <= pow10((s.len() - 1) as nat) - 1;
        }
    }
}

/// `pow10` is monotone.
pub proof fn lemma_pow10_mono(a: nat, b: nat)
    requires
        a <= b,
    ensures
        pow10(a) <= pow10(b),
        pow10(a) >= 1,
    decreases b,
{
    if a == b {
        lemma_pow10_pos(a);
    } else {
        lemma_pow10_mono(a, (b - 1) as nat);
        lemma_pow10_pos((b - 1) as nat);
    }
}

/// `pow10` is at least one.
pub proof fn lemma_pow10_pos(k: nat)
    ensures
        pow10(k) >= 1,
    decreases k,
{
    if k > 0 {
        lemma_pow10_pos((k - 1) as nat);
    }
}

/// A well-formed unsigned number's magnitude fits comfortably in `i64`.
pub proof fn lemma_magnitude_bound(s: Seq<char>)
    requires
        well_formed_unsigned(s),
    ensures
        0 <= magnitude(s) < 1000000000000000000,
{
    lemma_digits_val_bound(int_part(s));
    lemma_pow10_mono(int_part(s).len(), 15);
    let f = frac_part(s);
    if f.len() >= 3 {
        assert(all_digits(f.subrange(0, 3))) by {
            assert(forall|i: int|
                0 <= i < 3 ==> is_digit(#[trigger] f.subrange(0, 3)[i]) == is_digit(f[i]));
        }
        lemma_digits_val_bound(f.subrange(0, 3));
    } else {
        lemma_digits_val_bound(f);
        lemma_pow10_pos((3 - f.len()) as nat);
        assert(digits_val(f) * pow10((3 - f.len()) as nat) < pow10(f.len()) * pow10(
            (3 - f.len()) as nat,
        )) by (nonlinear_arith)
            requires
                0 <= digits_val(f) < pow10(f.len()),
                pow10((3 - f.len()) as nat) >= 1,
        ;
        lemma_pow10_mul(f.len(), (3 - f.len()) as nat);
        assert(pow10(f.len()) * pow10((3 - f.len()) as nat) == pow10(3));
    }
    assert(pow10(3) == 1000) by {
        reveal_with_fuel(pow10, 4);
    }
    assert(frac_scaled(f) < 1000);
    assert(frac_scaled(f) >= 0) by {
        if f.len() < 3 {
            lemma_digits_val_bound(f);
            lemma_pow10_pos((3 - f.len()) as nat);
            assert(digits_val(f) * pow10((3 - f.len()) as nat) >= 0) by (nonlinear_arith)
                requires
                    digits_val(f) >= 0,
                    pow10((3 - f.len()) as nat) >= 1,
            ;
        }
    }
    assert(digits_val(int_part(s)) * 1000 <= (pow10(15) - 1) * 1000) by (nonlinear_arith)
        requires
            digits_val(int_part(s)) <= pow10(15) - 1,
    ;
    assert(digits_val(int_part(s)) * 1000 >= 0) by (nonlinear_arith)
        requires
            digits_val(int_part(s)) >= 0,
    ;
    assert(pow10(15) == 1000000000000000) by {
        reveal_with_fuel(pow10, 16);
    }
}

/// Parses one cell as a signed fixed-point number in milli-units.
///
/// Returns exactly what [`spec_parse_scaled`] describes: `Some` for a
/// well-formed `['+'|'-'] digits ['.' digits]` cell with at least one
/// digit and at most `MAX_INT_DIGITS` of them before the dot, `None`
/// for every other cell.
#[verifier::loop_isolation(false)]
#[verifier::rlimit(60)]
pub fn parse_scaled(s: &str) -> (r: Option<i64>)
    ensures
        r == spec_parse_scaled(s@),
{
    let ghost sv = s@;
    let n: usize = s.unicode_len();
    let mut neg: bool = false;
    let mut start: usize = 0;
    if n > 0 {
        let c0 = s.get_char(0);
        if c0 == '-' {
            neg = true;
            start = 1;
        } else if c0 == '+' {
            start = 1;
        }
    }
    let ghost t = if start == 1 { sv.drop_first() } else { sv };
    proof {
        assert(t.len() == n - start);
        assert(forall|k: int| 0 <= k < t.len() ==> t[k] == sv[k + start]);
    }
    let mut d: usize = n;
    let mut k: usize = start;
    while k < n
        invariant
            start <= k <= n,
            d == n || (start <= d < k && sv[d as int] == '.'),
            forall|q: int|
                start <= q < (if d == n { k as int } else { d as int }) ==> sv[q] != '.',
        decreases n - k,
    {
        let c = s.get_char(k);
        if c == '.' && d == n {
            d = k;
        }
        k += 1;
    }
    proof {
        lemma_find_dot(t);
        assert(find_dot(t) == d - start) by {
            if find_dot(t) < d - start {
                assert(t[find_dot(t)] == '.');
            }
            if find_dot(t) > d - start {
                assert(d < n);
                assert(t[d - start] == sv[d as int]);
            }
        }
    }
    if d == start && d + 1 >= n {
        proof {
            assert(int_part(t).len() == 0);
            assert(frac_part(t).len() == 0);
        }
        // not one digit anywhere: not a number
        return None;
    }
    if d - start > MAX_INT_DIGITS {
        // integer part too long to be carried exactly
        return None;
    }
    let mut acc: i64 = 0;
    let mut i: usize = start;
    while i < d
        invariant
            start <= i <= d,
            forall|k: int| 0 <= k < i - start ==> is_digit(#[trigger] t[k]),
            acc == digits_val(t.subrange(0, i - start)),
            0 <= acc,
        decreases d - i,
    {
        let c = s.get_char(i);
        let u: u32 = c as u32;
        if u < 48 || u > 57 {
            proof {
                assert(!is_digit(t[i - start]));
                assert(int_part(t)[i - start] == t[i - start]);
                assert(!all_digits(int_part(t)));
            }
            return None;
        }
        proof {
            assert(is_digit(t[i - start]));
            assert(all_digits(t.subrange(0, i + 1 - start))) by {
                assert(forall|k: int|
                    0 <= k < i + 1 - start ==> #[trigger] t.subrange(0, i + 1 - start)[k] == t[k]);
            }
            lemma_digits_val_bound(t.subrange(0, i + 1 - start));
            lemma_pow10_mono((i + 1 - start) as nat, 15);
            assert(pow10(15) == 1000000000000000) by {
                reveal_with_fuel(pow10, 16);
            }
            assert(t.subrange(0, i + 1 - start).drop_last() =~= t.subrange(0, i - start));
            assert(digits_val(t.subrange(0, i + 1 - start)) == acc * 10 + digit_val(
                t[i - start],
            ));
        }
        acc = acc * 10 + ((u - 48) as i64);
        i += 1;
    }
    proof {
        assert(int_part(t) =~= t.subrange(0, d - start));
        assert(acc == digits_val(int_part(t)));
        assert(all_digits(int_part(t))) by {
            assert(forall|k: int|
                0 <= k < int_part(t).len() ==> #[trigger] int_part(t)[k] == t[k]);
        }
        lemma_digits_val_bound(int_part(t));
        lemma_pow10_mono(int_part(t).len(), 15);
        assert(pow10(15) == 1000000000000000) by {
            reveal_with_fuel(pow10, 16);
        }
    }
    let mut facc: i64 = 0;
    if d < n {
        let ghost f = frac_part(t);
        proof {
            assert(f.len() == n - (d + 1));
            assert(forall|k: int| 0 <= k < f.len() ==> f[k] == sv[k + d + 1]);
        }
        let mut fcount: usize = 0;
        let mut j: usize = d + 1;
        while j < n
            invariant
                d + 1 <= j <= n,
                fcount == if j - (d + 1) <= 3 { (j - (d + 1)) as int } else { 3int },
                forall|k: int| 0 <= k < j - (d + 1) ==> is_digit(#[trigger] f[k]),
                facc == digits_val(f.subrange(0, fcount as int)),
                0 <= facc < 1000,
            decreases n - j,
        {
            let c = s.get_char(j);
            let u: u32 = c as u32;
            if u < 48 || u > 57 {
                proof {
                    assert(!is_digit(f[j - (d + 1)]));
                    assert(!all_digits(frac_part(t)));
                }
                return None;
            }
            proof {
                assert(is_digit(f[j - (d + 1)]));
            }
            if fcount < 3 {
                proof {
                    assert(f.subrange(0, fcount + 1).drop_last() =~= f.subrange(0, fcount as int));
                    assert(digits_val(f.subrange(0, fcount + 1)) == facc * 10 + digit_val(
                        f[fcount as int],
                    ));
                    assert(all_digits(f.subrange(0, fcount + 1))) by {
                        assert(forall|k: int|
                            0 <= k < fcount + 1
                                ==> #[trigger] f.subrange(0, fcount + 1)[k] == f[k]);
                    }
                    lemma_digits_val_bound(f.subrange(0, fcount + 1));
                    lemma_pow10_mono((fcount + 1) as nat, 3);
                    assert(pow10(3) == 1000) by {
                        reveal_with_fuel(pow10, 4);
                    }
                }
                facc = facc * 10 + ((u - 48) as i64);
                fcount += 1;
            }
            j += 1;
        }
        proof {
            assert(all_digits(f));
            assert(int_part(t).len() + frac_part(t).len() > 0);
            assert(well_formed_unsigned(t));
        }
        if fcount == 0 {
            proof {
                assert(f.len() == 0);
                assert(f =~= Seq::<char>::empty());
                assert(frac_scaled(f) == 0);
            }
        } else if fcount == 1 {
            proof {
                assert(f.len() == 1);
                assert(f.subrange(0, 1) =~= f);
                assert(pow10(2) == 100) by {
                    reveal_with_fuel(pow10, 3);
                }
            }
            facc = facc * 100;
        } else if fcount == 2 {
            proof {
                assert(f.len() == 2);
                assert(f.subrange(0, 2) =~= f);
                assert(pow10(1) == 10) by {
                    reveal_with_fuel(pow10, 2);
                }
            }
            facc = facc * 10;
        }
        proof {
            if f.len() >= 3 {
                assert(fcount == 3);
                assert(facc == digits_val(f.subrange(0, 3)));
            }
            assert(facc == frac_scaled(f));
        }
    } else {
        proof {
            assert(frac_part(t) =~= Seq::<char>::empty());
            assert(frac_scaled(frac_part(t)) == 0) by {
                lemma_pow10_pos(3);
                reveal_with_fuel(pow10, 4);
            }
            assert(well_formed_unsigned(t));
        }
    }
    proof {
        lemma_magnitude_bound(t);
    }
    let m: i64 = acc * 1000 + facc;
    proof {
        assert(m as int == magnitude(t));
    }
    if neg {
        Some(-m)
    } else {
        Some(m)
    }
}

/// `pow10` turns addition of exponents into multiplication.
pub proof fn lemma_pow10_mul(a: nat, b: nat)
    ensures
        pow10(a) * pow10(b) == pow10(a + b),
    decreases b,
{
    if b == 0 {
    } else {
        lemma_pow10_mul(a, (b - 1) as nat);
        assert(pow10(a) * pow10(b) == pow10(a) * (10 * pow10((b - 1) as nat)));
        assert(pow10(a) * (10 * pow10((b - 1) as nat)) == 10 * (pow10(a) * pow10((b - 1) as nat)))
            by (nonlinear_arith);
        assert(pow10(a + b) == 10 * pow10((a + (b - 1) as nat) as nat));
    }
}

} // verus!
