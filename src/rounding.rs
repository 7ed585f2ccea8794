use vstd::prelude::*;
use vstd::arithmetic::div_mod::{lemma_basic_div, lemma_div_denominator, lemma_fundamental_div_mod_converse};

use vstd::string::StrSliceExecFns;

use crate::decimal::{is_numeral, lemma_pow10_bound, lemma_pow10_mono, lemma_pow10_pos, lemma_scan_prefix, pow10, scan, shift_of, sign_len, unsigned_part, Scan, MAX_SCALE};

verus! {

/// The largest magnitude that a time takes, in units of `10^-MAX_SCALE`.
pub open spec fn unit_bound() -> int {
    u64::MAX as int * pow10(MAX_SCALE as nat)
}

/// The power of ten by which the digits of a numeral, read as one integer,
/// are scaled to give its value in units of `10^-MAX_SCALE`.
pub open spec fn unit_shift(t: Scan) -> int {
    shift_of(t) + MAX_SCALE
}

/// The magnitude of a numeral in units of `10^-MAX_SCALE`, truncated toward zero.
pub open spec fn magnitude(t: Scan) -> int {
    let k = unit_shift(t);
    if k >= 0 {
        t.mant * pow10(k as nat)
    } else {
        t.mant / (pow10((-k) as nat) as int)
    }
}

/// The digits read so far are below ten to the number of digits.
proof fn lemma_mant_below(s: Seq<char>)
    ensures
        0 <= scan(s).mant < pow10(scan(s).digits),
    decreases s.len(),
{
    if s.len() > 0 {
        lemma_mant_below(s.drop_last());
    }
}

/// The digits read up to any point are those of the whole numeral with the
/// later digits dropped.
proof fn lemma_mant_prefix(s: Seq<char>, i: int)
    requires
        0 <= i <= s.len(),
    ensures
        scan(s.take(i)).digits <= scan(s).digits,
        scan(s).mant / (pow10((scan(s).digits - scan(s.take(i)).digits) as nat) as int) == scan(s.take(i)).mant,
    decreases s.len(),
{
    if i == s.len() {
        assert(s.take(i) =~= s);
        assert(pow10(0) == 1);
        assert(scan(s).mant / 1 == scan(s).mant);
    } else {
        let dl = s.drop_last();
        assert(dl.take(i) =~= s.take(i));
        lemma_mant_prefix(dl, i);
        lemma_mant_below(dl);
        let p = scan(dl);
        let j = (p.digits - scan(s.take(i)).digits) as nat;
        lemma_pow10_pos(j);
        if scan(s).digits == p.digits + 1 {
            let d = scan(s).mant - 10 * p.mant;
            assert(0 <= d < 10);
            lemma_fundamental_div_mod_converse(scan(s).mant, 10, p.mant, d);
            lemma_div_denominator(scan(s).mant, 10, pow10(j) as int);
            assert(pow10(j + 1) == 10 * pow10(j));
            assert((j + 1) as nat == (scan(s).digits - scan(s.take(i)).digits) as nat);
            assert(scan(s).mant / 10 == p.mant);
            assert(scan(s).mant / 10 / (pow10(j) as int) == scan(s.take(i)).mant);
            assert(scan(s).mant / ((10 * pow10(j)) as int) == scan(s.take(i)).mant);
            assert(pow10((scan(s).digits - scan(s.take(i)).digits) as nat) == 10 * pow10(j));
        } else {
            assert(scan(s).digits == p.digits);
            assert(scan(s).mant == p.mant);
        }
    }
}

/// `unit_bound()` as a machine integer.
pub const UNIT_BOUND: u128 = 18446744073709551615000000000000000000;

/// The value of a numeral in units of `10^-MAX_SCALE`, truncated toward zero
/// and held to at most `unit_bound()` in magnitude.
pub open spec fn units_of(w: Seq<char>) -> int {
    let t = scan(unsigned_part(w));
    let m = if magnitude(t) <= unit_bound() { magnitude(t) } else { unit_bound() };
    if sign_len(w) == 1 && w[0] == '-' {
        -m
    } else {
        m
    }
}

/// A numeral's value in units lies within `unit_bound()`.
pub proof fn lemma_units_of_bound(w: Seq<char>)
    ensures
        -unit_bound() <= units_of(w) <= unit_bound(),
{
    let t = scan(unsigned_part(w));
    lemma_mant_below(unsigned_part(w));
    let k = unit_shift(t);
    if k >= 0 {
        lemma_pow10_pos(k as nat);
        assert(t.mant * pow10(k as nat) >= 0) by (nonlinear_arith)
            requires t.mant >= 0, pow10(k as nat) >= 1;
    } else {
        lemma_pow10_pos((-k) as nat);
    }
}

proof fn lemma_bounds()
    ensures
        unit_bound() == UNIT_BOUND,
        pow10(38) > unit_bound(),
{
    lemma_pow10_bound(18);
    reveal_with_fuel(pow10, 39);
    assert(pow10(38) == 100000000000000000000000000000000000000int);
}

/// The value of a numeral in units of `10^-MAX_SCALE`, truncated toward zero
/// and held to at most `unit_bound()` in magnitude.
pub fn numeral_units(s: &str) -> (r: i128)
    requires
        is_numeral(s@),
    ensures
        r == units_of(s@),
{
    proof {
        lemma_bounds();
    }
    let len = s.unicode_len();
    let mut start: usize = 0;
    let mut negative = false;
    if len > 0 {
        let c = s.get_char(0);
        if c == '-' || c == '+' {
            start = 1;
            negative = c == '-';
        }
    }
    let ghost body = unsigned_part(s@);
    let ghost t = scan(body);
    assert(start == sign_len(s@));
    let cap: u128 = len as u128 + 60;
    let mut digits: usize = 0;
    let mut frac: usize = 0;
    let mut dot = false;
    let mut in_exp = false;
    let mut exp_neg = false;
    let mut exp: u128 = 0;
    let mut i: usize = start;
    assert(body.take(0) =~= Seq::<char>::empty());
    while i < len
        invariant
            start <= i <= len,
            len == s@.len(),
            start == sign_len(s@),
            body == s@.subrange(start as int, len as int),
            t == scan(body),
            t.ok,
            cap == len + 60,
            scan(body.take(i - start)).digits == digits,
            scan(body.take(i - start)).frac == frac,
            scan(body.take(i - start)).dot == dot,
            scan(body.take(i - start)).in_exp == in_exp,
            scan(body.take(i - start)).exp_neg == exp_neg,
            exp == (if scan(body.take(i - start)).exp <= cap { scan(body.take(i - start)).exp } else { cap as int }),
            scan(body.take(i - start)).exp >= 0,
            digits <= i,
            frac <= i,
        decreases len - i,
    {
        let ghost k = i - start;
        let c = s.get_char(i);
        assert(body.take(k + 1).drop_last() =~= body.take(k));
        assert(body.take(k + 1).last() == c);
        proof {
            lemma_scan_prefix(body, k + 1);
            lemma_scan_prefix(body.take(k + 1), k);
            assert(body.take(k + 1).take(k) =~= body.take(k));
        }
        let is_digit = '0' <= c && c <= '9';
        if !in_exp && is_digit {
            digits = digits + 1;
            if dot {
                frac = frac + 1;
            }
        } else if !in_exp && c == '.' {
            dot = true;
        } else if !in_exp {
            in_exp = true;
        } else if is_digit {
            let d: u128 = (c as u32 - '0' as u32) as u128;
            let next: u128 = exp * 10 + d;
            exp = if next <= cap { next } else { cap };
        } else {
            exp_neg = c == '-';
        }
        i = i + 1;
    }
    assert(body.take(len - start) =~= body);
    let e: i128 = if exp_neg { -(exp as i128) } else { exp as i128 };
    let k: i128 = e - frac as i128 + 18;
    let limit: usize = if k >= 0 {
        digits
    } else if digits as i128 + k >= 0 {
        (digits as i128 + k) as usize
    } else {
        0
    };
    let mut acc: u128 = 0;
    let mut cnt: usize = 0;
    let mut in_exp2 = false;
    i = start;
    while i < len && cnt < limit
        invariant
            start <= i <= len,
            len == s@.len(),
            body == s@.subrange(start as int, len as int),
            t == scan(body),
            limit <= t.digits,
            cnt <= limit,
            scan(body.take(i - start)).digits == cnt,
            scan(body.take(i - start)).in_exp == in_exp2,
            acc == (if scan(body.take(i - start)).mant <= unit_bound() { scan(body.take(i - start)).mant } else { unit_bound() }),
            UNIT_BOUND == unit_bound(),
        decreases len - i,
    {
        let ghost k2 = i - start;
        let c = s.get_char(i);
        assert(body.take(k2 + 1).drop_last() =~= body.take(k2));
        assert(body.take(k2 + 1).last() == c);
        proof {
            lemma_scan_prefix(body.take(k2 + 1), k2);
            assert(body.take(k2 + 1).take(k2) =~= body.take(k2));
        }
        let is_digit = '0' <= c && c <= '9';
        if !in_exp2 && is_digit {
            let d: u128 = (c as u32 - '0' as u32) as u128;
            let next: u128 = acc * 10 + d;
            acc = if next <= UNIT_BOUND { next } else { UNIT_BOUND };
            cnt = cnt + 1;
        } else if !in_exp2 && (c == 'e' || c == 'E') {
            in_exp2 = true;
        }
        i = i + 1;
    }
    proof {
        if i == len {
            assert(body.take(len - start) =~= body);
        }
        lemma_mant_prefix(body, i - start);
        lemma_mant_below(body);
        lemma_mant_below(body.take(i - start));
    }
    let ghost m_pref = scan(body.take(i - start)).mant;
    if k >= 0 {
        let mut j: i128 = 0;
        proof {
            assert(digits == t.digits);
            assert(cnt == t.digits);
            assert(pow10(0) == 1);
            assert(t.mant / 1 == t.mant);
            assert(m_pref == t.mant);
            assert(t.mant * pow10(0) == t.mant) by (nonlinear_arith)
                requires pow10(0) == 1;
        }
        while j < k
            invariant
                0 <= j <= k,
                UNIT_BOUND == unit_bound(),
                acc == (if t.mant * pow10(j as nat) <= unit_bound() { t.mant * pow10(j as nat) } else { unit_bound() }),
                t.mant >= 0,
            decreases k - j,
        {
            proof {
                assert(pow10((j + 1) as nat) == 10 * pow10(j as nat));
                assert(t.mant * pow10((j + 1) as nat) == 10 * (t.mant * pow10(j as nat))) by (nonlinear_arith)
                    requires pow10((j + 1) as nat) == 10 * pow10(j as nat);
            }
            let next: u128 = acc * 10;
            acc = if next <= UNIT_BOUND { next } else { UNIT_BOUND };
            j = j + 1;
        }
        proof {
            if t.exp > cap {
                assert(!t.exp_neg);
                lemma_pow10_mono(38, k as nat);
                lemma_pow10_mono(38, unit_shift(t) as nat);
                if t.mant > 0 {
                    assert(t.mant * pow10(k as nat) >= pow10(k as nat)) by (nonlinear_arith)
                        requires t.mant >= 1, pow10(k as nat) >= 0;
                    assert(t.mant * pow10(unit_shift(t) as nat) >= pow10(unit_shift(t) as nat)) by (nonlinear_arith)
                        requires t.mant >= 1, pow10(unit_shift(t) as nat) >= 0;
                } else {
                    assert(t.mant * pow10(k as nat) == 0) by (nonlinear_arith)
                        requires t.mant == 0;
                    assert(t.mant * pow10(unit_shift(t) as nat) == 0) by (nonlinear_arith)
                        requires t.mant == 0;
                }
            } else {
                assert(k == unit_shift(t));
            }
        }
    } else {
        proof {
            if digits as i128 + k >= 0 {
                assert(k == unit_shift(t));
                assert(cnt == limit);
            } else {
                assert(cnt == 0);
                assert(m_pref == 0);
                lemma_pow10_mono(t.digits, (-unit_shift(t)) as nat);
                lemma_basic_div(t.mant, pow10((-unit_shift(t)) as nat) as int);
            }
        }
    }
    if negative {
        -(acc as i128)
    } else {
        acc as i128
    }
}

} // verus!
