use vstd::prelude::*;
use vstd::string::StrSliceExecFns;

verus! {

/// Decimal places of the common fixed-point scale on which numerals are compared.
pub const MAX_SCALE: u32 = 18;

/// Ten to the power `n`.
pub open spec fn pow10(n: nat) -> nat
    decreases n,
{
    if n == 0 {
        1
    } else {
        10 * pow10((n - 1) as nat)
    }
}

pub open spec fn is_digit(c: char) -> bool {
    '0' <= c && c <= '9'
}

pub open spec fn digit_value(c: char) -> int {
    c as int - '0' as int
}

/// Largest magnitude of the exponent that a numeral may carry.
pub const MAX_EXPONENT: u32 = 1000;

pub open spec fn is_exp_mark(c: char) -> bool {
    c == 'e' || c == 'E'
}

/// What reading the unsigned part of a numeral from left to right has found.
/// Before the exponent mark: the digits as one integer (`mant`), how many of
/// them follow the point (`frac`), whether a point was seen and how many digits.
/// After it: whether a sign was seen and which, the exponent's digits as one
/// integer (`exp`) and how many. `ok` stays true while every character fits
/// that layout.
pub struct Scan {
    pub mant: int,
    pub frac: nat,
    pub dot: bool,
    pub digits: nat,
    pub in_exp: bool,
    pub exp_signed: bool,
    pub exp_neg: bool,
    pub exp: int,
    pub exp_digits: nat,
    pub ok: bool,
}

pub open spec fn scan_start() -> Scan {
    Scan {
        mant: 0,
        frac: 0,
        dot: false,
        digits: 0,
        in_exp: false,
        exp_signed: false,
        exp_neg: false,
        exp: 0,
        exp_digits: 0,
        ok: true,
    }
}

/// One more character.
pub open spec fn scan_char(p: Scan, c: char) -> Scan {
    if !p.in_exp {
        if is_digit(c) {
            Scan {
                mant: p.mant * 10 + digit_value(c),
                frac: if p.dot { p.frac + 1 } else { p.frac },
                digits: p.digits + 1,
                ..p
            }
        } else if c == '.' && !p.dot {
            Scan { dot: true, ..p }
        } else if is_exp_mark(c) {
            Scan { in_exp: true, ..p }
        } else {
            Scan { ok: false, ..p }
        }
    } else if is_digit(c) {
        Scan { exp: p.exp * 10 + digit_value(c), exp_digits: p.exp_digits + 1, ..p }
    } else if (c == '+' || c == '-') && !p.exp_signed && p.exp_digits == 0 {
        Scan { exp_signed: true, exp_neg: c == '-', ..p }
    } else {
        Scan { ok: false, ..p }
    }
}

pub open spec fn scan(s: Seq<char>) -> Scan
    decreases s.len(),
{
    if s.len() == 0 {
        scan_start()
    } else {
        scan_char(scan(s.drop_last()), s.last())
    }
}

/// Length of the optional leading sign of a numeral.
pub open spec fn sign_len(s: Seq<char>) -> int {
    if s.len() > 0 && (s[0] == '-' || s[0] == '+') {
        1
    } else {
        0
    }
}

/// The numeral without its sign.
pub open spec fn unsigned_part(s: Seq<char>) -> Seq<char> {
    s.subrange(sign_len(s), s.len() as int)
}

/// A numeral in decimal notation: an optional sign, then digits with at most
/// one decimal point among them, at least one digit in all, then optionally
/// `e` or `E`, an optional sign and at least one digit of exponent.
pub open spec fn is_numeral(s: Seq<char>) -> bool {
    let t = scan(unsigned_part(s));
    t.ok && t.digits > 0 && (t.in_exp ==> t.exp_digits > 0)
}

/// The power of ten that the numeral's digits, read as an integer, are scaled by.
pub open spec fn shift_of(t: Scan) -> int {
    (if t.exp_neg { -t.exp } else { t.exp }) - t.frac
}

/// The numeral's value is `m / 10^scale` with `m` in a `u64` and at most
/// `MAX_SCALE` decimal places, reached from digits that fit in a `u64` and an
/// exponent of magnitude at most `MAX_EXPONENT`.
pub open spec fn numeral_fits(s: Seq<char>) -> bool {
    let t = scan(unsigned_part(s));
    &&& t.mant <= u64::MAX
    &&& t.exp <= MAX_EXPONENT
    &&& shift_of(t) >= 0 ==> t.mant * pow10(shift_of(t) as nat) <= u64::MAX
    &&& shift_of(t) < 0 ==> -shift_of(t) <= MAX_SCALE
}

/// A real number written in decimal: `mantissa / 10^scale`, negated when `negative`.
#[derive(Debug, Clone, Copy, PartialEq, Eq, Structural)]
pub struct Decimal {
    pub negative: bool,
    pub mantissa: u64,
    pub scale: u32,
}

impl Decimal {
    pub open spec fn wf(self) -> bool {
        self.scale <= MAX_SCALE
    }

    /// The value in units of `10^-MAX_SCALE`, which is exact for every well-formed value.
    pub open spec fn units(self) -> int {
        let u = self.mantissa * pow10((MAX_SCALE - self.scale) as nat);
        if self.negative {
            -u
        } else {
            u
        }
    }

    /// The value that a numeral denotes.
    pub open spec fn of_numeral(s: Seq<char>) -> Decimal {
        let t = scan(unsigned_part(s));
        let k = shift_of(t);
        Decimal {
            negative: sign_len(s) == 1 && s[0] == '-',
            mantissa: (if k >= 0 { t.mant * pow10(k as nat) } else { t.mant }) as u64,
            scale: (if k >= 0 { 0 } else { -k }) as u32,
        }
    }

    /// The value in units of `10^-MAX_SCALE`.
    pub fn to_units(&self) -> (r: i128)
        requires
            self.wf(),
        ensures
            r == self.units(),
    {
        let mut p: u64 = 1;
        let mut i: u32 = self.scale;
        proof {
            lemma_pow10_bound((MAX_SCALE - self.scale) as nat);
        }
        while i < MAX_SCALE
            invariant
                self.scale <= i <= MAX_SCALE,
                p == pow10((i - self.scale) as nat),
                pow10((MAX_SCALE - self.scale) as nat) <= pow10(MAX_SCALE as nat),
            decreases MAX_SCALE - i,
        {
            proof {
                lemma_pow10_bound((i + 1 - self.scale) as nat);
                lemma_pow10_bound(MAX_SCALE as nat);
            }
            p = p * 10;
            i = i + 1;
        }
        proof {
            lemma_pow10_bound(MAX_SCALE as nat);
            assert(self.mantissa * p <= u64::MAX as int * 1_000_000_000_000_000_000int)
                by (nonlinear_arith)
                requires
                    self.mantissa <= u64::MAX,
                    p <= 1_000_000_000_000_000_000int,
                    0 <= p,
            ;
        }
        let u: i128 = self.mantissa as i128 * p as i128;
        if self.negative {
            -u
        } else {
            u
        }
    }
}

/// `pow10` grows with its argument and `pow10(MAX_SCALE)` is ten to the eighteenth.
pub proof fn lemma_pow10_bound(n: nat)
    ensures
        pow10(n) >= 1,
        n <= MAX_SCALE ==> pow10(n) <= pow10(MAX_SCALE as nat),
        pow10(MAX_SCALE as nat) == 1_000_000_000_000_000_000int,
    decreases n,
{
    reveal_with_fuel(pow10, 19);
    if n > 0 {
        lemma_pow10_bound((n - 1) as nat);
    }
    if n < MAX_SCALE {
        lemma_pow10_mono(n, MAX_SCALE as nat);
    }
}

pub proof fn lemma_pow10_mono(a: nat, b: nat)
    requires
        a <= b,
    ensures
        pow10(a) <= pow10(b),
    decreases b - a,
{
    if a < b {
        lemma_pow10_mono(a, (b - 1) as nat);
        lemma_pow10_pos((b - 1) as nat);
    }
}

pub proof fn lemma_pow10_pos(n: nat)
    ensures
        pow10(n) >= 1,
    decreases n,
{
    if n > 0 {
        lemma_pow10_pos((n - 1) as nat);
    }
}

/// Reading a longer text never lowers the digits' value or the exponent's,
/// and never takes back a rejection.
pub proof fn lemma_scan_prefix(s: Seq<char>, j: int)
    requires
        0 <= j <= s.len(),
    ensures
        scan(s).mant >= 0,
        scan(s).exp >= 0,
        scan(s.take(j)).mant <= scan(s).mant,
        scan(s.take(j)).exp <= scan(s).exp,
        !scan(s.take(j)).ok ==> !scan(s).ok,
    decreases s.len(),
{
    if s.len() > 0 {
        lemma_scan_prefix(s.drop_last(), if j < s.len() { j } else { 0 });
        if j < s.len() {
            assert(s.drop_last().take(j) =~= s.take(j));
        }
    }
    if j == s.len() {
        assert(s.take(j) =~= s);
    }
}

/// Reads a numeral in decimal notation (`-12.5`, `+3`, `.25`, `7.`, `1.5e-3`).
/// Gives `None` for any other text, and for a numeral whose value or digits do
/// not fit a `Decimal` as `numeral_fits` says.
pub fn parse_decimal(s: &str) -> (r: Option<Decimal>)
    ensures
        r is Some <==> is_numeral(s@) && numeral_fits(s@),
        r matches Some(d) ==> d == Decimal::of_numeral(s@) && d.wf(),
{
    let len = s.unicode_len();
    let mut start: usize = 0;
    let mut negative = false;
    if len > 0 {
        let c = s.get_char(0);
        if c == '-' || c == '+' {
            start = 1;
            negative = c == '-';
        }
    }
    let ghost body = unsigned_part(s@);
    assert(start == sign_len(s@));
    let mut mant: u64 = 0;
    let mut frac: usize = 0;
    let mut dot = false;
    let mut any_digit = false;
    let mut in_exp = false;
    let mut exp_signed = false;
    let mut exp_neg = false;
    let mut exp: u32 = 0;
    let mut any_exp_digit = false;
    let mut i: usize = start;
    assert(body.take(0) =~= Seq::<char>::empty());
    while i < len
        invariant
            start <= i <= len,
            len == s@.len(),
            start == sign_len(s@),
            body == s@.subrange(start as int, len as int),
            scan(body.take(i - start)).ok,
            scan(body.take(i - start)).mant == mant,
            scan(body.take(i - start)).frac == frac,
            scan(body.take(i - start)).dot == dot,
            (scan(body.take(i - start)).digits > 0) == any_digit,
            scan(body.take(i - start)).in_exp == in_exp,
            scan(body.take(i - start)).exp_signed == exp_signed,
            scan(body.take(i - start)).exp_neg == exp_neg,
            scan(body.take(i - start)).exp == exp,
            (scan(body.take(i - start)).exp_digits > 0) == any_exp_digit,
            frac <= i,
            exp <= MAX_EXPONENT,
        decreases len - i,
    {
        let ghost k = i - start;
        let c = s.get_char(i);
        assert(body.take(k + 1).drop_last() =~= body.take(k));
        assert(body.take(k + 1).last() == c);
        let is_digit = '0' <= c && c <= '9';
        if !in_exp && is_digit {
            let d: u64 = (c as u32 - '0' as u32) as u64;
            let next: u128 = mant as u128 * 10 + d as u128;
            if next > u64::MAX as u128 {
                proof {
                    lemma_scan_prefix(body, k + 1);
                }
                return None;
            }
            if dot {
                frac = frac + 1;
            }
            mant = next as u64;
            any_digit = true;
        } else if !in_exp && c == '.' && !dot {
            dot = true;
        } else if !in_exp && (c == 'e' || c == 'E') {
            in_exp = true;
        } else if in_exp && is_digit {
            let d: u32 = c as u32 - '0' as u32;
            let next: u32 = exp * 10 + d;
            if next > MAX_EXPONENT {
                proof {
                    lemma_scan_prefix(body, k + 1);
                }
                return None;
            }
            exp = next;
            any_exp_digit = true;
        } else if in_exp && (c == '+' || c == '-') && !exp_signed && !any_exp_digit {
            exp_signed = true;
            exp_neg = c == '-';
        } else {
            proof {
                lemma_scan_prefix(body, k + 1);
            }
            return None;
        }
        i = i + 1;
    }
    assert(body.take(len - start) =~= body);
    let ghost t = scan(body);
    if !any_digit || (in_exp && !any_exp_digit) {
        return None;
    }
    let e: i128 = if exp_neg {
        -(exp as i128)
    } else {
        exp as i128
    };
    let shift: i128 = e - frac as i128;
    assert(shift == shift_of(t));
    if shift < 0 {
        if shift < -(MAX_SCALE as i128) {
            return None;
        }
        return Some(Decimal { negative, mantissa: mant, scale: (-shift) as u32 });
    }
    let mut m: u64 = mant;
    let mut j: i128 = 0;
    assert(pow10(0) == 1);
    assert(m == t.mant * pow10(j as nat)) by (nonlinear_arith)
        requires
            pow10(j as nat) == 1,
            m == t.mant,
    ;
    while j < shift
        invariant
            0 <= j <= shift,
            t == scan(unsigned_part(s@)),
            shift == shift_of(t),
            mant == t.mant,
            t.mant >= 0,
            m == t.mant * pow10(j as nat),
        decreases shift - j,
    {
        let next: u128 = m as u128 * 10;
        proof {
            assert(pow10((j + 1) as nat) == 10 * pow10(j as nat));
            assert(t.mant * pow10((j + 1) as nat) == m * 10) by (nonlinear_arith)
                requires
                    m == t.mant * pow10(j as nat),
                    pow10((j + 1) as nat) == 10 * pow10(j as nat),
            ;
            lemma_pow10_mono((j + 1) as nat, shift as nat);
            assert(t.mant * pow10(shift as nat) >= t.mant * pow10((j + 1) as nat)) by (nonlinear_arith)
                requires
                    pow10(shift as nat) >= pow10((j + 1) as nat),
                    t.mant >= 0,
            ;
        }
        if next > u64::MAX as u128 {
            assert(t.mant * pow10(shift_of(t) as nat) > u64::MAX);
            return None;
        }
        m = next as u64;
        j = j + 1;
    }
    Some(Decimal { negative, mantissa: m, scale: 0 })
}

/// Whether the text is a numeral, of any size.
pub fn is_numeral_text(s: &str) -> (r: bool)
    ensures
        r == is_numeral(s@),
{
    let len = s.unicode_len();
    let mut start: usize = 0;
    if len > 0 {
        let c = s.get_char(0);
        if c == '-' || c == '+' {
            start = 1;
        }
    }
    let ghost body = unsigned_part(s@);
    assert(start == sign_len(s@));
    let mut dot = false;
    let mut any_digit = false;
    let mut in_exp = false;
    let mut exp_signed = false;
    let mut any_exp_digit = false;
    let mut i: usize = start;
    assert(body.take(0) =~= Seq::<char>::empty());
    while i < len
        invariant
            start <= i <= len,
            len == s@.len(),
            start == sign_len(s@),
            body == s@.subrange(start as int, len as int),
            scan(body.take(i - start)).ok,
            scan(body.take(i - start)).dot == dot,
            (scan(body.take(i - start)).digits > 0) == any_digit,
            scan(body.take(i - start)).in_exp == in_exp,
            scan(body.take(i - start)).exp_signed == exp_signed,
            (scan(body.take(i - start)).exp_digits > 0) == any_exp_digit,
        decreases len - i,
    {
        let ghost k = i - start;
        let c = s.get_char(i);
        assert(body.take(k + 1).drop_last() =~= body.take(k));
        assert(body.take(k + 1).last() == c);
        let is_digit = '0' <= c && c <= '9';
        if !in_exp && is_digit {
            any_digit = true;
        } else if !in_exp && c == '.' && !dot {
            dot = true;
        } else if !in_exp && (c == 'e' || c == 'E') {
            in_exp = true;
        } else if in_exp && is_digit {
            any_exp_digit = true;
        } else if in_exp && (c == '+' || c == '-') && !exp_signed && !any_exp_digit {
            exp_signed = true;
        } else {
            proof {
                lemma_scan_prefix(body, k + 1);
            }
            return false;
        }
        i = i + 1;
    }
    assert(body.take(len - start) =~= body);
    any_digit && (!in_exp || any_exp_digit)
}

} // verus!
