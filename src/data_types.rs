//! Core data types: token amounts, block heights, rounds and timestamps.

use vstd::prelude::*;
use vstd::string::*;
use crate::text::{decimal, decimal_chars, push_chars, push_range, push_repeated, push_str, repeat, string_from_chars};

verus! {

/// The largest `u128`.
pub const U128_MAX: u128 = 0xffff_ffff_ffff_ffff_ffff_ffff_ffff_ffff;

/// The largest `u64`.
pub const U64_MAX: u64 = 0xffff_ffff_ffff_ffff;

/// An error type for arithmetic errors.
#[derive(Debug, Clone, Copy, PartialEq, Eq, Structural)]
pub enum ArithmeticError {
    Overflow,
    Underflow,
}

impl ArithmeticError {
    /// The human-readable message of the error.
    pub fn message(&self) -> (r: &'static str)
        ensures
            *self == ArithmeticError::Overflow ==> r@ == "Number overflow"@,
            *self == ArithmeticError::Underflow ==> r@ == "Number underflow"@,
    {
        proof {
            reveal_strlit("Number overflow");
            reveal_strlit("Number underflow");
        }
        match self {
            ArithmeticError::Overflow => "Number overflow",
            ArithmeticError::Underflow => "Number underflow",
        }
    }
}

/// Saturating product of two naturals, capped at `max`.
pub open spec fn sat_mul(a: int, b: int, max: int) -> int {
    if a * b > max { max } else { a * b }
}


/// Ten to the power `n`.
pub open spec fn pow10(n: nat) -> nat
    decreases n,
{
    if n == 0 { 1 } else { 10 * pow10((n - 1) as nat) }
}

/// Computes ten to the power `n`.
pub fn pow10_u128(n: u32) -> (r: u128)
    requires
        n <= 38,
    ensures
        r == pow10(n as nat),
{
    let mut r: u128 = 1;
    let mut i: u32 = 0;
    proof { lemma_pow10_mono(0, 38); }
    while i < n
        invariant
            i <= n <= 38,
            r == pow10(i as nat),
            pow10(i as nat) <= pow10(38),
        decreases n - i,
    {
        proof { lemma_pow10_mono((i + 1) as nat, 38); }
        r = r * 10;
        i = i + 1;
    }
    r
}

/// Powers of ten grow with the exponent.
pub proof fn lemma_pow10_mono(a: nat, b: nat)
    requires
        a <= b,
    ensures
        pow10(a) <= pow10(b),
        pow10(38) < U128_MAX,
    decreases b - a,
{
    reveal_with_fuel(pow10, 40);
    assert(pow10(38) == 100000000000000000000000000000000000000);
    if a < b {
        lemma_pow10_mono(a, (b - 1) as nat);
    }
}

/// The number of decimal places of an `Amount`.
pub const DECIMAL_PLACES: u8 = 18;

/// The attotokens in one token.
pub const ONE_TOKEN: u128 = 1_000_000_000_000_000_000;

/// Horizontal alignment of padded text.
#[derive(Debug, Clone, Copy, PartialEq, Eq, Structural)]
pub enum Alignment {
    Left,
    Right,
    Center,
}

/// Formatting options: the width, precision, fill, alignment and sign flag of a format string.
#[derive(Debug, Clone, Copy, PartialEq, Eq, Structural)]
pub struct FormatSpec {
    pub width: Option<usize>,
    pub precision: Option<usize>,
    pub fill: char,
    pub align: Option<Alignment>,
    pub sign_plus: bool,
}

/// No width, no precision, no sign: the plain notation.
pub open spec fn plain_format() -> FormatSpec {
    FormatSpec { width: None, precision: None, fill: ' ', align: None, sign_plus: false }
}

impl FormatSpec {
    /// No width, no precision, no sign: the plain notation.
    pub fn plain() -> (r: FormatSpec)
        ensures
            r == plain_format(),
    {
        FormatSpec { width: None, precision: None, fill: ' ', align: None, sign_plus: false }
    }
}

/// The attotokens written with at least 19 digits, padding with leading zeros.
pub open spec fn padded_digits(v: u128) -> Seq<char> {
    let d = decimal(v as nat);
    if d.len() >= 19 { d } else { repeat('0', (19 - d.len()) as nat) + d }
}

/// `s` without its trailing zeros.
pub open spec fn trim_zeros(s: Seq<char>) -> Seq<char>
    decreases s.len(),
{
    if s.len() > 0 && s.last() == '0' { trim_zeros(s.drop_last()) } else { s }
}

/// The digits before the point.
pub open spec fn integer_digits(v: u128) -> Seq<char> {
    padded_digits(v).take(padded_digits(v).len() - 18)
}

/// The digits after the point, without trailing zeros.
pub open spec fn fraction_digits(v: u128) -> Seq<char> {
    trim_zeros(padded_digits(v).skip(padded_digits(v).len() - 18))
}

/// The larger of two integers.
pub open spec fn max_int(a: int, b: int) -> int {
    if a >= b { a } else { b }
}

/// The text of the amount `v` (in attotokens) under the options `f`: the integer part, a point,
/// the fraction without trailing zeros but extended with zeros to the precision, and the fill
/// around it up to the width.
pub open spec fn amount_text(v: u128, f: FormatSpec) -> Seq<char> {
    let ip = integer_digits(v);
    let fp = fraction_digits(v);
    let precision = max_int(if f.precision is Some { f.precision->0 as int } else { 0 }, fp.len() as int);
    let sign: Seq<char> = if f.sign_plus && v > 0 { seq!['+'] } else { seq![] };
    let pad = if f.width is Some { max_int(0, f.width->0 - precision - (sign.len() + ip.len() + 1)) } else { 0 };
    let left = if f.align == Some(Alignment::Center) { pad / 2 } else if f.align == Some(Alignment::Left) { 0 } else { pad };
    repeat(f.fill, left as nat) + sign + ip + seq!['.'] + fp + repeat('0', (precision - fp.len()) as nat)
        + repeat(f.fill, (pad - left) as nat)
}

proof fn lemma_decimal_len(n: nat)
    ensures
        decimal(n).len() >= 1,
        decimal(n).len() <= 39 || n >= pow10(39),
    decreases n,
{
    if n >= 10 {
        lemma_decimal_len(n / 10);
        if decimal(n / 10).len() > 38 {
            lemma_decimal_len_lower(n / 10);
            assert(pow10(39) == 10 * pow10(38));
        }
    }
}

proof fn lemma_decimal_len_lower(n: nat)
    ensures
        decimal(n).len() >= 2 ==> n >= pow10((decimal(n).len() - 1) as nat),
    decreases n,
{
    if n >= 10 {
        lemma_decimal_len_lower(n / 10);
        assert(decimal(n).len() == decimal(n / 10).len() + 1);
        lemma_decimal_len(n / 10);
        assert(pow10((decimal(n).len() - 1) as nat) == 10 * pow10((decimal(n / 10).len() - 1) as nat));
        assert(n >= 10 * (n / 10));
        if decimal(n / 10).len() == 1 {
            assert(pow10(1) == 10) by {
                reveal_with_fuel(pow10, 2);
            }
        }
    }
}

/// The attotokens written with at least 19 digits.
fn padded_digit_chars(v: u128) -> (r: Vec<char>)
    ensures
        r@ == padded_digits(v),
        19 <= r.len() <= 39,
{
    let digits = decimal_chars(v);
    proof {
        lemma_decimal_len(v as nat);
        if v as nat >= pow10(39) {
            reveal_with_fuel(pow10, 41);
            assert(pow10(39) == 1000000000000000000000000000000000000000);
        }
    }
    let mut padded: Vec<char> = Vec::new();
    if digits.len() < 19 {
        push_repeated(&mut padded, '0', 19 - digits.len());
    }
    push_chars(&mut padded, &digits);
    assert(padded@ =~= padded_digits(v));
    padded
}

/// Keeps `v[..e]` and drops the zeros before `e` down to `lo`.
fn trailing_zero_end(v: &Vec<char>, lo: usize) -> (e: usize)
    requires
        lo <= v.len(),
    ensures
        lo <= e <= v.len(),
        v@.subrange(lo as int, e as int) == trim_zeros(v@.subrange(lo as int, v.len() as int)),
{
    let mut e: usize = v.len();
    while e > lo && v[e - 1] == '0'
        invariant
            lo <= e <= v.len(),
            trim_zeros(v@.subrange(lo as int, e as int)) == trim_zeros(v@.subrange(lo as int, v.len() as int)),
        decreases e,
    {
        assert(v@.subrange(lo as int, e as int).drop_last() =~= v@.subrange(lo as int, e - 1));
        e = e - 1;
    }
    e
}

/// A non-negative amount of tokens: a fixed-point fraction with `DECIMAL_PLACES` digits
/// after the point, counted in attotokens.
#[derive(Debug, Clone, Copy, PartialEq, Eq, Structural, PartialOrd, Ord, Hash, Default)]
pub struct Amount(pub u128);

impl Amount {
    /// The zero value.
    pub fn zero() -> (r: Amount)
        ensures
            r.0 == 0,
    {
        Amount(0)
    }

    /// The maximum value.
    pub fn max_value() -> (r: Amount)
        ensures
            r.0 == U128_MAX,
    {
        Amount(U128_MAX)
    }

    /// Checked addition.
    pub fn try_add(self, other: Amount) -> (r: Result<Amount, ArithmeticError>)
        ensures
            self.0 + other.0 <= U128_MAX ==> r == Ok::<Amount, ArithmeticError>(Amount((self.0 + other.0) as u128)),
            self.0 + other.0 > U128_MAX ==> r == Err::<Amount, ArithmeticError>(ArithmeticError::Overflow),
    {
        match self.0.checked_add(other.0) {
            Some(v) => Ok(Amount(v)),
            None => Err(ArithmeticError::Overflow),
        }
    }

    /// Checked increment.
    pub fn try_add_one(self) -> (r: Result<Amount, ArithmeticError>)
        ensures
            self.0 < U128_MAX ==> r == Ok::<Amount, ArithmeticError>(Amount((self.0 + 1) as u128)),
            self.0 == U128_MAX ==> r == Err::<Amount, ArithmeticError>(ArithmeticError::Overflow),
    {
        match self.0.checked_add(1) {
            Some(v) => Ok(Amount(v)),
            None => Err(ArithmeticError::Overflow),
        }
    }

    /// Saturating addition.
    pub fn saturating_add(self, other: Amount) -> (r: Amount)
        ensures
            r.0 == if self.0 + other.0 > U128_MAX { U128_MAX as int } else { self.0 + other.0 },
    {
        Amount(self.0.saturating_add(other.0))
    }

    /// Checked subtraction.
    pub fn try_sub(self, other: Amount) -> (r: Result<Amount, ArithmeticError>)
        ensures
            other.0 <= self.0 ==> r == Ok::<Amount, ArithmeticError>(Amount((self.0 - other.0) as u128)),
            other.0 > self.0 ==> r == Err::<Amount, ArithmeticError>(ArithmeticError::Underflow),
    {
        match self.0.checked_sub(other.0) {
            Some(v) => Ok(Amount(v)),
            None => Err(ArithmeticError::Underflow),
        }
    }

    /// Checked decrement.
    pub fn try_sub_one(self) -> (r: Result<Amount, ArithmeticError>)
        ensures
            self.0 > 0 ==> r == Ok::<Amount, ArithmeticError>(Amount((self.0 - 1) as u128)),
            self.0 == 0 ==> r == Err::<Amount, ArithmeticError>(ArithmeticError::Underflow),
    {
        match self.0.checked_sub(1) {
            Some(v) => Ok(Amount(v)),
            None => Err(ArithmeticError::Underflow),
        }
    }

    /// Saturating subtraction.
    pub fn saturating_sub(self, other: Amount) -> (r: Amount)
        ensures
            r.0 == if other.0 > self.0 { 0 } else { self.0 - other.0 },
    {
        Amount(self.0.saturating_sub(other.0))
    }

    /// Checked in-place addition; the value is unchanged on overflow.
    pub fn try_add_assign(&mut self, other: Amount) -> (r: Result<(), ArithmeticError>)
        ensures
            old(self).0 + other.0 <= U128_MAX ==> r is Ok && final(self).0 == old(self).0 + other.0,
            old(self).0 + other.0 > U128_MAX ==> r == Err::<(), ArithmeticError>(ArithmeticError::Overflow) && *final(self) == *old(self),
    {
        match self.0.checked_add(other.0) {
            Some(v) => {
                self.0 = v;
                Ok(())
            },
            None => Err(ArithmeticError::Overflow),
        }
    }

    /// Checked in-place increment; the value is unchanged on overflow.
    pub fn try_add_assign_one(&mut self) -> (r: Result<(), ArithmeticError>)
        ensures
            old(self).0 < U128_MAX ==> r is Ok && final(self).0 == old(self).0 + 1,
            old(self).0 == U128_MAX ==> r == Err::<(), ArithmeticError>(ArithmeticError::Overflow) && *final(self) == *old(self),
    {
        match self.0.checked_add(1) {
            Some(v) => {
                self.0 = v;
                Ok(())
            },
            None => Err(ArithmeticError::Overflow),
        }
    }

    /// Saturating in-place addition.
    pub fn saturating_add_assign(&mut self, other: Amount)
        ensures
            final(self).0 == if old(self).0 + other.0 > U128_MAX { U128_MAX as int } else { old(self).0 + other.0 },
    {
        self.0 = self.0.saturating_add(other.0);
    }

    /// Checked in-place subtraction; the value is unchanged on underflow.
    pub fn try_sub_assign(&mut self, other: Amount) -> (r: Result<(), ArithmeticError>)
        ensures
            other.0 <= old(self).0 ==> r is Ok && final(self).0 == old(self).0 - other.0,
            other.0 > old(self).0 ==> r == Err::<(), ArithmeticError>(ArithmeticError::Underflow) && *final(self) == *old(self),
    {
        match self.0.checked_sub(other.0) {
            Some(v) => {
                self.0 = v;
                Ok(())
            },
            None => Err(ArithmeticError::Underflow),
        }
    }

    /// Saturating multiplication.
    pub fn saturating_mul(&self, other: u128) -> (r: Amount)
        ensures
            r.0 == sat_mul(self.0 as int, other as int, U128_MAX as int),
    {
        match self.0.checked_mul(other) {
            Some(v) => Amount(v),
            None => Amount(U128_MAX),
        }
    }

    /// Checked multiplication.
    pub fn try_mul(self, other: u128) -> (r: Result<Amount, ArithmeticError>)
        ensures
            self.0 * other <= U128_MAX ==> r == Ok::<Amount, ArithmeticError>(Amount((self.0 * other) as u128)),
            self.0 * other > U128_MAX ==> r == Err::<Amount, ArithmeticError>(ArithmeticError::Overflow),
    {
        match self.0.checked_mul(other) {
            Some(v) => Ok(Amount(v)),
            None => Err(ArithmeticError::Overflow),
        }
    }

    /// Checked in-place multiplication; the value is unchanged on overflow.
    pub fn try_mul_assign(&mut self, other: u128) -> (r: Result<(), ArithmeticError>)
        ensures
            old(self).0 * other <= U128_MAX ==> r is Ok && final(self).0 == old(self).0 * other,
            old(self).0 * other > U128_MAX ==> r == Err::<(), ArithmeticError>(ArithmeticError::Overflow) && *final(self) == *old(self),
    {
        match self.0.checked_mul(other) {
            Some(v) => {
                self.0 = v;
                Ok(())
            },
            None => Err(ArithmeticError::Overflow),
        }
    }
}

impl From<Amount> for u128 {
    fn from(value: Amount) -> (r: u128)
        ensures
            r == value.0,
    {
        value.0
    }
}

impl vstd::std_specs::convert::FromSpecImpl<Amount> for u128 {
    open spec fn obeys_from_spec() -> bool {
        true
    }

    open spec fn from_spec(v: Amount) -> u128 {
        v.0
    }
}

impl Amount {
    /// One token.
    pub fn one() -> (r: Amount)
        ensures
            r.0 == ONE_TOKEN,
    {
        Amount(ONE_TOKEN)
    }

    /// That many tokens, or the maximum if saturated.
    pub fn from_tokens(tokens: u128) -> (r: Amount)
        ensures
            r.0 == sat_mul(ONE_TOKEN as int, tokens as int, U128_MAX as int),
    {
        Amount::one().saturating_mul(tokens)
    }

    /// That many millitokens, or the maximum if saturated.
    pub fn from_millis(millitokens: u128) -> (r: Amount)
        ensures
            r.0 == sat_mul(1_000_000_000_000_000, millitokens as int, U128_MAX as int),
    {
        Amount(1_000_000_000_000_000).saturating_mul(millitokens)
    }

    /// That many microtokens, or the maximum if saturated.
    pub fn from_micros(microtokens: u128) -> (r: Amount)
        ensures
            r.0 == sat_mul(1_000_000_000_000, microtokens as int, U128_MAX as int),
    {
        Amount(1_000_000_000_000).saturating_mul(microtokens)
    }

    /// That many nanotokens, or the maximum if saturated.
    pub fn from_nanos(nanotokens: u128) -> (r: Amount)
        ensures
            r.0 == sat_mul(1_000_000_000, nanotokens as int, U128_MAX as int),
    {
        Amount(1_000_000_000).saturating_mul(nanotokens)
    }

    /// That many attotokens.
    pub fn from_attos(attotokens: u128) -> (r: Amount)
        ensures
            r.0 == attotokens,
    {
        Amount(attotokens)
    }

    /// The 64 most significant bits.
    pub fn upper_half(self) -> (r: u64)
        ensures
            r == self.0 / 0x1_0000_0000_0000_0000,
    {
        (self.0 / 0x1_0000_0000_0000_0000) as u64
    }

    /// The 64 least significant bits.
    pub fn lower_half(self) -> (r: u64)
        ensures
            r == self.0 % 0x1_0000_0000_0000_0000,
    {
        (self.0 % 0x1_0000_0000_0000_0000) as u64
    }

    /// Divides this by the other amount; `u128::MAX` where the other is zero.
    pub fn saturating_div(self, other: Amount) -> (r: u128)
        ensures
            other.0 == 0 ==> r == U128_MAX,
            other.0 != 0 ==> r == self.0 / other.0,
    {
        match self.0.checked_div(other.0) {
            Some(q) => q,
            None => U128_MAX,
        }
    }

    /// The sum of the amounts, saturating at the maximum.
    pub fn sum(amounts: &Vec<Amount>) -> (r: Amount)
        ensures
            r.0 == saturating_sum(amounts@),
    {
        let mut acc = Amount::zero();
        let mut i: usize = 0;
        while i < amounts.len()
            invariant
                i <= amounts.len(),
                acc.0 == saturating_sum(amounts@.take(i as int)),
            decreases amounts.len() - i,
        {
            assert(amounts@.take(i + 1).drop_last() =~= amounts@.take(i as int));
            acc = acc.saturating_add(amounts[i]);
            i = i + 1;
        }
        assert(amounts@.take(amounts.len() as int) =~= amounts@);
        acc
    }

    /// The text of the amount under the formatting options `f`.
    #[verifier::rlimit(50)]
    pub fn format(&self, f: &FormatSpec) -> (r: String)
        ensures
            r@ == amount_text(self.0, *f),
    {
        let padded = padded_digit_chars(self.0);
        let split = padded.len() - 18;
        let end = trailing_zero_end(&padded, split);
        let fraction_len = end - split;
        let integer_len = split;
        let precision: usize = match f.precision {
            Some(p) => if p >= fraction_len { p } else { fraction_len },
            None => fraction_len,
        };
        let sign_len: usize = if f.sign_plus && self.0 > 0 { 1 } else { 0 };
        let pad_width: usize = match f.width {
            Some(w) => w.saturating_sub(precision).saturating_sub(sign_len + integer_len + 1),
            None => 0,
        };
        let left_pad: usize = match f.align {
            Some(Alignment::Center) => pad_width / 2,
            Some(Alignment::Left) => 0,
            _ => pad_width,
        };
        let mut out: Vec<char> = Vec::new();
        push_repeated(&mut out, f.fill, left_pad);
        if sign_len == 1 {
            out.push('+');
        }
        push_range(&mut out, &padded, 0, split);
        out.push('.');
        push_range(&mut out, &padded, split, end);
        push_repeated(&mut out, '0', precision - fraction_len);
        push_repeated(&mut out, f.fill, pad_width - left_pad);
        proof {
            let ip = integer_digits(self.0);
            let fp = fraction_digits(self.0);
            assert(padded@.subrange(0, split as int) =~= ip);
            assert(padded@.subrange(split as int, padded.len() as int) =~= padded_digits(self.0).skip(padded_digits(self.0).len() - 18));
            let sign: Seq<char> = if f.sign_plus && self.0 > 0 { seq!['+'] } else { seq![] };
            assert(out@ =~= repeat(f.fill, left_pad as nat) + sign + ip + seq!['.'] + fp
                + repeat('0', (precision - fraction_len) as nat) + repeat(f.fill, (pad_width - left_pad) as nat));
        }
        string_from_chars(&out)
    }

    /// Reads an amount from text that has already been trimmed; see `amount_of_text`.
    pub fn parse_trimmed(t: &str) -> (r: Result<Amount, ParseAmountError>)
        ensures
            r == amount_of_text(t@),
    {
        let n = t.unicode_len();
        let mut i: usize = 0;
        if n > 0 && t.get_char(0) == '+' {
            i = 1;
        }
        let ghost body = unsigned_part(t@);
        let ghost start = i;
        assert(body =~= t@.skip(start as int));
        let mut value: u128 = 0;
        let mut decimals: Option<u8> = None;
        while i < n
            invariant
                start <= i <= n,
                n == t@.len(),
                body == t@.skip(start as int),
                body == unsigned_part(t@),
                scan(body.take(i - start)) == (Scan::Reading {
                    value: value as nat,
                    decimals: if decimals is Some { Some(decimals->0 as nat) } else { None },
                }),
                decimals is Some ==> decimals->0 <= 18,
            decreases n - i,
        {
            let c = t.get_char(i);
            assert(body.take(i + 1 - start).drop_last() =~= body.take(i - start));
            assert(body.take(i + 1 - start).last() == c);
            assert(scan(body.take(i + 1 - start)) == scan_step(scan(body.take(i - start)), c));
            if c == '.' {
                if decimals.is_some() {
                    proof {
                        assert(scan(body.take(i + 1 - start)) == (Scan::Failed { error: ParseAmountError::Parse }));
                        lemma_scan_failed_stays(body, (i + 1 - start) as nat);
                        lemma_failed_text(t@);
                    }
                    return Err(ParseAmountError::Parse);
                }
                decimals = Some(18);
            } else if c != '_' {
                if !('0' <= c && c <= '9') {
                    proof {
                        assert(!is_digit(c));
                        assert(scan(body.take(i + 1 - start)) == (Scan::Failed { error: ParseAmountError::Parse }));
                        lemma_scan_failed_stays(body, (i + 1 - start) as nat);
                        lemma_failed_text(t@);
                    }
                    return Err(ParseAmountError::Parse);
                }
                let digit: u128 = (c as u32 - '0' as u32) as u128;
                assert(digit == digit_value(c));
                let ghost old_decimals = decimals;
                match decimals {
                    Some(d) => {
                        if d == 0 {
                            proof {
                                lemma_scan_failed_stays(body, (i + 1 - start) as nat);
                                lemma_failed_text(t@);
                            }
                            return Err(ParseAmountError::TooManyDigits);
                        }
                        decimals = Some(d - 1);
                    },
                    None => {},
                }
                if value > (U128_MAX - digit) / 10 {
                    proof {
                        let q = (U128_MAX - digit) / 10;
                        assert(value * 10 + digit > U128_MAX) by (nonlinear_arith)
                            requires value > q, q == (U128_MAX - digit) / 10, digit < 10;
                        assert(old_decimals != Some(0u8));
                        assert(scan(body.take(i + 1 - start)) == (Scan::Failed { error: ParseAmountError::TooHigh }));
                        lemma_scan_failed_stays(body, (i + 1 - start) as nat);
                        lemma_failed_text(t@);
                    }
                    return Err(ParseAmountError::TooHigh);
                }
                value = value * 10 + digit;
            }
            i = i + 1;
        }
        assert(body.take(n - start) =~= body);
        let exp: u32 = match decimals {
            Some(d) => d as u32,
            None => 18,
        };
        let scale = pow10_u128(exp);
        match value.checked_mul(scale) {
            Some(v) => Ok(Amount(v)),
            None => Err(ParseAmountError::TooHigh),
        }
    }

    /// Reads an amount from text such as `"1_000.25"`; see `amount_of_text`.
    pub fn from_str(src: &str) -> (r: Result<Amount, ParseAmountError>)
        ensures
            r == amount_of_text(trimmed(src@)),
    {
        let t = trim_text(src);
        Amount::parse_trimmed(t.as_str())
    }

    /// The plain text of the amount: the integer part, a point and the fraction without
    /// trailing zeros.
    pub fn to_string(&self) -> (r: String)
        ensures
            r@ == amount_text(self.0, plain_format()),
    {
        self.format(&FormatSpec::plain())
    }
}

/// The sum of the values, saturating at the maximum at each step.
pub open spec fn saturating_sum(s: Seq<Amount>) -> int
    decreases s.len(),
{
    if s.len() == 0 {
        0
    } else {
        let prev = saturating_sum(s.drop_last());
        if prev + s.last().0 > U128_MAX { U128_MAX as int } else { prev + s.last().0 }
    }
}

/// An error in the text of an amount.
#[derive(Debug, Clone, Copy, PartialEq, Eq, Structural)]
pub enum ParseAmountError {
    Parse,
    TooHigh,
    TooManyDigits,
}

impl ParseAmountError {
    /// The human-readable message of the error.
    pub fn message(&self) -> (r: &'static str)
        ensures
            *self == ParseAmountError::Parse ==> r@ == "cannot parse amount"@,
            *self == ParseAmountError::TooHigh ==> r@ == "cannot represent amount: number too high"@,
            *self == ParseAmountError::TooManyDigits
                ==> r@ == "cannot represent amount: too many decimal places after the point"@,
    {
        proof {
            reveal_strlit("cannot parse amount");
            reveal_strlit("cannot represent amount: number too high");
            reveal_strlit("cannot represent amount: too many decimal places after the point");
        }
        match self {
            ParseAmountError::Parse => "cannot parse amount",
            ParseAmountError::TooHigh => "cannot represent amount: number too high",
            ParseAmountError::TooManyDigits => "cannot represent amount: too many decimal places after the point",
        }
    }
}

/// The state of a left-to-right scan of the text of an amount: the digits read so far as a
/// number, and how many more digits may follow once a point was read.
pub enum Scan {
    Reading { value: nat, decimals: Option<nat> },
    Failed { error: ParseAmountError },
}

/// The value of an ASCII decimal digit.
pub open spec fn digit_value(c: char) -> int {
    c as int - '0' as int
}

/// Whether `c` is an ASCII decimal digit.
pub open spec fn is_digit(c: char) -> bool {
    '0' <= c <= '9'
}

/// One step of the scan: `_` is skipped, one `.` starts the fraction, a digit is appended.
pub open spec fn scan_step(st: Scan, c: char) -> Scan {
    match st {
        Scan::Failed { error } => Scan::Failed { error },
        Scan::Reading { value, decimals } => {
            if c == '_' {
                st
            } else if c == '.' {
                if decimals is Some {
                    Scan::Failed { error: ParseAmountError::Parse }
                } else {
                    Scan::Reading { value, decimals: Some(18) }
                }
            } else if !is_digit(c) {
                Scan::Failed { error: ParseAmountError::Parse }
            } else if decimals == Some(0nat) {
                Scan::Failed { error: ParseAmountError::TooManyDigits }
            } else if value * 10 + digit_value(c) > U128_MAX {
                Scan::Failed { error: ParseAmountError::TooHigh }
            } else {
                Scan::Reading {
                    value: (value * 10 + digit_value(c)) as nat,
                    decimals: if decimals is Some { Some((decimals->0 - 1) as nat) } else { None },
                }
            }
        },
    }
}

/// The scan of a whole sequence of characters.
pub open spec fn scan(cs: Seq<char>) -> Scan
    decreases cs.len(),
{
    if cs.len() == 0 {
        Scan::Reading { value: 0, decimals: None }
    } else {
        scan_step(scan(cs.drop_last()), cs.last())
    }
}

/// The text after an optional leading `+`.
pub open spec fn unsigned_part(t: Seq<char>) -> Seq<char> {
    if t.len() > 0 && t[0] == '+' { t.skip(1) } else { t }
}

/// The amount that a trimmed text denotes: digits with `_` separators and at most one point,
/// with at most 18 digits after it, scaled to attotokens.
pub open spec fn amount_of_text(t: Seq<char>) -> Result<Amount, ParseAmountError> {
    match scan(unsigned_part(t)) {
        Scan::Failed { error } => Err(error),
        Scan::Reading { value, decimals } => {
            let scaled = value * pow10(if decimals is Some { decimals->0 } else { 18 });
            if scaled > U128_MAX {
                Err(ParseAmountError::TooHigh)
            } else {
                Ok(Amount(scaled as u128))
            }
        },
    }
}

/// Once the scan has failed, it stays failed with the same error.
proof fn lemma_scan_failed_stays(body: Seq<char>, k: nat)
    requires
        k <= body.len(),
        scan(body.take(k as int)) is Failed,
    ensures
        scan(body) == scan(body.take(k as int)),
    decreases body.len() - k,
{
    if k < body.len() {
        assert(body.take((k + 1) as int).drop_last() =~= body.take(k as int));
        lemma_scan_failed_stays(body, k + 1);
    } else {
        assert(body.take(k as int) =~= body);
    }
}

/// A failed scan is the error of the text.
proof fn lemma_failed_text(t: Seq<char>)
    requires
        scan(unsigned_part(t)) is Failed,
    ensures
        amount_of_text(t) == Err::<Amount, ParseAmountError>(scan(unsigned_part(t))->error),
{
}

/// What `str::trim` leaves of a text.
pub uninterp spec fn trimmed(s: Seq<char>) -> Seq<char>;

/// Relies on `str::trim`: the text without leading and trailing whitespace.
#[verifier::external_body]
fn trim_text(s: &str) -> (r: String)
    ensures
        r@ == trimmed(s@),
{
    s.trim().to_string()
}

/// A block height to identify blocks in a chain.
#[derive(Debug, Clone, Copy, PartialEq, Eq, Structural, PartialOrd, Ord, Hash, Default)]
pub struct BlockHeight(pub u64);

impl BlockHeight {
    /// The zero value.
    pub fn zero() -> (r: BlockHeight)
        ensures
            r.0 == 0,
    {
        BlockHeight(0)
    }

    /// The maximum value.
    pub fn max_value() -> (r: BlockHeight)
        ensures
            r.0 == U64_MAX,
    {
        BlockHeight(U64_MAX)
    }

    /// Checked addition.
    pub fn try_add(self, other: BlockHeight) -> (r: Result<BlockHeight, ArithmeticError>)
        ensures
            self.0 + other.0 <= U64_MAX ==> r == Ok::<BlockHeight, ArithmeticError>(BlockHeight((self.0 + other.0) as u64)),
            self.0 + other.0 > U64_MAX ==> r == Err::<BlockHeight, ArithmeticError>(ArithmeticError::Overflow),
    {
        match self.0.checked_add(other.0) {
            Some(v) => Ok(BlockHeight(v)),
            None => Err(ArithmeticError::Overflow),
        }
    }

    /// Checked increment.
    pub fn try_add_one(self) -> (r: Result<BlockHeight, ArithmeticError>)
        ensures
            self.0 < U64_MAX ==> r == Ok::<BlockHeight, ArithmeticError>(BlockHeight((self.0 + 1) as u64)),
            self.0 == U64_MAX ==> r == Err::<BlockHeight, ArithmeticError>(ArithmeticError::Overflow),
    {
        match self.0.checked_add(1) {
            Some(v) => Ok(BlockHeight(v)),
            None => Err(ArithmeticError::Overflow),
        }
    }

    /// Saturating addition.
    pub fn saturating_add(self, other: BlockHeight) -> (r: BlockHeight)
        ensures
            r.0 == if self.0 + other.0 > U64_MAX { U64_MAX as int } else { self.0 + other.0 },
    {
        BlockHeight(self.0.saturating_add(other.0))
    }

    /// Checked subtraction.
    pub fn try_sub(self, other: BlockHeight) -> (r: Result<BlockHeight, ArithmeticError>)
        ensures
            other.0 <= self.0 ==> r == Ok::<BlockHeight, ArithmeticError>(BlockHeight((self.0 - other.0) as u64)),
            other.0 > self.0 ==> r == Err::<BlockHeight, ArithmeticError>(ArithmeticError::Underflow),
    {
        match self.0.checked_sub(other.0) {
            Some(v) => Ok(BlockHeight(v)),
            None => Err(ArithmeticError::Underflow),
        }
    }

    /// Checked decrement.
    pub fn try_sub_one(self) -> (r: Result<BlockHeight, ArithmeticError>)
        ensures
            self.0 > 0 ==> r == Ok::<BlockHeight, ArithmeticError>(BlockHeight((self.0 - 1) as u64)),
            self.0 == 0 ==> r == Err::<BlockHeight, ArithmeticError>(ArithmeticError::Underflow),
    {
        match self.0.checked_sub(1) {
            Some(v) => Ok(BlockHeight(v)),
            None => Err(ArithmeticError::Underflow),
        }
    }

    /// Saturating subtraction.
    pub fn saturating_sub(self, other: BlockHeight) -> (r: BlockHeight)
        ensures
            r.0 == if other.0 > self.0 { 0 } else { self.0 - other.0 },
    {
        BlockHeight(self.0.saturating_sub(other.0))
    }

    /// Checked in-place addition; the value is unchanged on overflow.
    pub fn try_add_assign(&mut self, other: BlockHeight) -> (r: Result<(), ArithmeticError>)
        ensures
            old(self).0 + other.0 <= U64_MAX ==> r is Ok && final(self).0 == old(self).0 + other.0,
            old(self).0 + other.0 > U64_MAX ==> r == Err::<(), ArithmeticError>(ArithmeticError::Overflow) && *final(self) == *old(self),
    {
        match self.0.checked_add(other.0) {
            Some(v) => {
                self.0 = v;
                Ok(())
            },
            None => Err(ArithmeticError::Overflow),
        }
    }

    /// Checked in-place increment; the value is unchanged on overflow.
    pub fn try_add_assign_one(&mut self) -> (r: Result<(), ArithmeticError>)
        ensures
            old(self).0 < U64_MAX ==> r is Ok && final(self).0 == old(self).0 + 1,
            old(self).0 == U64_MAX ==> r == Err::<(), ArithmeticError>(ArithmeticError::Overflow) && *final(self) == *old(self),
    {
        match self.0.checked_add(1) {
            Some(v) => {
                self.0 = v;
                Ok(())
            },
            None => Err(ArithmeticError::Overflow),
        }
    }

    /// Saturating in-place addition.
    pub fn saturating_add_assign(&mut self, other: BlockHeight)
        ensures
            final(self).0 == if old(self).0 + other.0 > U64_MAX { U64_MAX as int } else { old(self).0 + other.0 },
    {
        self.0 = self.0.saturating_add(other.0);
    }

    /// Checked in-place subtraction; the value is unchanged on underflow.
    pub fn try_sub_assign(&mut self, other: BlockHeight) -> (r: Result<(), ArithmeticError>)
        ensures
            other.0 <= old(self).0 ==> r is Ok && final(self).0 == old(self).0 - other.0,
            other.0 > old(self).0 ==> r == Err::<(), ArithmeticError>(ArithmeticError::Underflow) && *final(self) == *old(self),
    {
        match self.0.checked_sub(other.0) {
            Some(v) => {
                self.0 = v;
                Ok(())
            },
            None => Err(ArithmeticError::Underflow),
        }
    }

    /// Saturating multiplication.
    pub fn saturating_mul(&self, other: u64) -> (r: BlockHeight)
        ensures
            r.0 == sat_mul(self.0 as int, other as int, U64_MAX as int),
    {
        match self.0.checked_mul(other) {
            Some(v) => BlockHeight(v),
            None => BlockHeight(U64_MAX),
        }
    }

    /// Checked multiplication.
    pub fn try_mul(self, other: u64) -> (r: Result<BlockHeight, ArithmeticError>)
        ensures
            self.0 * other <= U64_MAX ==> r == Ok::<BlockHeight, ArithmeticError>(BlockHeight((self.0 * other) as u64)),
            self.0 * other > U64_MAX ==> r == Err::<BlockHeight, ArithmeticError>(ArithmeticError::Overflow),
    {
        match self.0.checked_mul(other) {
            Some(v) => Ok(BlockHeight(v)),
            None => Err(ArithmeticError::Overflow),
        }
    }

    /// Checked in-place multiplication; the value is unchanged on overflow.
    pub fn try_mul_assign(&mut self, other: u64) -> (r: Result<(), ArithmeticError>)
        ensures
            old(self).0 * other <= U64_MAX ==> r is Ok && final(self).0 == old(self).0 * other,
            old(self).0 * other > U64_MAX ==> r == Err::<(), ArithmeticError>(ArithmeticError::Overflow) && *final(self) == *old(self),
    {
        match self.0.checked_mul(other) {
            Some(v) => {
                self.0 = v;
                Ok(())
            },
            None => Err(ArithmeticError::Overflow),
        }
    }
}

impl From<BlockHeight> for u64 {
    fn from(value: BlockHeight) -> (r: u64)
        ensures
            r == value.0,
    {
        value.0
    }
}

impl vstd::std_specs::convert::FromSpecImpl<BlockHeight> for u64 {
    open spec fn obeys_from_spec() -> bool {
        true
    }

    open spec fn from_spec(v: BlockHeight) -> u64 {
        v.0
    }
}


impl From<u64> for BlockHeight {
    fn from(value: u64) -> (r: BlockHeight)
        ensures
            r.0 == value,
    {
        BlockHeight(value)
    }
}

impl vstd::std_specs::convert::FromSpecImpl<u64> for BlockHeight {
    open spec fn obeys_from_spec() -> bool {
        true
    }

    open spec fn from_spec(v: u64) -> BlockHeight {
        BlockHeight(v)
    }
}

impl BlockHeight {
    /// The height as a `usize`, or an overflow where it does not fit.
    pub fn try_into_usize(self) -> (r: Result<usize, ArithmeticError>)
        ensures
            self.0 <= usize::MAX ==> r == Ok::<usize, ArithmeticError>(self.0 as usize),
            self.0 > usize::MAX ==> r == Err::<usize, ArithmeticError>(ArithmeticError::Overflow),
    {
        if self.0 <= usize::MAX as u64 {
            Ok(self.0 as usize)
        } else {
            Err(ArithmeticError::Overflow)
        }
    }
}

/// An identifier for successive attempts to decide a value in a consensus protocol.
#[derive(Debug, Clone, Copy, PartialEq, Eq, Structural, PartialOrd, Ord, Hash, Default)]
pub enum Round {
    /// The initial fast round.
    #[default]
    Fast,
    /// The N-th multi-leader round.
    MultiLeader(u32),
    /// The N-th single-leader round.
    SingleLeader(u32),
}

/// The text of a round.
pub open spec fn round_text(r: Round) -> Seq<char> {
    match r {
        Round::Fast => "fast round"@,
        Round::MultiLeader(n) => "multi-leader round "@ + decimal(n as nat),
        Round::SingleLeader(n) => "single-leader round "@ + decimal(n as nat),
    }
}

impl Round {
    /// Whether the round is a multi-leader round.
    pub fn is_multi_leader(&self) -> (r: bool)
        ensures
            r == (*self is MultiLeader),
    {
        matches!(self, Round::MultiLeader(_))
    }

    /// Whether the round is the fast round.
    pub fn is_fast(&self) -> (r: bool)
        ensures
            r == (*self is Fast),
    {
        matches!(self, Round::Fast)
    }

    /// The index of a round amongst the rounds of the same category.
    pub fn number(&self) -> (r: u32)
        ensures
            r == match *self {
                Round::Fast => 0,
                Round::MultiLeader(n) => n,
                Round::SingleLeader(n) => n,
            },
    {
        match self {
            Round::Fast => 0,
            Round::MultiLeader(r) => *r,
            Round::SingleLeader(r) => *r,
        }
    }

    /// The category of the round.
    pub fn category_name(&self) -> (r: &'static str)
        ensures
            r@ == match *self {
                Round::Fast => "fast"@,
                Round::MultiLeader(_) => "multi"@,
                Round::SingleLeader(_) => "single"@,
            },
    {
        proof {
            reveal_strlit("fast");
            reveal_strlit("multi");
            reveal_strlit("single");
        }
        match self {
            Round::Fast => "fast",
            Round::MultiLeader(_) => "multi",
            Round::SingleLeader(_) => "single",
        }
    }

    /// The text of the round, such as `"multi-leader round 3"`.
    pub fn to_string(&self) -> (r: String)
        ensures
            r@ == round_text(*self),
    {
        let mut out: Vec<char> = Vec::new();
        match self {
            Round::Fast => push_str(&mut out, "fast round"),
            Round::MultiLeader(n) => {
                push_str(&mut out, "multi-leader round ");
                push_chars(&mut out, &decimal_chars(*n as u128));
            },
            Round::SingleLeader(n) => {
                push_str(&mut out, "single-leader round ");
                push_chars(&mut out, &decimal_chars(*n as u128));
            },
        }
        assert(out@ =~= round_text(*self));
        string_from_chars(&out)
    }
}

/// A timestamp, in microseconds since the Unix epoch.
#[derive(Debug, Clone, Copy, PartialEq, Eq, Structural, PartialOrd, Ord, Hash, Default)]
pub struct Timestamp(pub u64);

/// The microseconds that a `Duration` spans.
pub uninterp spec fn duration_micros(d: std::time::Duration) -> nat;

/// Relies on `Duration::from_micros`: a duration of exactly `micros` microseconds.
#[verifier::external_body]
fn duration_of_micros(micros: u64) -> (r: std::time::Duration)
    ensures
        duration_micros(r) == micros,
{
    std::time::Duration::from_micros(micros)
}

/// Relies on `Duration::as_micros`: the whole microseconds of the duration.
#[verifier::external_body]
fn micros_of_duration(d: &std::time::Duration) -> (r: u128)
    ensures
        r == duration_micros(*d),
{
    d.as_micros()
}

/// Relies on `SystemTime::elapsed` from the Unix epoch: the microseconds since then by the system
/// clock, or `None` where the clock is set before the epoch.
#[verifier::external_body]
fn system_micros_since_epoch() -> (r: Option<u128>)
{
    match std::time::SystemTime::UNIX_EPOCH.elapsed() {
        Ok(d) => Some(d.as_micros()),
        Err(_) => None,
    }
}

/// The microseconds `m`, or `u64::MAX` where they do not fit.
pub open spec fn saturate_u64(m: int) -> int {
    if m > U64_MAX { U64_MAX as int } else { m }
}

/// The text of a timestamp as a UTC date and time, as chrono writes it.
pub uninterp spec fn utc_text(secs: int, nanos: int) -> Seq<char>;

/// Relies on `chrono::DateTime::from_timestamp` and the `Display` of `NaiveDateTime`: the UTC
/// date and time `secs` seconds and `nanos` nanoseconds after the epoch, or `None` where that is
/// out of chrono's range.
#[verifier::external_body]
fn utc_text_of(secs: i64, nanos: u32) -> (r: Option<String>)
    ensures
        r matches Some(t) ==> t@ == utc_text(secs as int, nanos as int),
{
    match chrono::DateTime::from_timestamp(secs, nanos) {
        Some(d) => Some(d.naive_utc().to_string()),
        None => None,
    }
}

impl Timestamp {
    /// The current time according to the system clock; the epoch itself where the clock is
    /// set before it.
    pub fn now() -> (r: Timestamp) {
        match system_micros_since_epoch() {
            Some(m) => Timestamp::from_elapsed_micros(m),
            None => Timestamp(0),
        }
    }

    /// The timestamp `micros` after the epoch, saturating at `u64::MAX`.
    pub fn from_elapsed_micros(micros: u128) -> (r: Timestamp)
        ensures
            r.0 == saturate_u64(micros as int),
    {
        if micros > U64_MAX as u128 { Timestamp(U64_MAX) } else { Timestamp(micros as u64) }
    }

    /// The number of microseconds since the Unix epoch.
    pub fn micros(&self) -> (r: u64)
        ensures
            r == self.0,
    {
        self.0
    }

    /// The microseconds from `other` until `self`, or `0` if `other` is not earlier.
    pub fn saturating_diff_micros(&self, other: Timestamp) -> (r: u64)
        ensures
            r == if other.0 >= self.0 { 0 } else { self.0 - other.0 },
    {
        self.0.saturating_sub(other.0)
    }

    /// The duration from `other` until `self`, or zero if `other` is not earlier.
    pub fn duration_since(&self, other: Timestamp) -> (r: std::time::Duration)
        ensures
            duration_micros(r) == if other.0 >= self.0 { 0 } else { self.0 - other.0 },
    {
        duration_of_micros(self.saturating_diff_micros(other))
    }

    /// The timestamp `duration` later than `self`, saturating at the maximum.
    pub fn saturating_add(&self, duration: std::time::Duration) -> (r: Timestamp)
        ensures
            r.0 == saturate_u64(self.0 + saturate_u64(duration_micros(duration) as int)),
    {
        let micros = Timestamp::from_elapsed_micros(micros_of_duration(&duration)).0;
        Timestamp(self.0.saturating_add(micros))
    }

    /// The timestamp `micros` later than `self`, saturating at the maximum.
    pub fn saturating_add_micros(&self, micros: u64) -> (r: Timestamp)
        ensures
            r.0 == saturate_u64(self.0 + micros),
    {
        Timestamp(self.0.saturating_add(micros))
    }

    /// The timestamp `micros` earlier than `self`, saturating at zero.
    pub fn saturating_sub_micros(&self, micros: u64) -> (r: Timestamp)
        ensures
            r.0 == if micros >= self.0 { 0 } else { self.0 - micros },
    {
        Timestamp(self.0.saturating_sub(micros))
    }

    /// The text of the timestamp: the UTC date and time where chrono can represent it, else
    /// the microseconds in decimal.
    pub fn to_string(&self) -> (r: String)
        ensures
            r@ == utc_text((self.0 / 1_000_000) as int, ((self.0 % 1_000_000) * 1000) as int)
                || r@ == decimal(self.0 as nat),
    {
        let secs = (self.0 / 1_000_000) as i64;
        let nanos = ((self.0 % 1_000_000) * 1_000) as u32;
        match utc_text_of(secs, nanos) {
            Some(t) => t,
            None => string_from_chars(&decimal_chars(self.0 as u128)),
        }
    }
}

impl From<u64> for Timestamp {
    fn from(t: u64) -> (r: Timestamp)
        ensures
            r.0 == t,
    {
        Timestamp(t)
    }
}

impl vstd::std_specs::convert::FromSpecImpl<u64> for Timestamp {
    open spec fn obeys_from_spec() -> bool {
        true
    }

    open spec fn from_spec(v: u64) -> Timestamp {
        Timestamp(v)
    }
}

/// Resources that an application may spend during the execution of a transaction or an
/// application call.
#[derive(Debug, Clone, Copy, PartialEq, Eq, Structural, Default)]
pub struct Resources {
    /// An amount of execution fuel.
    pub fuel: u64,
    /// A number of read operations to be executed.
    pub read_operations: u32,
    /// A number of write operations to be executed.
    pub write_operations: u32,
    /// A number of bytes to read.
    pub bytes_to_read: u32,
    /// A number of bytes to write.
    pub bytes_to_write: u32,
    /// A number of messages to be sent.
    pub messages: u32,
    /// The size of the messages to be sent.
    pub message_size: u32,
    /// An increase in the amount of storage space.
    pub storage_size_delta: u32,
}

impl std::str::FromStr for Amount {
    type Err = ParseAmountError;

    fn from_str(src: &str) -> Result<Amount, ParseAmountError> {
        Amount::from_str(src)
    }
}

} // verus!
