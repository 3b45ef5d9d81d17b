//! Fixed-point scalar values.
//!
//! Times and physical values are decimals stored in micro-units: a
//! [`Scalar`] holds `raw` micro-units, so `1.5` is `raw == 1_500_000`.
//! A finite scalar keeps `|raw| <= RAW_LIMIT`; arithmetic saturates at
//! that limit instead of overflowing.  One extra encoding, the missing
//! marker, stands for "not yet computed" and propagates through
//! arithmetic the way a quiet NaN would.

use vstd::arithmetic::div_mod::{
    lemma_div_is_ordered_by_denominator, lemma_div_is_strictly_smaller, lemma_div_pos_is_pos,
    lemma_fundamental_div_mod, lemma_fundamental_div_mod_converse_div,
    lemma_fundamental_div_mod_converse_mod,
};
use vstd::prelude::*;
use vstd::string::StringExecFns;

verus! {

/// Number of raw steps in one unit: scalars store micro-units.
pub const SCALE: i64 = 1_000_000;

/// Largest raw magnitude of a finite scalar.
pub const RAW_LIMIT: i64 = 0x3fff_ffff_ffff_ffff;

/// Raw encoding of the missing marker.
pub const MISSING_RAW: i64 = -0x4000_0000_0000_0000;

/// Largest whole-unit magnitude accepted by `Scalar::from_int`.
pub const UNIT_LIMIT: i64 = 4_611_686_018_427;

/// A fixed-point decimal: either a finite number of micro-units or the
/// missing marker.
#[derive(Clone, Copy, PartialEq, Eq, Structural, Debug)]
pub struct Scalar {
    pub raw: i64,
}

impl View for Scalar {
    type V = int;

    open spec fn view(&self) -> int {
        self.raw as int
    }
}

/// Clamps a mathematical value into the representable finite range.
pub open spec fn clamp_raw(x: int) -> int {
    if x < -RAW_LIMIT {
        -RAW_LIMIT as int
    } else if x > RAW_LIMIT {
        RAW_LIMIT as int
    } else {
        x
    }
}

impl Scalar {
    /// A finite number, not the missing marker.
    pub open spec fn finite(self) -> bool {
        -RAW_LIMIT <= self.raw && self.raw <= RAW_LIMIT
    }

    /// The missing marker.
    pub open spec fn missing_spec(self) -> bool {
        self.raw == MISSING_RAW
    }

    /// Every scalar the library hands out is finite or missing.
    pub open spec fn inv(self) -> bool {
        self.finite() || self.missing_spec()
    }

    /// Result of saturating addition, with missing propagated.
    pub open spec fn sum_spec(a: Scalar, b: Scalar) -> Scalar {
        if a.missing_spec() || b.missing_spec() {
            Scalar { raw: MISSING_RAW }
        } else {
            Scalar { raw: clamp_raw(a@ + b@) as i64 }
        }
    }

    /// Result of saturating subtraction, with missing propagated.
    pub open spec fn diff_spec(a: Scalar, b: Scalar) -> Scalar {
        if a.missing_spec() || b.missing_spec() {
            Scalar { raw: MISSING_RAW }
        } else {
            Scalar { raw: clamp_raw(a@ - b@) as i64 }
        }
    }

    /// Result of saturating fixed-point multiplication.
    pub open spec fn prod_spec(a: Scalar, b: Scalar) -> Scalar {
        if a.missing_spec() || b.missing_spec() {
            Scalar { raw: MISSING_RAW }
        } else {
            Scalar { raw: clamp_raw((a@ * b@) / (SCALE as int)) as i64 }
        }
    }

    /// Result of saturating fixed-point division; dividing by zero gives
    /// the missing marker.  The rounding is stated over a positive
    /// divisor in both sign cases.
    pub open spec fn quot_spec(a: Scalar, b: Scalar) -> Scalar {
        if a.missing_spec() || b.missing_spec() || b@ == 0 {
            Scalar { raw: MISSING_RAW }
        } else if b@ > 0 {
            Scalar { raw: clamp_raw((a@ * SCALE) / b@) as i64 }
        } else {
            Scalar { raw: clamp_raw(-((a@ * SCALE) / -b@)) as i64 }
        }
    }

    /// The missing marker.
    pub fn missing() -> (r: Scalar)
        ensures
            r.missing_spec(),
            r.inv(),
    {
        Scalar { raw: MISSING_RAW }
    }

    /// Zero.
    pub fn zero() -> (r: Scalar)
        ensures
            r.finite(),
            r@ == 0,
    {
        Scalar { raw: 0 }
    }

    /// A finite scalar from raw micro-units; absent when the magnitude
    /// does not fit.
    pub fn from_raw(raw: i64) -> (r: Option<Scalar>)
        ensures
            r is Some <==> -RAW_LIMIT <= raw && raw <= RAW_LIMIT,
            r matches Some(s) ==> s.finite() && s@ == raw as int,
    {
        if -RAW_LIMIT <= raw && raw <= RAW_LIMIT {
            Some(Scalar { raw })
        } else {
            None
        }
    }

    /// A finite scalar from a whole number of units; absent when the
    /// magnitude does not fit.
    pub fn from_int(units: i64) -> (r: Option<Scalar>)
        ensures
            r is Some <==> -UNIT_LIMIT <= units && units <= UNIT_LIMIT,
            r matches Some(s) ==> s.finite() && s@ == units * SCALE,
    {
        if -UNIT_LIMIT <= units && units <= UNIT_LIMIT {
            proof {
                assert(-RAW_LIMIT <= units * SCALE <= RAW_LIMIT) by (nonlinear_arith)
                    requires
                        -UNIT_LIMIT <= units <= UNIT_LIMIT,
                ;
            }
            Some(Scalar { raw: units * SCALE })
        } else {
            None
        }
    }

    /// Whether this scalar is finite or missing, the two encodings the
    /// library hands out.
    pub fn check_inv(&self) -> (r: bool)
        ensures
            r == self.inv(),
    {
        (-RAW_LIMIT <= self.raw && self.raw <= RAW_LIMIT) || self.raw == MISSING_RAW
    }

    /// Whether this is the missing marker.
    pub fn is_missing(&self) -> (r: bool)
        ensures
            r == self.missing_spec(),
    {
        self.raw == MISSING_RAW
    }

    /// Saturating addition; missing if either operand is.
    pub fn plus(self, other: Scalar) -> (r: Scalar)
        requires
            self.inv(),
            other.inv(),
        ensures
            r == Scalar::sum_spec(self, other),
            r.inv(),
    {
        if self.is_missing() || other.is_missing() {
            Scalar::missing()
        } else {
            let s: i64 = self.raw + other.raw;
            saturate_i64(s)
        }
    }

    /// Saturating subtraction; missing if either operand is.
    pub fn minus(self, other: Scalar) -> (r: Scalar)
        requires
            self.inv(),
            other.inv(),
        ensures
            r == Scalar::diff_spec(self, other),
            r.inv(),
    {
        if self.is_missing() || other.is_missing() {
            Scalar::missing()
        } else {
            let s: i64 = self.raw - other.raw;
            saturate_i64(s)
        }
    }

    /// Saturating fixed-point multiplication; missing if either operand is.
    pub fn times(self, other: Scalar) -> (r: Scalar)
        requires
            self.inv(),
            other.inv(),
        ensures
            r == Scalar::prod_spec(self, other),
            r.inv(),
    {
        if self.is_missing() || other.is_missing() {
            Scalar::missing()
        } else {
            proof {
                lemma_bounded_product(self.raw as int, other.raw as int);
            }
            let p: i128 = (self.raw as i128) * (other.raw as i128);
            let q: i128 = floor_div_i128(p, SCALE as i128);
            saturate_i128(q)
        }
    }

    /// Saturating fixed-point division; missing if either operand is, or
    /// when dividing by zero.
    pub fn div_by(self, other: Scalar) -> (r: Scalar)
        requires
            self.inv(),
            other.inv(),
        ensures
            r == Scalar::quot_spec(self, other),
            r.inv(),
    {
        if self.is_missing() || other.is_missing() || other.raw == 0 {
            Scalar::missing()
        } else {
            proof {
                lemma_bounded_product(self.raw as int, SCALE as int);
            }
            let p: i128 = (self.raw as i128) * (SCALE as i128);
            if other.raw > 0 {
                let q: i128 = floor_div_i128(p, other.raw as i128);
                saturate_i128(q)
            } else {
                let q: i128 = floor_div_i128(p, -(other.raw as i128));
                saturate_i128(-q)
            }
        }
    }

    /// Whether `self` is numerically below `other` (missing compares as
    /// its raw encoding, below every finite value).
    pub fn lt(&self, other: &Scalar) -> (r: bool)
        ensures
            r == (self@ < other@),
    {
        self.raw < other.raw
    }

    /// Whether `self` is numerically at or below `other`.
    pub fn le(&self, other: &Scalar) -> (r: bool)
        ensures
            r == (self@ <= other@),
    {
        self.raw <= other.raw
    }
}

/// One decimal digit as a character.
pub open spec fn digit_char(d: nat) -> char {
    if d == 0 {
        '0'
    } else if d == 1 {
        '1'
    } else if d == 2 {
        '2'
    } else if d == 3 {
        '3'
    } else if d == 4 {
        '4'
    } else if d == 5 {
        '5'
    } else if d == 6 {
        '6'
    } else if d == 7 {
        '7'
    } else if d == 8 {
        '8'
    } else {
        '9'
    }
}

/// The decimal rendering of a number, most significant digit first.
pub open spec fn dec_digits(v: nat) -> Seq<char>
    decreases v,
{
    if v < 10 {
        seq![digit_char(v)]
    } else {
        dec_digits(v / 10).push(digit_char(v % 10))
    }
}

/// One decimal digit as text.
fn digit_str(d: u64) -> (r: &'static str)
    requires
        d < 10,
    ensures
        r@ == seq![digit_char(d as nat)],
{
    proof {
        reveal_strlit("0");
        reveal_strlit("1");
        reveal_strlit("2");
        reveal_strlit("3");
        reveal_strlit("4");
        reveal_strlit("5");
        reveal_strlit("6");
        reveal_strlit("7");
        reveal_strlit("8");
        reveal_strlit("9");
    }
    let r = match d {
        0 => "0",
        1 => "1",
        2 => "2",
        3 => "3",
        4 => "4",
        5 => "5",
        6 => "6",
        7 => "7",
        8 => "8",
        _ => "9",
    };
    proof {
        assert(r@ =~= seq![digit_char(d as nat)]);
    }
    r
}

/// The low-to-high digit list read back most significant digit first.
pub open spec fn rev_digit_chars(ds: Seq<u64>) -> Seq<char> {
    Seq::new(ds.len(), |i: int| digit_char(ds[ds.len() - 1 - i] as nat))
}

/// The decimal digits of `v`.
pub(crate) fn u64_to_string(v: u64) -> (r: String)
    ensures
        r@ == dec_digits(v as nat),
{
    let mut digits: Vec<u64> = Vec::new();
    let mut rest: u64 = v;
    if rest == 0 {
        digits.push(0);
        proof {
            assert(rev_digit_chars(digits@) =~= dec_digits(v as nat));
        }
    }
    while rest > 0
        invariant
            forall|j: int| 0 <= j < digits@.len() ==> (#[trigger] digits@[j]) < 10,
            rest > 0 ==> dec_digits(v as nat) =~= dec_digits(rest as nat) + rev_digit_chars(
                digits@,
            ),
            rest == 0 ==> dec_digits(v as nat) =~= rev_digit_chars(digits@),
        decreases rest,
    {
        let ghost old_digits = digits@;
        digits.push(rest % 10);
        proof {
            lemma_div_is_strictly_smaller(rest as int, 10);
            assert(rev_digit_chars(digits@) =~= seq![digit_char((rest % 10) as nat)]
                + rev_digit_chars(old_digits));
            if rest >= 10 {
                assert(dec_digits(rest as nat) == dec_digits((rest as nat) / 10).push(
                    digit_char((rest as nat) % 10),
                ));
                assert(dec_digits((rest / 10) as nat) + rev_digit_chars(digits@) =~= dec_digits(
                    rest as nat,
                ) + rev_digit_chars(old_digits));
            } else {
                assert(dec_digits(rest as nat) =~= seq![digit_char(rest as nat)]);
                assert(rev_digit_chars(digits@) =~= dec_digits(rest as nat) + rev_digit_chars(
                    old_digits,
                ));
            }
        }
        rest = rest / 10;
    }
    let mut out = String::new();
    let n = digits.len();
    let mut i: usize = n;
    while i > 0
        invariant
            i <= n,
            n == digits@.len(),
            forall|j: int| 0 <= j < digits@.len() ==> (#[trigger] digits@[j]) < 10,
            out@ == rev_digit_chars(digits@).subrange(0, n - i),
        decreases i,
    {
        i = i - 1;
        let d = digits[i];
        out.append(digit_str(d));
        proof {
            assert(out@ =~= rev_digit_chars(digits@).subrange(0, n - i));
        }
    }
    proof {
        assert(rev_digit_chars(digits@).subrange(0, n as int) =~= rev_digit_chars(digits@));
    }
    out
}

impl Scalar {
    /// A decimal rendering such as `0.5` or `-2.25`; the missing marker
    /// renders as `missing`.
    pub fn to_decimal_string(&self) -> String {
        if self.raw == MISSING_RAW {
            return String::from_str("missing");
        }
        let mut out = String::new();
        let magnitude: u64 = if self.raw < 0 {
            out.append("-");
            if self.raw < -RAW_LIMIT {
                RAW_LIMIT as u64
            } else {
                (-self.raw) as u64
            }
        } else {
            self.raw as u64
        };
        let whole: u64 = magnitude / (SCALE as u64);
        let mut frac: u64 = magnitude % (SCALE as u64);
        out.append(u64_to_string(whole).as_str());
        out.append(".");
        if frac == 0 {
            out.append("0");
            return out;
        }
        // render the six fractional digits, then drop trailing zeros
        let mut frac_digits: Vec<u64> = Vec::new();
        let mut i: usize = 0;
        while i < 6
            invariant
                i <= 6,
                frac_digits@.len() == i,
            decreases 6 - i,
        {
            frac_digits.push(frac % 10);
            frac = frac / 10;
            i = i + 1;
        }
        let mut keep: usize = 0;
        let mut j: usize = 0;
        while j < 6
            invariant
                j <= 6,
                keep <= 6,
                frac_digits@.len() == 6,
            decreases 6 - j,
        {
            if frac_digits[j] != 0 {
                keep = 6 - j;
                break ;
            }
            j = j + 1;
        }
        let mut k: usize = 6;
        while k > 6 - keep
            invariant
                keep <= 6,
                6 - keep <= k <= 6,
                frac_digits@.len() == 6,
            decreases k,
        {
            k = k - 1;
            let d = frac_digits[k];
            out.append(digit_str(d % 10));
        }
        out
    }
}

/// Clamps an `i64` into the finite range.
fn saturate_i64(x: i64) -> (r: Scalar)
    ensures
        r.finite(),
        r@ == clamp_raw(x as int),
{
    if x < -RAW_LIMIT {
        Scalar { raw: -RAW_LIMIT }
    } else if x > RAW_LIMIT {
        Scalar { raw: RAW_LIMIT }
    } else {
        Scalar { raw: x }
    }
}

/// Clamps `base + q` into the finite range, for a quotient `q` that a
/// bounded product left well inside the `i128` range.
pub(crate) fn saturate_i128_add(base: i64, q: i128) -> (r: Scalar)
    requires
        -0x4000_0000_0000_0000_0000_0000_0000_0000 <= q
            <= 0x4000_0000_0000_0000_0000_0000_0000_0000,
    ensures
        r.finite(),
        r@ == clamp_raw(base as int + q as int),
{
    saturate_i128((base as i128) + q)
}

/// Clamps an `i128` into the finite range.
pub(crate) fn saturate_i128(x: i128) -> (r: Scalar)
    ensures
        r.finite(),
        r@ == clamp_raw(x as int),
{
    if x < -RAW_LIMIT as i128 {
        Scalar { raw: -RAW_LIMIT }
    } else if x > RAW_LIMIT as i128 {
        Scalar { raw: RAW_LIMIT }
    } else {
        Scalar { raw: x as i64 }
    }
}

/// The product of two values bounded by the finite range stays well
/// inside the `i128` range.
proof fn lemma_bounded_product(a: int, b: int)
    requires
        -RAW_LIMIT <= a <= RAW_LIMIT,
        -RAW_LIMIT <= b <= RAW_LIMIT,
    ensures
        -(i128::MAX as int) < a * b < i128::MAX as int,
{
    assert(-(i128::MAX as int) < a * b < i128::MAX as int) by (nonlinear_arith)
        requires
            -RAW_LIMIT <= a <= RAW_LIMIT,
            -RAW_LIMIT <= b <= RAW_LIMIT,
    ;
}

/// Division by a positive divisor, rounding toward negative infinity,
/// which agrees with the mathematical `/` for positive divisors.
pub(crate) fn floor_div_i128(a: i128, b: i128) -> (r: i128)
    requires
        b > 0,
        a > i128::MIN,
    ensures
        r as int == (a as int) / (b as int),
        a >= 0 ==> 0 <= r <= a,
        a < 0 ==> a <= r <= -1,
{
    if a >= 0 {
        let q: u128 = (a as u128) / (b as u128);
        proof {
            lemma_div_pos_is_pos(a as int, b as int);
            lemma_fundamental_div_mod_converse_div(a as int, 1, a as int, 0);
            lemma_div_is_ordered_by_denominator(a as int, 1, b as int);
        }
        q as i128
    } else {
        let m: u128 = (-a) as u128;
        let bu: u128 = b as u128;
        let q: u128 = m / bu;
        let rem: u128 = m % bu;
        proof {
            lemma_fundamental_div_mod(m as int, bu as int);
            lemma_div_pos_is_pos(m as int, bu as int);
            lemma_fundamental_div_mod_converse_div(m as int, 1, m as int, 0);
            lemma_div_is_ordered_by_denominator(m as int, 1, bu as int);
            if rem == 0 {
                assert((-(q as int)) * (b as int) == -((bu as int) * (q as int)))
                    by (nonlinear_arith)
                    requires
                        b as int == bu as int,
                ;
                lemma_fundamental_div_mod_converse_div(a as int, b as int, -(q as int), 0);
                if q == 0 {
                    assert((bu as int) * (q as int) == 0) by (nonlinear_arith)
                        requires
                            q == 0,
                    ;
                }
            } else {
                assert(b >= 2) by {
                    if b == 1 {
                        lemma_fundamental_div_mod_converse_mod(m as int, 1, m as int, 0);
                    }
                }
                lemma_div_is_strictly_smaller(m as int, bu as int);
                assert((-(q as int) - 1) * (b as int) + ((b as int) - (rem as int)) == -((bu as int)
                    * (q as int) + (rem as int))) by (nonlinear_arith)
                    requires
                        b as int == bu as int,
                ;
                lemma_fundamental_div_mod_converse_div(
                    a as int,
                    b as int,
                    -(q as int) - 1,
                    b - rem,
                );
            }
        }
        if rem == 0 {
            -(q as i128)
        } else {
            -((q as i128) + 1)
        }
    }
}

} // verus!

