//! Exact decimal numbers with a bounded number of fractional digits.
//!
//! Metric values arrive as decimal literals; they are kept exactly as a pair
//! of an integer count of units and a scale (the number of fractional
//! digits), so that aggregation never rounds.

use vstd::prelude::*;

verus! {

/// Largest number of fractional digits a decimal value may carry.
pub const MAX_SCALE: u8 = 6;

/// An exact decimal number: the value is `units / 10^scale`.
#[derive(Clone, Copy, PartialEq, Eq, Structural, Debug)]
pub struct Dec {
    pub units: i64,
    pub scale: u8,
}

/// `10^e` as a mathematical natural.
pub open spec fn pow10(e: nat) -> nat
    decreases e,
{
    if e == 0 {
        1
    } else {
        10 * pow10((e - 1) as nat)
    }
}

pub proof fn lemma_pow10_pos(e: nat)
    ensures
        pow10(e) >= 1,
    decreases e,
{
    if e > 0 {
        lemma_pow10_pos((e - 1) as nat);
    }
}

pub proof fn lemma_pow10_mono(a: nat, b: nat)
    requires
        a <= b,
    ensures
        pow10(a) <= pow10(b),
    decreases b,
{
    if a < b {
        lemma_pow10_mono(a, (b - 1) as nat);
        lemma_pow10_pos((b - 1) as nat);
    }
}

/// `10^MAX_SCALE`, the factor that turns a value into micro-units.
pub proof fn lemma_pow10_max_scale()
    ensures
        pow10(MAX_SCALE as nat) == 1000000,
{
    reveal_with_fuel(pow10, 8);
}

impl Dec {
    /// Well-formed: the scale is bounded and the magnitude leaves room for
    /// negation.
    pub open spec fn wf(self) -> bool {
        self.scale <= MAX_SCALE && -(i64::MAX as int) <= self.units
    }

    /// The number itself, as an exact count of `10^-MAX_SCALE` units.
    pub open spec fn val(self) -> int {
        self.units * pow10((MAX_SCALE - self.scale) as nat)
    }
}

/// `10^e` for a small exponent.
pub fn pow10_u64(e: u8) -> (r: u64)
    requires
        e <= MAX_SCALE,
    ensures
        r == pow10(e as nat),
{
    let mut r: u64 = 1;
    let mut i: u8 = 0;
    while i < e
        invariant
            i <= e <= MAX_SCALE,
            r == pow10(i as nat),
        decreases e - i,
    {
        proof {
            lemma_pow10_mono(i as nat, MAX_SCALE as nat);
            lemma_pow10_max_scale();
        }
        r = r * 10;
        i = i + 1;
    }
    r
}

/// The value of `d` as an exact count of micro-units (`10^-MAX_SCALE`).
pub fn dec_scaled(d: &Dec) -> (r: i128)
    requires
        d.wf(),
    ensures
        r == d.val(),
{
    let f: u64 = pow10_u64(MAX_SCALE - d.scale);
    proof {
        lemma_pow10_pos((MAX_SCALE - d.scale) as nat);
        lemma_pow10_mono((MAX_SCALE - d.scale) as nat, MAX_SCALE as nat);
        lemma_pow10_max_scale();
        assert(-(i64::MAX as int) * 1000000 <= (d.units as int) * (f as int) <= (i64::MAX as int)
            * 1000000) by (nonlinear_arith)
            requires
                -(i64::MAX as int) <= d.units <= i64::MAX as int,
                1 <= f <= 1000000,
        ;
    }
    (d.units as i128) * (f as i128)
}

/// Numeric order on decimals (independent of representation).
pub fn dec_le(a: &Dec, b: &Dec) -> (r: bool)
    requires
        a.wf(),
        b.wf(),
    ensures
        r == (a.val() <= b.val()),
{
    dec_scaled(a) <= dec_scaled(b)
}

/// Addition on `i128` that clamps at the ends of the range instead of
/// overflowing.
pub open spec fn sat_add(a: int, b: int) -> int {
    if a + b > i128::MAX as int {
        i128::MAX as int
    } else if a + b < i128::MIN as int {
        i128::MIN as int
    } else {
        a + b
    }
}

/// Saturating `i128` addition.
pub fn i128_sat_add(a: i128, b: i128) -> (r: i128)
    ensures
        r == sat_add(a as int, b as int),
{
    if b >= 0 {
        if a > i128::MAX - b {
            i128::MAX
        } else {
            a + b
        }
    } else {
        if a < i128::MIN - b {
            i128::MIN
        } else {
            a + b
        }
    }
}

} // verus!
