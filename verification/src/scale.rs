//! Exact decimal scale factors.
//!
//! A scale declared in the configuration file is a decimal literal such as
//! `1.5` or `2`. It is kept exactly as an integer numerator over a power of
//! ten, so comparisons between scales are exact and total: no value ever
//! compares as unordered.

use vstd::prelude::*;

verus! {

/// A scale factor, the exact decimal number `num / 10^den_pow`.
#[derive(Clone, Copy, PartialEq, Eq, Structural, Debug)]
pub struct Scale {
    pub num: u64,
    pub den_pow: u32,
}

/// `10^e`.
pub open spec fn pow10(e: nat) -> nat
    decreases e,
{
    if e == 0 {
        1
    } else {
        10 * pow10((e - 1) as nat)
    }
}

pub proof fn lemma_pow10_pos(e: nat)
    ensures
        pow10(e) >= 1,
    decreases e,
{
    if e > 0 {
        lemma_pow10_pos((e - 1) as nat);
    }
}

proof fn lemma_pow10_values()
    ensures
        pow10(0) == 1,
        pow10(1) == 10,
        pow10(2) == 100,
        pow10(3) == 1000,
        pow10(4) == 10000,
        pow10(5) == 100000,
        pow10(6) == 1000000,
        pow10(7) == 10000000,
        pow10(8) == 100000000,
        pow10(9) == 1000000000,
{
    assert(pow10(0) == 1);
    assert(pow10(1) == 10);
    assert(pow10(2) == 100);
    assert(pow10(3) == 1000);
    assert(pow10(4) == 10000);
    assert(pow10(5) == 100000);
    assert(pow10(6) == 1000000);
    assert(pow10(7) == 10000000);
    assert(pow10(8) == 100000000);
    assert(pow10(9) == 1000000000);
}

impl Scale {
    /// The denominator exponent is bounded so that cross-multiplied
    /// comparisons fit in machine arithmetic.
    pub open spec fn wf(self) -> bool {
        self.den_pow <= 9
    }

    /// The safe default scale, exactly 1.
    pub open spec fn one_spec() -> Scale {
        Scale { num: 1, den_pow: 0 }
    }

    pub fn one() -> (r: Scale)
        ensures
            r == Scale::one_spec(),
            r.wf(),
    {
        Scale { num: 1, den_pow: 0 }
    }
}

/// Numeric order on scales: `a.num / 10^a.den_pow <= b.num / 10^b.den_pow`,
/// stated by cross-multiplication.
pub open spec fn scale_le(a: Scale, b: Scale) -> bool {
    a.num * pow10(b.den_pow as nat) <= b.num * pow10(a.den_pow as nat)
}

/// The order is total: any two scales compare one way or the other, so a
/// maximum taken over it is deterministic and no comparison is ever
/// unordered.
pub proof fn lemma_scale_le_total(a: Scale, b: Scale)
    ensures
        scale_le(a, b) || scale_le(b, a),
{
}

/// The order is transitive.
pub proof fn lemma_scale_le_trans(a: Scale, b: Scale, c: Scale)
    requires
        scale_le(a, b),
        scale_le(b, c),
    ensures
        scale_le(a, c),
{
    let pa = pow10(a.den_pow as nat);
    let pb = pow10(b.den_pow as nat);
    let pc = pow10(c.den_pow as nat);
    lemma_pow10_pos(a.den_pow as nat);
    lemma_pow10_pos(b.den_pow as nat);
    lemma_pow10_pos(c.den_pow as nat);
    assert(a.num * pb * pc <= b.num * pa * pc) by (nonlinear_arith)
        requires
            a.num * pb <= b.num * pa,
            pc >= 1,
    ;
    assert(b.num * pc * pa <= c.num * pb * pa) by (nonlinear_arith)
        requires
            b.num * pc <= c.num * pb,
            pa >= 1,
    ;
    assert(b.num * pa * pc == b.num * pc * pa) by (nonlinear_arith);
    assert(a.num * pc * pb <= c.num * pa * pb) by (nonlinear_arith)
        requires
            a.num * pb * pc <= c.num * pb * pa,
    ;
    assert(a.num * pc <= c.num * pa) by (nonlinear_arith)
        requires
            a.num * pc * pb <= c.num * pa * pb,
            pb >= 1,
    ;
}

/// `10^e` for `e <= 9`, as a machine integer.
pub fn pow10_u64(e: u32) -> (r: u64)
    requires
        e <= 9,
    ensures
        r == pow10(e as nat),
        1 <= r <= 1000000000,
{
    proof {
        lemma_pow10_values();
    }
    if e == 0 {
        1
    } else if e == 1 {
        10
    } else if e == 2 {
        100
    } else if e == 3 {
        1000
    } else if e == 4 {
        10000
    } else if e == 5 {
        100000
    } else if e == 6 {
        1000000
    } else if e == 7 {
        10000000
    } else if e == 8 {
        100000000
    } else {
        1000000000
    }
}

/// Decide `scale_le` on well-formed scales by cross-multiplying in 128-bit
/// arithmetic, which cannot overflow for bounded denominators.
pub fn scale_le_exec(a: &Scale, b: &Scale) -> (r: bool)
    requires
        a.wf(),
        b.wf(),
    ensures
        r == scale_le(*a, *b),
{
    let pa = pow10_u64(a.den_pow);
    let pb = pow10_u64(b.den_pow);
    proof {
        assert(a.num * pb <= 0xffff_ffff_ffff_ffffu64 * 1000000000u64) by (nonlinear_arith)
            requires
                a.num <= 0xffff_ffff_ffff_ffffu64,
                pb <= 1000000000u64,
        ;
        assert(b.num * pa <= 0xffff_ffff_ffff_ffffu64 * 1000000000u64) by (nonlinear_arith)
            requires
                b.num <= 0xffff_ffff_ffff_ffffu64,
                pa <= 1000000000u64,
        ;
    }
    let left: u128 = (a.num as u128) * (pb as u128);
    let right: u128 = (b.num as u128) * (pa as u128);
    left <= right
}

} // verus!
