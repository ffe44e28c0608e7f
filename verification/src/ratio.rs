//! How much of a split its first half gets.
//!
//! A ratio is a single-precision number, held by its bits, and it divides a length the way
//! single-precision arithmetic does: the product is rounded to twenty-four significant bits, ties
//! to even, and then to the nearest cell, ties away from zero.

use vstd::prelude::*;

verus! {

/// A ratio, by the bits of the single-precision number it is.
#[derive(Debug, Clone, Copy, PartialEq, Eq, Structural)]
pub struct Ratio {
    pub bits: u32,
}

/// The bits of 0.1.
///
/// Neither child may be squeezed out of existence: a split that reads as "closed" is a surprise,
/// and 10% is already narrow enough to be unusable for an editor.
pub const MIN_RATIO: u32 = 0x3dcc_cccd;

/// The bits of 0.9.
pub const MAX_RATIO: u32 = 0x3f66_6666;

/// The bits of 0.5.
pub const HALF: u32 = 0x3f00_0000;

/// The bits of infinity: every larger magnitude is not a number.
pub const INFINITE: u32 = 0x7f80_0000;

/// The sign bit.
pub const SIGN: u32 = 0x8000_0000;

/// The ratio a request comes to: within the bounds, and the middle for what is not a finite number.
pub open spec fn clamp_bits(bits: u32) -> u32 {
    if bits % SIGN >= INFINITE {
        HALF
    } else if bits >= SIGN || bits < MIN_RATIO {
        MIN_RATIO
    } else if bits > MAX_RATIO {
        MAX_RATIO
    } else {
        bits
    }
}

/// The smallest power of two, from `unit` on, whose first 2^24 multiples reach past `p`.
pub open spec fn unit_from(p: nat, unit: nat) -> nat
    decreases p - unit,
{
    if unit == 0 || p < 0x100_0000 * unit {
        unit
    } else {
        unit_from(p, 2 * unit)
    }
}

/// A whole number rounded to twenty-four significant bits: the nearest multiple of the spacing
/// there, the even one of two that are equally near.
pub open spec fn single(p: nat) -> nat {
    let unit = unit_from(p, 1);
    let below = p / unit;
    let over = p % unit;
    if 2 * over < unit || (2 * over == unit && below % 2 == 0) {
        below * unit
    } else {
        (below + 1) * unit
    }
}

/// The significand of a ratio's bits.
pub open spec fn significand(bits: u32) -> nat {
    (bits % 0x80_0000 + 0x80_0000) as nat
}

/// What the significand is divided by, for each exponent a clamped ratio can have.
pub open spec fn divisor(bits: u32) -> nat {
    if bits >= 0x3f00_0000 {
        0x100_0000
    } else if bits >= 0x3e80_0000 {
        0x200_0000
    } else if bits >= 0x3e00_0000 {
        0x400_0000
    } else {
        0x800_0000
    }
}

impl Ratio {
    /// Within the bounds.
    pub open spec fn steady(self) -> bool {
        MIN_RATIO <= self.bits <= MAX_RATIO
    }

    pub open spec fn clamp_view(self) -> Ratio {
        Ratio { bits: clamp_bits(self.bits) }
    }

    /// How much of a length the first half gets, rounded to whole cells.
    pub open spec fn part(self, length: u16) -> nat {
        let product = single(length as nat * significand(self.bits));
        let cells = (product + divisor(self.bits) / 2) / divisor(self.bits);
        if cells <= length {
            cells
        } else {
            length as nat
        }
    }

    /// The middle.
    pub fn half() -> (out: Self)
        ensures
            out == (Ratio { bits: HALF }),
    {
        Ratio { bits: HALF }
    }

    /// Within the bounds; what is not a finite number falls back to the middle.
    pub fn clamped(self) -> (out: Self)
        ensures
            out == self.clamp_view(),
    {
        if self.bits % SIGN >= INFINITE {
            Ratio { bits: HALF }
        } else if self.bits >= SIGN || self.bits < MIN_RATIO {
            Ratio { bits: MIN_RATIO }
        } else if self.bits > MAX_RATIO {
            Ratio { bits: MAX_RATIO }
        } else {
            self
        }
    }

    /// How much of a length the first half gets, rounded to whole cells.
    pub fn part_of(self, length: u16) -> (out: u16)
        ensures
            out == self.part(length),
            out <= length,
    {
        let bits: u32 = self.bits;
        let m: u64 = (bits % 0x80_0000) as u64 + 0x80_0000;
        assert(m == significand(bits));
        assert(0 <= length * m <= 0xffff * 0xff_ffff) by (nonlinear_arith)
            requires
                0 <= length <= 0xffff,
                0 <= m <= 0xff_ffff,
        ;
        let p: u64 = length as u64 * m;
        let mut unit: u64 = 1;
        while p >= 0x100_0000 * unit
            invariant
                p <= 0xffff * 0xff_ffff,
                1 <= unit <= 0x2_0000,
                unit_from(p as nat, 1) == unit_from(p as nat, unit as nat),
            decreases 0x2_0000 - unit,
        {
            unit = unit * 2;
        }
        let below: u64 = p / unit;
        let over: u64 = p % unit;
        proof {
            assert(below <= p) by (nonlinear_arith)
                requires
                    below == p / unit,
                    unit >= 1,
                    p >= 0,
            ;
            assert(below < 0x100_0000) by (nonlinear_arith)
                requires
                    below == p / unit,
                    unit >= 1,
                    p < 0x100_0000 * unit,
            ;
            assert((below + 1) * unit <= 0x100_0000 * 0x2_0000) by (nonlinear_arith)
                requires
                    below < 0x100_0000,
                    1 <= unit <= 0x2_0000,
            ;
            assert(0 <= below * unit <= 0x100_0000 * 0x2_0000) by (nonlinear_arith)
                requires
                    0 <= below < 0x100_0000,
                    1 <= unit <= 0x2_0000,
            ;
        }
        let product: u64 = if 2 * over < unit || (2 * over == unit && below % 2 == 0) {
            below * unit
        } else {
            (below + 1) * unit
        };
        assert(product == single((length * m) as nat));
        let d: u64 = if bits >= 0x3f00_0000 {
            0x100_0000
        } else if bits >= 0x3e80_0000 {
            0x200_0000
        } else if bits >= 0x3e00_0000 {
            0x400_0000
        } else {
            0x800_0000
        };
        let cells: u64 = (product + d / 2) / d;
        if cells <= length as u64 {
            cells as u16
        } else {
            length
        }
    }
}

// ---------------------------------------------------------------------------------------------
// Laws

/// Clamping keeps a ratio within its bounds, and leaves one alone that already is.
pub proof fn law_clamping_bounds_a_ratio(ratio: Ratio)
    ensures
        ratio.clamp_view().steady(),
        ratio.steady() ==> ratio.clamp_view() == ratio,
{
}

proof fn lemma_unit(p: nat, unit: nat)
    requires
        unit >= 1,
        unit == 1 || p >= 0x80_0000 * unit,
    ensures
        unit_from(p, unit) >= 1,
        p < 0x100_0000 * unit_from(p, unit),
        unit_from(p, unit) == 1 || p >= 0x80_0000 * unit_from(p, unit),
    decreases p - unit,
{
    if p >= 0x100_0000 * unit {
        lemma_unit(p, 2 * unit);
    }
}

/// Rounding to single precision moves a number by at most one part in 2^24.
proof fn lemma_single_near(p: nat)
    ensures
        0x100_0000 * single(p) <= 0x100_0001 * p,
        0x100_0000 * single(p) >= 0xff_ffff * p,
{
    let unit = unit_from(p, 1);
    lemma_unit(p, 1);
    let below = p / unit;
    let over = p % unit;
    assert(p == below * unit + over && 0 <= over < unit) by (nonlinear_arith)
        requires
            below == p / unit,
            over == p % unit,
            unit >= 1,
    ;
    assert((below + 1) * unit == below * unit + unit) by (nonlinear_arith);
    if unit == 1 {
        assert(over == 0);
    } else {
        assert(2 * (single(p) - p) <= unit && 2 * (p - single(p)) <= unit);
    }
}

/// A clamped ratio never squeezes a pane away: from six cells on, each half gets at least one.
pub proof fn law_no_half_is_squeezed_away(ratio: Ratio, length: u16)
    requires
        ratio.steady(),
        length >= 6,
    ensures
        1 <= ratio.part(length) < length,
{
    let m = significand(ratio.bits);
    let d = divisor(ratio.bits);
    let p = length as nat * m;
    lemma_single_near(p);
    let product = single(p);
    // The bounds in whole numbers: a tenth of the length, and nine tenths of it.
    assert(10 * m >= d && 10 * m <= 9 * d);
    assert(10 * p >= length * d && 10 * p <= 9 * (length * d)) by (nonlinear_arith)
        requires
            p == length * m,
            10 * m >= d,
            10 * m <= 9 * d,
            length >= 0,
    ;
    let whole = length * d;
    assert(whole >= 6 * d) by (nonlinear_arith)
        requires
            whole == length * d,
            length >= 6,
            d >= 0,
    ;
    let cells = (product + d / 2) / d;
    assert(product + d / 2 >= d);
    assert(cells >= 1) by (nonlinear_arith)
        requires
            product + d / 2 >= d,
            cells == (product + d / 2) / d,
            d > 0,
    ;
    assert(product + d / 2 < whole);
    assert(cells < length) by (nonlinear_arith)
        requires
            product + d / 2 < whole,
            whole == length * d,
            cells == (product + d / 2) / d,
            d > 0,
    ;
}

/// A request outside the bounds comes to the nearer one, and what is no finite number to the middle.
pub proof fn law_a_request_comes_to_the_nearest_ratio(ratio: Ratio)
    ensures
        ({
            let magnitude = ratio.bits % 0x8000_0000;
            let negative = ratio.bits >= 0x8000_0000;
            let got = ratio.clamp_view().bits;
            &&& magnitude >= 0x7f80_0000 ==> got == 0x3f00_0000
            &&& magnitude < 0x7f80_0000 && negative ==> got == 0x3dcc_cccd
            &&& magnitude < 0x7f80_0000 && !negative && ratio.bits < 0x3dcc_cccd ==> got
                == 0x3dcc_cccd
            &&& magnitude < 0x7f80_0000 && !negative && ratio.bits > 0x3f66_6666 ==> got
                == 0x3f66_6666
            &&& 0x3dcc_cccd <= ratio.bits <= 0x3f66_6666 ==> got == ratio.bits
        }),
{
}

/// Rounding to single precision takes the nearest number that has twenty-four significant bits, and
/// of two that are equally near the even one.
pub proof fn law_rounding_takes_the_nearest(p: nat)
    ensures
        ({
            let unit = unit_from(p, 1);
            let k = single(p) / unit;
            &&& unit >= 1
            &&& p < 0x100_0000 * unit
            &&& unit == 1 || p >= 0x80_0000 * unit
            &&& single(p) == k * unit
            &&& 2 * (single(p) - p) <= unit
            &&& 2 * (p - single(p)) <= unit
            &&& 2 * (single(p) - p) == unit || 2 * (p - single(p)) == unit ==> k % 2 == 0
        }),
        p < 0x100_0000 ==> single(p) == p,
{
    let unit = unit_from(p, 1);
    lemma_unit(p, 1);
    let below = p / unit;
    let over = p % unit;
    assert(p == below * unit + over && 0 <= over < unit) by (nonlinear_arith)
        requires
            below == p / unit,
            over == p % unit,
            unit >= 1,
    ;
    assert((below + 1) * unit == below * unit + unit) by (nonlinear_arith);
    assert((below * unit) / unit == below) by (nonlinear_arith)
        requires
            unit >= 1,
    ;
    assert(((below + 1) * unit) / unit == below + 1) by (nonlinear_arith)
        requires
            unit >= 1,
    ;
}

/// A part of a length is the whole number of cells nearest to the product of the two, a half rounded
/// up, and never more than the length.
pub proof fn law_a_part_is_the_nearest_number_of_cells(ratio: Ratio, length: u16)
    ensures
        ({
            let product = single(length as nat * significand(ratio.bits));
            let d = divisor(ratio.bits);
            let cells = ratio.part(length);
            &&& cells <= length
            &&& 2 * (cells * d) <= 2 * product + d
            &&& cells < length ==> 2 * product + d < 2 * (cells * d) + 2 * d
        }),
{
    let product = single(length as nat * significand(ratio.bits));
    let d = divisor(ratio.bits);
    let cells = (product + d / 2) / d;
    assert(cells * d <= product + d / 2 < cells * d + d) by (nonlinear_arith)
        requires
            cells == (product + d / 2) / d,
            d > 0,
            product >= 0,
    ;
    if cells > length {
        assert(length * d <= cells * d) by (nonlinear_arith)
            requires
                cells > length,
                d > 0,
        ;
    }
}

/// A ratio's number is its significand over a power of two: from one half on over 2^24, and twice as
/// much for each halving below.
pub proof fn law_a_halved_ratio_has_twice_the_divisor(bits: u32)
    requires
        0x3e00_0000 <= bits < 0x3f80_0000,
    ensures
        divisor(0x3f00_0000) == 0x100_0000,
        divisor((bits - 0x80_0000) as u32) == 2 * divisor(bits),
        significand((bits - 0x80_0000) as u32) == significand(bits),
{
}

} // verus!
