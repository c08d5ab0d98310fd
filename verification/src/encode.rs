//! Inverse tone response curves, as the shader takes them.
use crate::binary::{at_least, at_most_zero, narrow, same_number, to_binary32, SIGN32};
use crate::number::Fixed;
use crate::trc::{Exponent, Light, Trc};
use vstd::prelude::*;

verus! {

/// What evaluating a curve's powers and logarithms gave, as binary64 patterns.
#[derive(Debug, Clone, Copy, PartialEq, Eq, Structural)]
pub struct CurveValues {
    /// The exponent of the curve.
    pub g: u64,
    /// The linear light at the join.
    pub y_join: u64,
    /// The exponent of the pure power law through the curve's midpoint: not a
    /// number where the midpoint makes no light.
    pub effective_gamma: u64,
}

/// One channel's inverse TRC, as the shader consumes it: linear light `Y` to
/// drive value `X`, inverting [`Trc`]. Each coefficient is a binary32 pattern.
///
/// ```text
/// X = ((Y - e)^(1/g) - b) / a   for Y >= y_join
/// X = (Y - f) / c               for Y <  y_join
/// ```
///
/// Two are equal where their coefficients are, as numbers: both zeros are equal,
/// and what is not a number equals nothing.
#[derive(Debug, Clone, Copy)]
pub struct TrcEncode {
    pub g: u32,
    pub a: u32,
    pub b: u32,
    pub c: u32,
    pub e: u32,
    pub f: u32,
    pub y_join: u32,
}

/// A drive value, told by the formula that gives it. The operands are binary32
/// patterns.
#[derive(Debug, Clone, Copy, PartialEq, Eq, Structural)]
pub enum Drive {
    /// `(max(light - offset, 0)^(1/exponent) - shift) / scale`.
    Curve { light: u32, offset: u32, exponent: u32, shift: u32, scale: u32 },
    /// `(light - offset) / slope`.
    Line { light: u32, offset: u32, slope: u32 },
}

/// Whether `bits` is the binary32 pattern that a fixed-point number rounds to.
pub open spec fn fixed_rounds_to(bits: u32, value: Fixed) -> bool {
    crate::binary::rounds_to(bits, value.0 as int, 0x1_0000)
}

fn round_fixed(value: Fixed) -> (bits: u32)
    ensures
        fixed_rounds_to(bits, value),
{
    to_binary32(value.0 as i128, 0x1_0000)
}

/// Whether `bits` is the binary32 pattern of an exponent, which was evaluated
/// to `value` where it is not exact.
pub open spec fn exponent_rounds_to(bits: u32, exponent: Exponent, value: u64) -> bool {
    match exponent {
        Exponent::Exact(ratio) => crate::binary::rounds_to(bits, ratio.num as int, ratio.den as int),
        Exponent::Through { .. } => crate::binary::narrows_to(bits, value),
    }
}

/// Whether the shader would get zero for an exponent, which was evaluated to
/// `value` where it is not exact. It takes the reciprocal of the exponent.
pub open spec fn vanishes(exponent: Exponent, value: u64) -> bool {
    match exponent {
        Exponent::Exact(ratio) => ratio.num == 0,
        Exponent::Through { .. } => crate::binary::narrows_to_zero(value),
    }
}

/// Whether the shader would get zero for an exponent.
pub fn is_vanishing(exponent: &Exponent, value: u64) -> (holds: bool)
    ensures
        holds == vanishes(*exponent, value),
{
    match exponent {
        Exponent::Exact(ratio) => ratio.num == 0,
        Exponent::Through { .. } => {
            let bits: u32 = narrow(value);
            proof {
                crate::binary::lemma_narrows_to_zero(bits, value);
            }
            bits == 0 || bits == SIGN32
        },
    }
}

/// Whether `bits` is the binary32 pattern of linear light, which was evaluated
/// to `value` where it is not exact.
pub open spec fn light_rounds_to(bits: u32, light: Light, value: u64) -> bool {
    match light {
        Light::Exact(ratio) => crate::binary::rounds_to(bits, ratio.num as int, ratio.den as int),
        Light::Power { .. } => crate::binary::narrows_to(bits, value),
    }
}

/// Whether there is no light, or less, where linear light was evaluated to
/// `value` unless it is exact.
pub open spec fn dark(light: Light, value: u64) -> bool {
    match light {
        Light::Exact(ratio) => ratio.num <= 0,
        Light::Power { .. } => !crate::binary::nan64(value) && crate::binary::value64(value) <= 0,
    }
}

/// Whether no light falls on a curve's linear segment: it has no slope, or
/// ends in the dark.
pub open spec fn without_toe(curve: Trc, values: CurveValues) -> bool {
    curve.c.0 == 0 || dark(curve.upper(curve.d), values.y_join)
}

/// Whether these are the coefficients that invert a curve. Where no light falls
/// on the linear segment its slope is one and the join is zero.
pub open spec fn inverts(encode: TrcEncode, curve: Trc, values: CurveValues) -> bool {
    &&& exponent_rounds_to(encode.g, curve.g, values.g)
    &&& fixed_rounds_to(encode.a, curve.a)
    &&& fixed_rounds_to(encode.b, curve.b)
    &&& fixed_rounds_to(encode.e, curve.e)
    &&& fixed_rounds_to(encode.f, curve.f)
    &&& if without_toe(curve, values) {
        encode.c == 0x3f80_0000 && encode.y_join == 0
    } else {
        fixed_rounds_to(encode.c, curve.c) && light_rounds_to(
            encode.y_join,
            curve.upper(curve.d),
            values.y_join,
        )
    }
}

impl PartialEq for TrcEncode {
    fn eq(&self, other: &TrcEncode) -> (equal: bool) {
        same_number(self.g, other.g) && same_number(self.a, other.a) && same_number(
            self.b,
            other.b,
        ) && same_number(self.c, other.c) && same_number(self.e, other.e) && same_number(
            self.f,
            other.f,
        ) && same_number(self.y_join, other.y_join)
    }
}

impl vstd::std_specs::cmp::PartialEqSpecImpl for TrcEncode {
    open spec fn obeys_eq_spec() -> bool {
        true
    }

    open spec fn eq_spec(&self, other: &TrcEncode) -> bool {
        self.same(*other)
    }
}

impl TrcEncode {
    /// Whether this and another hold the same coefficients.
    pub open spec fn same(self, other: TrcEncode) -> bool {
        &&& crate::binary::equal32(self.g, other.g)
        &&& crate::binary::equal32(self.a, other.a)
        &&& crate::binary::equal32(self.b, other.b)
        &&& crate::binary::equal32(self.c, other.c)
        &&& crate::binary::equal32(self.e, other.e)
        &&& crate::binary::equal32(self.f, other.f)
        &&& crate::binary::equal32(self.y_join, other.y_join)
    }

    /// The coefficients that invert a curve, whose powers and logarithms were
    /// evaluated to `values`.
    pub fn from_trc(t: &Trc, values: &CurveValues) -> (encode: TrcEncode)
        requires
            t.wf(),
        ensures
            inverts(encode, *t, *values),
    {
        let (no_light, y_join): (bool, u32) = match t.y_join() {
            Light::Exact(ratio) => (ratio.num <= 0, to_binary32(ratio.num, ratio.den)),
            Light::Power { .. } => (at_most_zero(values.y_join), narrow(values.y_join)),
        };
        // Both shader branches are always evaluated, so the unused one must
        // still be finite. Where the linear segment is unreachable (y_join 0,
        // which is every pure-gamma curve) c is free, so make it a safe 1.
        let (c, y_join): (u32, u32) = if t.c.0 == 0 || no_light {
            (0x3f80_0000, 0)
        } else {
            (round_fixed(t.c), y_join)
        };
        TrcEncode {
            g: match t.g {
                Exponent::Exact(ratio) => to_binary32(ratio.num, ratio.den),
                Exponent::Through { .. } => narrow(values.g),
            },
            a: round_fixed(t.a),
            b: round_fixed(t.b),
            c,
            e: round_fixed(t.e),
            f: round_fixed(t.f),
            y_join,
        }
    }

    /// Whether light falls on the curve, and not on its linear segment.
    pub open spec fn on_curve(self, y: u32) -> bool {
        &&& !crate::binary::nan32(y)
        &&& !crate::binary::nan32(self.y_join)
        &&& crate::binary::value32(y) >= crate::binary::value32(self.y_join)
    }

    /// The formula that the shader gives a drive value by.
    pub open spec fn formula(self, y: u32) -> Drive {
        if self.on_curve(y) {
            Drive::Curve {
                light: y,
                offset: self.e,
                exponent: self.g,
                shift: self.b,
                scale: self.a,
            }
        } else {
            Drive::Line { light: y, offset: self.f, slope: self.c }
        }
    }

    /// Encode: linear light → drive value. Takes the branch that the shader
    /// takes.
    pub fn encode(&self, y: u32) -> (drive: Drive)
        ensures
            drive == self.formula(y),
            drive == (if self.on_curve(y) {
                Drive::Curve {
                    light: y,
                    offset: self.e,
                    exponent: self.g,
                    shift: self.b,
                    scale: self.a,
                }
            } else {
                Drive::Line { light: y, offset: self.f, slope: self.c }
            }),
    {
        if at_least(y, self.y_join) {
            Drive::Curve {
                light: y,
                offset: self.e,
                exponent: self.g,
                shift: self.b,
                scale: self.a,
            }
        } else {
            Drive::Line { light: y, offset: self.f, slope: self.c }
        }
    }
}

/// The slope that the shader divides by is finite and not zero, whatever the
/// curve: the branch that goes unused is still finite.
pub proof fn lemma_slope_is_divisor(encode: TrcEncode, curve: Trc, values: CurveValues)
    requires
        inverts(encode, curve, values),
    ensures
        0 < crate::binary::magnitude32(encode.c) < crate::binary::INFINITY32,
{
    if !without_toe(curve, values) {
        crate::binary::lemma_fixed_stays_nonzero(encode.c, curve.c.0);
    }
}

/// The exponent whose reciprocal the shader takes is zero only where it
/// vanishes.
pub proof fn lemma_exponent_is_divisor(encode: TrcEncode, curve: Trc, values: CurveValues)
    requires
        curve.wf(),
        inverts(encode, curve, values),
    ensures
        vanishes(curve.g, values.g) <==> crate::binary::magnitude32(encode.g) == 0,
{
    match curve.g {
        Exponent::Exact(ratio) => {
            if ratio.num != 0 {
                crate::binary::lemma_quotient_stays_nonzero(
                    encode.g,
                    ratio.num as int,
                    ratio.den as int,
                );
            } else {
                assert(0 * ratio.den == 0 && 0 * vstd::arithmetic::power2::pow2(149) == 0);
                crate::binary::lemma_exact_numbers_stay(encode.g, 0, 0, ratio.den as int);
            }
        },
        Exponent::Through { .. } => {
            crate::binary::lemma_narrows_to_zero(encode.g, values.g);
        },
    }
}

/// A pure power law has no linear segment: its join is zero, so all light falls
/// on the curve, and the slope is one.
pub proof fn lemma_power_law_has_no_toe(encode: TrcEncode, g: Exponent, values: CurveValues, y: u32)
    requires
        inverts(encode, Trc::power_law(g), values),
    ensures
        encode.y_join == 0,
        encode.c == 0x3f80_0000,
        !crate::binary::nan32(y) && !crate::binary::negative32(y) ==> encode.on_curve(y),
{
}

} // verus!
