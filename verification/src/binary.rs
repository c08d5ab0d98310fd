//! Bit patterns of the IEEE 754 interchange formats.
//!
//! The shader takes its numbers as binary32 words and the curve evaluation
//! hands over binary64 words. Both are carried here as plain integers. What a
//! pattern stands for is stated over its *units*, the smallest positive number
//! of the format: 2^-149 for binary32 and 2^-1074 for binary64.
use vstd::arithmetic::div_mod::*;
use vstd::arithmetic::power2::*;
use vstd::prelude::*;

verus! {

/// One more than the largest fraction field of a binary32 pattern.
pub const FRACTION32: u32 = 0x0080_0000;

/// The sign bit of a binary32 pattern.
pub const SIGN32: u32 = 0x8000_0000;

/// The binary32 pattern of positive infinity.
pub const INFINITY32: u32 = 0x7f80_0000;

/// One more than the largest fraction field of a binary64 pattern.
pub const FRACTION64: u64 = 0x0010_0000_0000_0000;

/// The sign bit of a binary64 pattern.
pub const SIGN64: u64 = 0x8000_0000_0000_0000;

/// The binary64 pattern of positive infinity.
pub const INFINITY64: u64 = 0x7ff0_0000_0000_0000;

/// The number, in units, of a pattern without its sign bit, in a format whose
/// fraction field counts up to `fraction`. Infinity gets the number that would
/// follow the largest finite one.
pub open spec fn units(fraction: nat, magnitude: nat) -> nat {
    if magnitude < fraction {
        magnitude
    } else {
        (magnitude % fraction + fraction) * pow2((magnitude / fraction - 1) as nat)
    }
}

/// A significand and an exponent, put side by side in a pattern, stand for
/// their product. A significand that has just overflowed stands for the right
/// number too.
proof fn lemma_units_of_parts(fraction: nat, significand: nat, exponent: nat)
    requires
        0 < fraction,
        significand <= 2 * fraction,
        fraction <= significand || exponent == 0,
    ensures
        units(fraction, exponent * fraction + significand) == significand * pow2(exponent),
{
    let magnitude: nat = exponent * fraction + significand;
    lemma2_to64();
    if significand < fraction {
        assert(magnitude == significand);
    } else if significand < 2 * fraction {
        let rest: int = significand - fraction;
        assert((exponent + 1) * fraction + rest == magnitude) by (nonlinear_arith)
            requires
                rest == significand - fraction,
                magnitude == exponent * fraction + significand,
        ;
        lemma_fundamental_div_mod_converse(
            magnitude as int,
            fraction as int,
            (exponent + 1) as int,
            rest,
        );
        assert(magnitude >= fraction) by (nonlinear_arith)
            requires
                magnitude == exponent * fraction + significand,
                significand >= fraction,
        ;
    } else {
        assert((exponent + 2) * fraction + 0 == magnitude) by (nonlinear_arith)
            requires
                significand == 2 * fraction,
                magnitude == exponent * fraction + significand,
        ;
        lemma_fundamental_div_mod_converse(magnitude as int, fraction as int, (exponent + 2) as int, 0);
        assert(magnitude >= fraction) by (nonlinear_arith)
            requires
                magnitude == exponent * fraction + significand,
                significand >= fraction,
        ;
        lemma_pow2_unfold(exponent + 1);
        assert(fraction * pow2((exponent + 1) as nat) == significand * pow2(exponent))
            by (nonlinear_arith)
            requires
                significand == 2 * fraction,
                pow2((exponent + 1) as nat) == 2 * pow2(exponent),
        ;
    }
}

/// Every pattern splits into a significand and an exponent.
proof fn lemma_parts_of_magnitude(fraction: nat, magnitude: nat) -> (parts: (nat, nat))
    requires
        0 < fraction,
    ensures
        parts.0 < 2 * fraction,
        fraction <= parts.0 || parts.1 == 0,
        magnitude == parts.1 * fraction + parts.0,
{
    if magnitude < fraction {
        (magnitude, 0)
    } else {
        lemma_fundamental_div_mod(magnitude as int, fraction as int);
        lemma_mod_bound(magnitude as int, fraction as int);
        let quotient: nat = magnitude / fraction;
        assert(quotient >= 1) by {
            if quotient == 0 {
                assert(fraction * quotient == 0) by (nonlinear_arith)
                    requires
                        quotient == 0,
                ;
            }
        }
        let exponent: nat = (quotient - 1) as nat;
        let significand: nat = fraction + magnitude % fraction;
        assert(magnitude == exponent * fraction + significand) by (nonlinear_arith)
            requires
                magnitude == fraction * quotient + magnitude % fraction,
                exponent == quotient - 1,
                significand == fraction + magnitude % fraction,
        ;
        (significand, exponent)
    }
}

/// Patterns without a sign bit are ordered as the numbers they stand for.
pub proof fn lemma_units_increase(fraction: nat, a: nat, b: nat)
    requires
        0 < fraction,
        a < b,
    ensures
        units(fraction, a) < units(fraction, b),
    decreases b - a,
{
    if a + 1 < b {
        lemma_units_increase(fraction, a, (b - 1) as nat);
    }
    let below: nat = (b - 1) as nat;
    let (significand, exponent) = lemma_parts_of_magnitude(fraction, below);
    lemma_units_of_parts(fraction, significand, exponent);
    lemma_units_of_parts(fraction, significand + 1, exponent);
    lemma_pow2_pos(exponent);
    assert(significand * pow2(exponent) < (significand + 1) * pow2(exponent)) by (nonlinear_arith)
        requires
            pow2(exponent) > 0,
    ;
}

/// How far a binary32 magnitude lies from `num / den` units, times `den`.
pub open spec fn distance(magnitude: nat, num: nat, den: nat) -> int {
    let exact: int = units(FRACTION32 as nat, magnitude) * den - num;
    if exact < 0 {
        -exact
    } else {
        exact
    }
}

/// Whether `num / den` units reach half a step beyond the largest finite
/// binary32 number.
pub open spec fn overflows(num: nat, den: nat) -> bool {
    2 * num >= 0x01ff_ffff * pow2(253) * den
}

/// Whether `magnitude` is what `num / den` units round to: the nearest finite
/// binary32 number, the one with an even fraction where two are as near, and
/// infinity where the number overflows.
pub open spec fn nearest(magnitude: nat, num: nat, den: nat) -> bool {
    if overflows(num, den) {
        magnitude == INFINITY32
    } else {
        &&& magnitude < INFINITY32
        &&& forall|other: nat|
            other < INFINITY32 ==> distance(magnitude, num, den) <= #[trigger] distance(
                other,
                num,
                den,
            )
        &&& forall|other: nat|
            other < INFINITY32 && other != magnitude && #[trigger] distance(other, num, den)
                == distance(magnitude, num, den) ==> magnitude % 2 == 0
    }
}

/// A number rounds to one pattern only.
pub proof fn lemma_nearest_is_unique(a: nat, b: nat, num: nat, den: nat)
    requires
        den > 0,
        nearest(a, num, den),
        nearest(b, num, den),
    ensures
        a == b,
{
    if a != b {
        let low: nat = if a < b {
            a
        } else {
            b
        };
        let high: nat = if a < b {
            b
        } else {
            a
        };
        let f: nat = FRACTION32 as nat;
        assert(distance(low, num, den) == distance(high, num, den));
        let between: nat = low + 1;
        lemma_units_increase(f, low, between);
        if between < high {
            lemma_units_increase(f, between, high);
            assert(units(f, low) * den < units(f, between) * den < units(f, high) * den)
                by (nonlinear_arith)
                requires
                    units(f, low) < units(f, between) < units(f, high),
                    den > 0,
            ;
            assert(distance(low, num, den) <= distance(between, num, den));
            assert(false);
        } else {
            assert(low % 2 == 0 && high % 2 == 0);
            assert(false);
        }
    }
}

/// A significand with one more bit than fits, rounded half to even.
spec fn rounded(significand: nat, exponent: nat, inexact: bool) -> nat {
    let kept: nat = significand / 2;
    let up: bool = significand % 2 == 1 && (inexact || kept % 2 == 1);
    if exponent > 253 {
        INFINITY32 as nat
    } else {
        exponent * (FRACTION32 as nat) + kept + (if up {
            1nat
        } else {
            0nat
        })
    }
}

/// Rounding the significand half to even gives the nearest binary32 number.
proof fn lemma_rounded_is_nearest(
    significand: nat,
    exponent: nat,
    inexact: bool,
    rest: nat,
    num: nat,
    den: nat,
)
    requires
        den > 0,
        significand < 0x0200_0000,
        significand >= 0x0100_0000 || exponent == 0,
        2 * num == significand * (pow2(exponent) * den) + rest,
        rest < pow2(exponent) * den,
        inexact <==> rest != 0,
    ensures
        nearest(rounded(significand, exponent, inexact), num, den),
{
    let f: nat = FRACTION32 as nat;
    let step: nat = pow2(exponent) * den;
    let kept: nat = significand / 2;
    let odd: nat = significand % 2;
    let low: nat = exponent * f + kept;
    let high: nat = low + 1;
    lemma_pow2_pos(exponent);
    lemma_units_of_parts(f, kept, exponent);
    lemma_units_of_parts(f, kept + 1, exponent);
    assert(step > 0) by (nonlinear_arith)
        requires
            step == pow2(exponent) * den,
            pow2(exponent) > 0,
            den > 0,
    ;
    assert(units(f, low) * den == kept * step) by (nonlinear_arith)
        requires
            units(f, low) == kept * pow2(exponent),
            step == pow2(exponent) * den,
    ;
    assert(units(f, high) * den == kept * step + step) by (nonlinear_arith)
        requires
            units(f, high) == (kept + 1) * pow2(exponent),
            step == pow2(exponent) * den,
    ;
    assert(2 * num == 2 * (kept * step) + odd * step + rest) by (nonlinear_arith)
        requires
            2 * num == significand * step + rest,
            significand == 2 * kept + odd,
    ;
    assert(odd == 0 ==> odd * step == 0);
    assert(odd == 1 ==> odd * step == step);

    let picked: nat = rounded(significand, exponent, inexact);
    let top: nat = 0x01ff_ffff * pow2(253) * den;
    lemma_pow2_pos(253);
    assert(0x01ff_ffff * pow2(253) * den == 0x01ff_ffff * (pow2(253) * den)) by (nonlinear_arith);
    let last: nat = pow2(253) * den;
    if exponent > 253 {
        lemma_pow2_at_least(254, exponent);
        lemma_pow2_unfold(254);
        assert(step >= 2 * last) by (nonlinear_arith)
            requires
                step == pow2(exponent) * den,
                pow2(exponent) >= 2 * pow2(253),
                last == pow2(253) * den,
        ;
        assert(significand * step >= 0x0100_0000 * step) by (nonlinear_arith)
            requires
                significand >= 0x0100_0000,
                step > 0,
        ;
    } else {
        if exponent < 253 {
            lemma_pow2_at_least(exponent, 252);
            lemma_pow2_unfold(253);
            assert(2 * step <= last) by (nonlinear_arith)
                requires
                    step == pow2(exponent) * den,
                    2 * pow2(exponent) <= pow2(253),
                    last == pow2(253) * den,
            ;
            assert(significand * step <= 0x01ff_ffff * step) by (nonlinear_arith)
                requires
                    significand <= 0x01ff_ffff,
            ;
            assert(!overflows(num, den));
            assert(low < 252 * f + 0x0100_0000) by (nonlinear_arith)
                requires
                    exponent <= 252,
                    kept < 0x0100_0000,
                    low == exponent * f + kept,
            ;
        } else if significand == 0x01ff_ffff {
            assert(overflows(num, den));
            assert(picked == INFINITY32);
        } else {
            assert(significand * step <= 0x01ff_fffe * step) by (nonlinear_arith)
                requires
                    significand <= 0x01ff_fffe,
            ;
            assert(!overflows(num, den));
        }
        assert(low % 2 == kept % 2) by {
            assert(exponent * f == 2 * (exponent * 0x0040_0000)) by (nonlinear_arith)
                requires
                    f == 0x0080_0000,
            ;
        }
        if !overflows(num, den) {
            assert forall|other: nat| other < INFINITY32 implies distance(picked, num, den)
                <= #[trigger] distance(other, num, den) && (other != picked && distance(
                other,
                num,
                den,
            ) == distance(picked, num, den) ==> picked % 2 == 0) by {
                if other < low {
                    lemma_units_increase(f, other, low);
                    assert(units(f, other) * den < units(f, low) * den) by (nonlinear_arith)
                        requires
                            units(f, other) < units(f, low),
                            den > 0,
                    ;
                } else if other > high {
                    lemma_units_increase(f, high, other);
                    assert(units(f, other) * den > units(f, high) * den) by (nonlinear_arith)
                        requires
                            units(f, other) > units(f, high),
                            den > 0,
                    ;
                }
            }
        }
    }
}

/// Powers of two do not decrease.
proof fn lemma_pow2_at_least(a: nat, b: nat)
    requires
        a <= b,
    ensures
        pow2(a) <= pow2(b),
{
    if a < b {
        lemma_pow2_strictly_increases(a, b);
    }
}

/// Rounds a significand half to even and puts it beside its exponent.
fn round_half_even(significand: u64, exponent: u64, inexact: bool) -> (magnitude: u32)
    requires
        significand < 0x0200_0000,
    ensures
        magnitude == rounded(significand as nat, exponent as nat, inexact),
{
    if exponent > 253 {
        return INFINITY32;
    }
    let kept: u64 = significand / 2;
    let up: bool = significand % 2 == 1 && (inexact || kept % 2 == 1);
    let magnitude: u64 = exponent * 0x0080_0000 + kept;
    if up {
        (magnitude + 1) as u32
    } else {
        magnitude as u32
    }
}

/// The size of a number, without its sign.
pub open spec fn absolute(num: int) -> nat {
    if num < 0 {
        (-num) as nat
    } else {
        num as nat
    }
}

/// Whether a binary32 pattern has its sign bit set.
pub open spec fn negative32(bits: u32) -> bool {
    bits >= SIGN32
}

/// A binary32 pattern without its sign bit.
pub open spec fn magnitude32(bits: u32) -> nat {
    if bits >= SIGN32 {
        (bits - SIGN32) as nat
    } else {
        bits as nat
    }
}

/// Whether `bits` is the binary32 pattern that the number `num / den` rounds
/// to. A negative number keeps its sign even where it rounds to zero.
pub open spec fn rounds_to(bits: u32, num: int, den: int) -> bool {
    &&& negative32(bits) == (num < 0)
    &&& nearest(magnitude32(bits), absolute(num) * pow2(149), den as nat)
}

/// Rounds the number `num / den` to binary32.
pub fn to_binary32(num: i128, den: i128) -> (bits: u32)
    requires
        den > 0,
    ensures
        rounds_to(bits, num as int, den as int),
{
    let whole: u128 = if num < 0 {
        (-(num + 1)) as u128 + 1
    } else {
        num as u128
    };
    let divisor: u128 = den as u128;
    let mut quotient: u128 = whole / divisor;
    let mut remainder: u128 = whole % divisor;
    let mut doublings: u64 = 0;
    proof {
        lemma2_to64();
        lemma_fundamental_div_mod(whole as int, divisor as int);
        assert(whole * pow2(0) == quotient * divisor + remainder) by (nonlinear_arith)
            requires
                whole == divisor * quotient + remainder,
                pow2(0) == 1,
        ;
    }
    while quotient < 0x0100_0000 && doublings < 150
        invariant
            divisor == den,
            0 < divisor <= i128::MAX,
            remainder < divisor,
            doublings <= 150,
            doublings > 0 ==> quotient < 0x0200_0000,
            whole * pow2(doublings as nat) == quotient * divisor + remainder,
        decreases 150 - doublings,
    {
        let ghost q0: nat = quotient as nat;
        let ghost r0: nat = remainder as nat;
        let twice: u128 = remainder * 2;
        if twice >= divisor {
            quotient = quotient * 2 + 1;
            remainder = twice - divisor;
        } else {
            quotient = quotient * 2;
            remainder = twice;
        }
        proof {
            lemma_pow2_unfold((doublings + 1) as nat);
            let p: nat = pow2(doublings as nat);
            assert(whole * (2 * p) == quotient * divisor + remainder) by (nonlinear_arith)
                requires
                    whole * p == q0 * divisor + r0,
                    quotient * 1 + 0 == 2 * q0 + 1 && remainder == 2 * r0 - divisor || quotient == 2
                        * q0 && remainder == 2 * r0,
            ;
        }
        doublings = doublings + 1;
    }
    let ghost mut rest: nat = remainder as nat;
    let mut inexact: bool = remainder != 0;
    let mut halvings: u64 = 0;
    let ghost scaled: nat = whole as nat * pow2(doublings as nat);
    proof {
        assert(quotient * (pow2(0) * divisor) == quotient * divisor) by (nonlinear_arith)
            requires
                pow2(0) == 1,
        ;
    }
    while quotient >= 0x0200_0000
        invariant
            0 < divisor,
            doublings <= 150,
            doublings > 0 ==> quotient < 0x0200_0000,
            halvings > 0 ==> quotient >= 0x0100_0000,
            quotient >= 0x0100_0000 || doublings == 150,
            quotient as nat * pow2(halvings as nat) <= u128::MAX,
            halvings <= 128,
            scaled == quotient * (pow2(halvings as nat) * divisor) + rest,
            rest < pow2(halvings as nat) * divisor,
            inexact <==> rest != 0,
        decreases quotient,
    {
        let ghost q0: nat = quotient as nat;
        let ghost r0: nat = rest;
        let dropped: u128 = quotient % 2;
        quotient = quotient / 2;
        if dropped == 1 {
            inexact = true;
        }
        proof {
            lemma_pow2_unfold((halvings + 1) as nat);
            let step: nat = pow2(halvings as nat) * divisor as nat;
            let wide: nat = pow2((halvings + 1) as nat) * divisor as nat;
            lemma_pow2_pos(halvings as nat);
            assert(step > 0) by (nonlinear_arith)
                requires
                    step == pow2(halvings as nat) * divisor as nat,
                    pow2(halvings as nat) > 0,
                    divisor > 0,
            ;
            assert(wide == 2 * step) by (nonlinear_arith)
                requires
                    step == pow2(halvings as nat) * divisor as nat,
                    wide == pow2((halvings + 1) as nat) * divisor as nat,
                    pow2((halvings + 1) as nat) == 2 * pow2(halvings as nat),
            ;
            rest = dropped as nat * step + r0;
            assert(q0 * step == quotient * wide + dropped * step) by (nonlinear_arith)
                requires
                    wide == 2 * step,
                    q0 == 2 * quotient + dropped,
            ;
            assert(dropped * step <= step && (dropped * step == 0 <==> dropped == 0))
                by (nonlinear_arith)
                requires
                    dropped <= 1,
                    step > 0,
            ;
            assert(quotient as nat * pow2((halvings + 1) as nat) <= q0 * pow2(halvings as nat))
                by (nonlinear_arith)
                requires
                    pow2((halvings + 1) as nat) == 2 * pow2(halvings as nat),
                    2 * quotient as nat <= q0,
            ;
            assert(halvings < 128) by {
                if halvings == 128 {
                    lemma2_to64();
                    lemma_pow2_adds(64, 64);
                    assert(q0 * pow2(128) > u128::MAX) by (nonlinear_arith)
                        requires
                            q0 >= 0x0200_0000,
                            pow2(128) == pow2(64) * pow2(64),
                            pow2(64) == 0x1_0000_0000_0000_0000,
                    ;
                }
            }
        }
        halvings = halvings + 1;
    }
    let exponent: u64 = 150 - doublings + halvings;
    proof {
        let lift: nat = (150 - doublings) as nat;
        lemma_pow2_adds(doublings as nat, lift);
        lemma_pow2_adds(halvings as nat, lift);
        lemma_pow2_unfold(150);
        let num_units: nat = absolute(num as int) * pow2(149);
        let tail: nat = rest * pow2(lift);
        lemma_pow2_pos(lift);
        let step: nat = pow2(halvings as nat) * divisor as nat;
        assert(2 * num_units == scaled * pow2(lift)) by (nonlinear_arith)
            requires
                num_units == whole * pow2(149),
                pow2(150) == 2 * pow2(149),
                pow2(150) == pow2(doublings as nat) * pow2(lift),
                scaled == whole * pow2(doublings as nat),
        ;
        assert(pow2(exponent as nat) * divisor as nat == step * pow2(lift)) by (nonlinear_arith)
            requires
                pow2(exponent as nat) == pow2(halvings as nat) * pow2(lift),
                step == pow2(halvings as nat) * divisor as nat,
        ;
        assert(scaled * pow2(lift) == quotient * (step * pow2(lift)) + tail) by (nonlinear_arith)
            requires
                scaled == quotient * step + rest,
                tail == rest * pow2(lift),
        ;
        assert(tail < step * pow2(lift)) by (nonlinear_arith)
            requires
                tail == rest * pow2(lift),
                rest < step,
                pow2(lift) > 0,
        ;
        assert(rest != 0 <==> tail != 0) by (nonlinear_arith)
            requires
                tail == rest * pow2(lift),
                pow2(lift) > 0,
        ;
        lemma_rounded_is_nearest(
            quotient as nat,
            exponent as nat,
            inexact,
            tail,
            num_units,
            divisor as nat,
        );
    }
    let magnitude: u32 = round_half_even(quotient as u64, exponent, inexact);
    proof {
        assert(magnitude <= INFINITY32);
    }
    if num < 0 {
        magnitude + SIGN32
    } else {
        magnitude
    }
}

/// Whether a binary32 pattern is not a number.
pub open spec fn nan32(bits: u32) -> bool {
    magnitude32(bits) > INFINITY32
}

/// The number of units that a binary32 pattern stands for, with its sign.
pub open spec fn value32(bits: u32) -> int {
    let size: int = units(FRACTION32 as nat, magnitude32(bits)) as int;
    if negative32(bits) {
        -size
    } else {
        size
    }
}

/// Whether a binary64 pattern has its sign bit set.
pub open spec fn negative64(bits: u64) -> bool {
    bits >= SIGN64
}

/// A binary64 pattern without its sign bit.
pub open spec fn magnitude64(bits: u64) -> nat {
    if bits >= SIGN64 {
        (bits - SIGN64) as nat
    } else {
        bits as nat
    }
}

/// Whether a binary64 pattern is not a number.
pub open spec fn nan64(bits: u64) -> bool {
    magnitude64(bits) > INFINITY64
}

/// The number of units that a binary64 pattern stands for, with its sign.
pub open spec fn value64(bits: u64) -> int {
    let size: int = units(FRACTION64 as nat, magnitude64(bits)) as int;
    if negative64(bits) {
        -size
    } else {
        size
    }
}

/// Whether `bits` is the binary32 pattern that a binary64 number rounds to. A
/// unit of binary32 is 2^925 units of binary64. What is not a number stays so.
pub open spec fn narrows_to(bits: u32, wide: u64) -> bool {
    if nan64(wide) {
        nan32(bits)
    } else {
        &&& negative32(bits) == negative64(wide)
        &&& nearest(
            magnitude32(bits),
            units(FRACTION64 as nat, magnitude64(wide)),
            pow2(925),
        )
    }
}

/// Whether a binary64 number rounds to a binary32 zero, of either sign.
pub open spec fn narrows_to_zero(wide: u64) -> bool {
    &&& !nan64(wide)
    &&& nearest(0, units(FRACTION64 as nat, magnitude64(wide)), pow2(925))
}

/// Whether the number `a` is at least the number `b`, as IEEE 754 has it:
/// both zeros are equal, and nothing holds of what is not a number.
pub fn at_least(a: u32, b: u32) -> (holds: bool)
    ensures
        holds == (!nan32(a) && !nan32(b) && value32(a) >= value32(b)),
{
    let size_a: u32 = if a >= SIGN32 {
        a - SIGN32
    } else {
        a
    };
    let size_b: u32 = if b >= SIGN32 {
        b - SIGN32
    } else {
        b
    };
    proof {
        let f: nat = FRACTION32 as nat;
        if size_a < size_b {
            lemma_units_increase(f, size_a as nat, size_b as nat);
        }
        if size_b < size_a {
            lemma_units_increase(f, size_b as nat, size_a as nat);
        }
        if 0 < size_a {
            lemma_units_increase(f, 0, size_a as nat);
        }
        if 0 < size_b {
            lemma_units_increase(f, 0, size_b as nat);
        }
    }
    if size_a > INFINITY32 || size_b > INFINITY32 {
        false
    } else if a < SIGN32 {
        if b < SIGN32 {
            size_a >= size_b
        } else {
            true
        }
    } else if b < SIGN32 {
        size_a == 0 && size_b == 0
    } else {
        size_a <= size_b
    }
}

/// Whether two binary32 patterns stand for the same number.
pub open spec fn equal32(a: u32, b: u32) -> bool {
    !nan32(a) && !nan32(b) && value32(a) == value32(b)
}

/// Whether two binary32 patterns stand for the same number: both zeros do, and
/// what is not a number is none.
pub fn same_number(a: u32, b: u32) -> (same: bool)
    ensures
        same == equal32(a, b),
{
    at_least(a, b) && at_least(b, a)
}

/// Whether a binary64 number is zero or below.
pub fn at_most_zero(bits: u64) -> (holds: bool)
    ensures
        holds == (!nan64(bits) && value64(bits) <= 0),
{
    let size: u64 = if bits >= SIGN64 {
        bits - SIGN64
    } else {
        bits
    };
    proof {
        if 0 < size {
            lemma_units_increase(FRACTION64 as nat, 0, size as nat);
        }
    }
    size <= INFINITY64 && (bits >= SIGN64 || size == 0)
}

/// Drops the lowest bits of a number and tells whether one of them was set.
fn shift_down(number: u64, count: u64) -> (parts: (u64, bool))
    ensures
        number == parts.0 * pow2(count as nat) + number as nat % pow2(count as nat),
        parts.1 <==> number as nat % pow2(count as nat) != 0,
{
    let mut quotient: u64 = number;
    let mut inexact: bool = false;
    let mut done: u64 = 0;
    let ghost mut rest: nat = 0;
    proof {
        lemma2_to64();
    }
    while done < count
        invariant
            done <= count,
            number == quotient * pow2(done as nat) + rest,
            rest < pow2(done as nat),
            inexact <==> rest != 0,
        decreases count - done,
    {
        let ghost q0: nat = quotient as nat;
        let dropped: u64 = quotient % 2;
        quotient = quotient / 2;
        if dropped == 1 {
            inexact = true;
        }
        proof {
            lemma_pow2_unfold((done + 1) as nat);
            lemma_pow2_pos(done as nat);
            let p: nat = pow2(done as nat);
            assert(q0 * p == quotient * (2 * p) + dropped * p) by (nonlinear_arith)
                requires
                    q0 == 2 * quotient + dropped,
            ;
            assert(dropped * p <= p && (dropped * p == 0 <==> dropped == 0)) by (nonlinear_arith)
                requires
                    dropped <= 1,
                    p > 0,
            ;
            rest = (dropped * p) as nat + rest;
        }
        done = done + 1;
    }
    proof {
        lemma_pow2_pos(count as nat);
        lemma_fundamental_div_mod_converse(
            number as int,
            pow2(count as nat) as int,
            quotient as int,
            rest as int,
        );
    }
    (quotient, inexact)
}

/// Rounds a binary64 number to binary32.
pub fn narrow(wide: u64) -> (bits: u32)
    ensures
        narrows_to(bits, wide),
{
    let size: u64 = if wide >= SIGN64 {
        wide - SIGN64
    } else {
        wide
    };
    if size > INFINITY64 {
        return 0x7fc0_0000;
    }
    let field: u64 = size / 0x0010_0000_0000_0000;
    let fraction: u64 = size % 0x0010_0000_0000_0000;
    let significand: u64 = if field == 0 {
        fraction
    } else {
        fraction + 0x0010_0000_0000_0000
    };
    let scale: u64 = if field == 0 {
        0
    } else {
        field - 1
    };
    let shift: u64 = if scale + 28 >= 924 {
        28
    } else {
        924 - scale
    };
    let (kept, inexact) = shift_down(significand, shift);
    let exponent: u64 = shift + scale - 924;
    proof {
        let number: nat = units(FRACTION64 as nat, magnitude64(wide));
        lemma2_to64();
        assert(number == significand * pow2(scale as nat)) by {
            if field == 0 {
                assert(significand * pow2(0) == significand) by (nonlinear_arith)
                    requires
                        pow2(0) == 1,
                ;
            }
        }
        let cut: nat = pow2(shift as nat);
        let low: nat = significand as nat % cut;
        let lift: nat = pow2((scale + 1) as nat);
        let tail: nat = low * lift;
        lemma_pow2_pos(shift as nat);
        lemma_pow2_pos((scale + 1) as nat);
        lemma_mod_bound(significand as int, cut as int);
        lemma_pow2_unfold((scale + 1) as nat);
        lemma_pow2_adds(shift as nat, (scale + 1) as nat);
        lemma_pow2_adds(exponent as nat, 925);
        assert(shift + (scale + 1) == exponent + 925);
        let step: nat = pow2(exponent as nat) * pow2(925);
        assert(step == cut * lift);
        assert(2 * number == kept * step + tail) by (nonlinear_arith)
            requires
                number == significand * pow2(scale as nat),
                lift == 2 * pow2(scale as nat),
                significand == kept * cut + low,
                step == cut * lift,
                tail == low * lift,
        ;
        assert(tail < step) by (nonlinear_arith)
            requires
                tail == low * lift,
                step == cut * lift,
                low < cut,
                lift > 0,
        ;
        assert(tail != 0 <==> low != 0) by (nonlinear_arith)
            requires
                tail == low * lift,
                lift > 0,
        ;
        lemma_pow2_at_least(28, shift as nat);
        assert(pow2(28) == 0x1000_0000);
        assert(kept < 0x0200_0000) by (nonlinear_arith)
            requires
                significand == kept * cut + low,
                significand < 0x0020_0000_0000_0000,
                cut >= 0x1000_0000,
                low >= 0,
        ;
        if shift == 28 && field > 0 {
            assert(kept >= 0x0100_0000) by (nonlinear_arith)
                requires
                    significand == kept * cut + low,
                    significand >= 0x0010_0000_0000_0000,
                    cut == 0x1000_0000,
                    low < cut,
            ;
        }
        lemma_pow2_pos(925);
        lemma_rounded_is_nearest(
            kept as nat,
            exponent as nat,
            inexact,
            tail,
            number,
            pow2(925),
        );
    }
    let magnitude: u32 = round_half_even(kept, exponent, inexact);
    proof {
        assert(magnitude <= INFINITY32);
    }
    if wide >= SIGN64 {
        magnitude + SIGN32
    } else {
        magnitude
    }
}

/// A quotient of 128-bit integers other than zero rounds to a binary32 number
/// other than zero.
pub proof fn lemma_quotient_stays_nonzero(bits: u32, num: int, den: int)
    requires
        num != 0,
        0 < den <= i128::MAX,
        rounds_to(bits, num, den),
    ensures
        0 < magnitude32(bits),
{
    let scaled: nat = absolute(num) * pow2(149);
    lemma2_to64();
    lemma2_to64_rest();
    lemma_pow2_adds(64, 64);
    lemma_pow2_at_least(128, 149);
    assert(pow2(64) * pow2(64) == 0x1_0000_0000_0000_0000_0000_0000_0000_0000);
    assert(pow2(149) <= scaled) by (nonlinear_arith)
        requires
            scaled == absolute(num) * pow2(149),
            absolute(num) >= 1,
    ;
    // The smallest positive number is nearer than zero.
    assert(distance(1, scaled, den as nat) < distance(0, scaled, den as nat)) by {
        assert(0 * (den as nat) == 0 && 1 * (den as nat) == den);
    }
}

/// What rounds to a binary32 zero is told by the pattern it narrows to.
pub proof fn lemma_narrows_to_zero(bits: u32, wide: u64)
    requires
        narrows_to(bits, wide),
    ensures
        narrows_to_zero(wide) <==> magnitude32(bits) == 0,
{
    if narrows_to_zero(wide) {
        lemma_pow2_pos(925);
        lemma_nearest_is_unique(
            0,
            magnitude32(bits),
            units(FRACTION64 as nat, magnitude64(wide)),
            pow2(925),
        );
    }
}

/// A 16.16 fixed-point number other than zero rounds to a finite binary32
/// number other than zero.
pub proof fn lemma_fixed_stays_nonzero(bits: u32, raw: i32)
    requires
        raw != 0,
        rounds_to(bits, raw as int, 0x1_0000),
    ensures
        0 < magnitude32(bits) < INFINITY32,
{
    let size: nat = absolute(raw as int);
    let num: nat = size * pow2(149);
    let den: nat = 0x1_0000;
    lemma2_to64();
    lemma_pow2_pos(149);
    lemma_quotient_stays_nonzero(bits, raw as int, den as int);
    assert(!overflows(num, den)) by {
        lemma_pow2_adds(149, 104);
        lemma_pow2_at_least(16, 104);
        assert(2 * num < 0x01ff_ffff * pow2(253) * den) by (nonlinear_arith)
            requires
                num == size * pow2(149),
                size <= 0x8000_0000,
                pow2(253) == pow2(149) * pow2(104),
                pow2(104) >= 0x1_0000,
                pow2(149) > 0,
                den == 0x1_0000,
        ;
    }
}

/// A number rounds to one signed pattern only.
pub proof fn lemma_rounds_to_one_pattern(a: u32, b: u32, num: int, den: int)
    requires
        den > 0,
        rounds_to(a, num, den),
        rounds_to(b, num, den),
    ensures
        a == b,
{
    lemma_nearest_is_unique(
        magnitude32(a),
        magnitude32(b),
        absolute(num) * pow2(149),
        den as nat,
    );
}

/// A number that binary32 has a pattern for rounds to that pattern.
pub proof fn lemma_exact_numbers_stay(bits: u32, exact: u32, num: int, den: int)
    requires
        den > 0,
        rounds_to(bits, num, den),
        magnitude32(exact) < INFINITY32,
        negative32(exact) == (num < 0),
        units(FRACTION32 as nat, magnitude32(exact)) * den == absolute(num) * pow2(149),
    ensures
        bits == exact,
{
    let scaled: nat = absolute(num) * pow2(149);
    let size: nat = magnitude32(exact);
    let d: nat = den as nat;
    let f: nat = FRACTION32 as nat;
    assert(!overflows(scaled, d)) by {
        lemma_units_of_parts(f, 0x00ff_ffff, 253);
        let top: nat = units(f, (INFINITY32 - 1) as nat);
        assert(top == 0x00ff_ffff * pow2(253));
        if size < INFINITY32 - 1 {
            lemma_units_increase(f, size, (INFINITY32 - 1) as nat);
        }
        lemma_pow2_pos(253);
        assert(2 * scaled < 0x01ff_ffff * pow2(253) * d) by (nonlinear_arith)
            requires
                scaled == units(f, size) * d,
                units(f, size) <= 0x00ff_ffff * pow2(253),
                pow2(253) > 0,
                d > 0,
        ;
    }
    assert(distance(size, scaled, d) == 0);
    assert(distance(magnitude32(bits), scaled, d) == 0);
    let other: nat = magnitude32(bits);
    if other < size {
        lemma_units_increase(f, other, size);
        assert(units(f, other) * d < units(f, size) * d) by (nonlinear_arith)
            requires
                units(f, other) < units(f, size),
                d > 0,
        ;
    }
    if size < other {
        lemma_units_increase(f, size, other);
        assert(units(f, size) * d < units(f, other) * d) by (nonlinear_arith)
            requires
                units(f, size) < units(f, other),
                d > 0,
        ;
    }
}

/// Patterns without a sign bit count in units up to twice the fraction field, and
/// from there on a step of the exponent doubles the number.
pub proof fn lemma_units_double(fraction: nat, magnitude: nat)
    requires
        0 < fraction,
    ensures
        magnitude <= 2 * fraction ==> units(fraction, magnitude) == magnitude,
        magnitude >= fraction ==> units(fraction, magnitude + fraction) == 2 * units(
            fraction,
            magnitude,
        ),
{
    lemma2_to64();
    if magnitude <= 2 * fraction {
        lemma_units_of_parts(fraction, magnitude, 0);
        assert(0 * fraction == 0);
        assert(magnitude * pow2(0) == magnitude);
    }
    if magnitude >= fraction {
        let (significand, exponent) = lemma_parts_of_magnitude(fraction, magnitude);
        assert(significand >= fraction) by {
            assert(exponent == 0 ==> exponent * fraction == 0);
        }
        lemma_units_of_parts(fraction, significand, exponent);
        lemma_units_of_parts(fraction, significand, exponent + 1);
        lemma_pow2_unfold(exponent + 1);
        assert((exponent + 1) * fraction + significand == magnitude + fraction) by (nonlinear_arith)
            requires
                magnitude == exponent * fraction + significand,
        ;
        assert(significand * (2 * pow2(exponent)) == 2 * (significand * pow2(exponent)))
            by (nonlinear_arith);
    }
}

/// The numbers that round to a magnitude lie between the points halfway to its
/// neighbours. A halfway point itself goes to the even one of the two.
proof fn lemma_nearest_interval(magnitude: nat, num: nat, den: nat)
    requires
        den > 0,
        nearest(magnitude, num, den),
    ensures
        magnitude <= 0x7f80_0000,
        magnitude == 0x7f80_0000 <==> 2 * num >= 0x01ff_ffff * pow2(253) * den,
        magnitude < 0x7f80_0000 ==> {
            let top: nat = (units(0x0080_0000, magnitude) + units(0x0080_0000, magnitude + 1))
                * den;
            2 * num < top || (2 * num == top && magnitude % 2 == 0)
        },
        0 < magnitude < 0x7f80_0000 ==> {
            let bottom: nat = (units(0x0080_0000, (magnitude - 1) as nat) + units(
                0x0080_0000,
                magnitude,
            )) * den;
            2 * num > bottom || (2 * num == bottom && magnitude % 2 == 0)
        },
{
    if magnitude < 0x7f80_0000 {
        let here: nat = units(0x0080_0000, magnitude);
        let above: nat = units(0x0080_0000, magnitude + 1);
        lemma_units_increase(0x0080_0000, magnitude, magnitude + 1);
        assert((here + above) * den == here * den + above * den) by (nonlinear_arith);
        assert(here * den < above * den) by (nonlinear_arith)
            requires
                here < above,
                den > 0,
        ;
        if magnitude + 1 < 0x7f80_0000 {
            assert(distance(magnitude, num, den) <= distance(magnitude + 1, num, den));
        } else {
            lemma_units_of_parts(0x0080_0000, 0x00ff_ffff, 253);
            lemma_units_of_parts(0x0080_0000, 0x0100_0000, 253);
            assert(0x00ff_ffff * pow2(253) + 0x0100_0000 * pow2(253) == 0x01ff_ffff * pow2(253))
                by (nonlinear_arith);
        }
        if 0 < magnitude {
            let under: nat = (magnitude - 1) as nat;
            let below: nat = units(0x0080_0000, under);
            lemma_units_increase(0x0080_0000, under, magnitude);
            assert((below + here) * den == below * den + here * den) by (nonlinear_arith);
            assert(below * den < here * den) by (nonlinear_arith)
                requires
                    below < here,
                    den > 0,
            ;
            assert(distance(magnitude, num, den) <= distance(under, num, den));
        }
    }
}

/// Rounding to binary32 is to nearest, half to even: what rounds to a pattern lies
/// between the points halfway to its neighbours, a halfway point goes to the
/// even one of the two, and half a step beyond the largest number is infinity.
/// The sign bit is that of the number.
pub proof fn lemma_rounding_interval(bits: u32, num: int, den: int)
    requires
        den > 0,
        rounds_to(bits, num, den),
    ensures
        bits >= 0x8000_0000 <==> num < 0,
        ({
            let size: nat = (bits as int % 0x8000_0000) as nat;
            let twice: int = if num < 0 {
                -num * pow2(150)
            } else {
                num * pow2(150)
            };
            &&& size <= 0x7f80_0000
            &&& size == 0x7f80_0000 <==> twice >= 0x01ff_ffff * pow2(253) * den
            &&& size < 0x7f80_0000 ==> {
                let top: int = (units(0x0080_0000, size) + units(0x0080_0000, size + 1)) * den;
                twice < top || (twice == top && size % 2 == 0)
            }
            &&& 0 < size < 0x7f80_0000 ==> {
                let bottom: int = (units(0x0080_0000, (size - 1) as nat) + units(
                    0x0080_0000,
                    size,
                )) * den;
                twice > bottom || (twice == bottom && size % 2 == 0)
            }
        }),
{
    let scaled: nat = absolute(num) * pow2(149);
    lemma_nearest_interval(magnitude32(bits), scaled, den as nat);
    lemma_pow2_unfold(150);
    let size: int = absolute(num) as int;
    assert(size * pow2(150) == 2 * (size * pow2(149))) by (nonlinear_arith)
        requires
            pow2(150) == 2 * pow2(149),
    ;
}

/// Narrowing binary64 to binary32 is to nearest, half to even, in the same way.
/// What is not a number stays so, and the sign bit of a number stays.
pub proof fn lemma_narrowing_interval(bits: u32, wide: u64)
    requires
        narrows_to(bits, wide),
    ensures
        ({
            let from: nat = (wide as int % 0x8000_0000_0000_0000) as nat;
            let size: nat = (bits as int % 0x8000_0000) as nat;
            let twice: nat = 2 * units(0x0010_0000_0000_0000, from);
            &&& from > 0x7ff0_0000_0000_0000 <==> size > 0x7f80_0000
            &&& from <= 0x7ff0_0000_0000_0000 ==> {
                &&& bits >= 0x8000_0000 <==> wide >= 0x8000_0000_0000_0000
                &&& size == 0x7f80_0000 <==> twice >= 0x01ff_ffff * pow2(253) * pow2(925)
                &&& size < 0x7f80_0000 ==> {
                    let top: nat = (units(0x0080_0000, size) + units(0x0080_0000, size + 1))
                        * pow2(925);
                    twice < top || (twice == top && size % 2 == 0)
                }
                &&& 0 < size < 0x7f80_0000 ==> {
                    let bottom: nat = (units(0x0080_0000, (size - 1) as nat) + units(
                        0x0080_0000,
                        size,
                    )) * pow2(925);
                    twice > bottom || (twice == bottom && size % 2 == 0)
                }
            }
        }),
{
    if !nan64(wide) {
        lemma_pow2_pos(925);
        lemma_nearest_interval(
            magnitude32(bits),
            units(FRACTION64 as nat, magnitude64(wide)),
            pow2(925),
        );
    }
}

/// Binary32 patterns are ordered as their magnitudes with the sign put in front,
/// so both zeros are the same number. What lies beyond infinity is none.
pub proof fn lemma_patterns_are_ordered(a: u32, b: u32)
    ensures
        nan32(a) <==> a as int % 0x8000_0000 > 0x7f80_0000,
        ({
            let left: int = if a < 0x8000_0000 {
                a as int
            } else {
                0x8000_0000 - a
            };
            let right: int = if b < 0x8000_0000 {
                b as int
            } else {
                0x8000_0000 - b
            };
            &&& value32(a) <= value32(b) <==> left <= right
            &&& equal32(a, b) <==> !nan32(a) && !nan32(b) && left == right
        }),
{
    let (x, y): (nat, nat) = (magnitude32(a), magnitude32(b));
    let f: nat = FRACTION32 as nat;
    if x < y {
        lemma_units_increase(f, x, y);
    }
    if y < x {
        lemma_units_increase(f, y, x);
    }
    if 0 < x {
        lemma_units_increase(f, 0, x);
    }
    if 0 < y {
        lemma_units_increase(f, 0, y);
    }
}

/// Binary64 patterns are ordered in the same way.
pub proof fn lemma_wide_patterns_are_ordered(a: u64, b: u64)
    ensures
        nan64(a) <==> a as int % 0x8000_0000_0000_0000 > 0x7ff0_0000_0000_0000,
        ({
            let left: int = if a < 0x8000_0000_0000_0000 {
                a as int
            } else {
                0x8000_0000_0000_0000 - a
            };
            let right: int = if b < 0x8000_0000_0000_0000 {
                b as int
            } else {
                0x8000_0000_0000_0000 - b
            };
            value64(a) <= value64(b) <==> left <= right
        }),
{
    let (x, y): (nat, nat) = (magnitude64(a), magnitude64(b));
    let f: nat = FRACTION64 as nat;
    if x < y {
        lemma_units_increase(f, x, y);
    }
    if y < x {
        lemma_units_increase(f, y, x);
    }
    if 0 < x {
        lemma_units_increase(f, 0, x);
    }
    if 0 < y {
        lemma_units_increase(f, 0, y);
    }
}

/// A binary64 number rounds to a binary32 zero where it is at most half of the
/// smallest positive one, 2^-150, in size.
pub proof fn lemma_tiny_narrows_to_zero(wide: u64)
    ensures
        narrows_to_zero(wide) <==> wide as int % 0x8000_0000_0000_0000 <= 0x3690_0000_0000_0000,
{
    let f: nat = 0x0010_0000_0000_0000;
    let from: nat = magnitude64(wide);
    let edge: nat = 0x3690_0000_0000_0000;
    let size: nat = units(f, from);
    lemma2_to64();
    lemma2_to64_rest();
    lemma_units_of_parts(f, f, 872);
    lemma_pow2_adds(52, 872);
    lemma_pow2_unfold(925);
    lemma_pow2_pos(924);
    assert(units(f, edge) == pow2(924));
    if from < edge {
        lemma_units_increase(f, from, edge);
    }
    if edge < from {
        lemma_units_increase(f, edge, from);
    }
    lemma_units_double(0x0080_0000, 0);
    lemma_units_double(0x0080_0000, 1);
    let den: nat = pow2(925);
    assert(0 * den == 0 && 1 * den == den);
    if narrows_to_zero(wide) {
        lemma_nearest_interval(0, size, den);
    }
    if from <= edge {
        assert(2 * size <= den);
        assert(!overflows(size, den)) by {
            lemma_pow2_pos(253);
            assert(0x01ff_ffff * pow2(253) * den > den) by (nonlinear_arith)
                requires
                    pow2(253) >= 1,
                    den >= 1,
            ;
        }
        assert forall|other: nat| other < INFINITY32 implies distance(0, size, den)
            <= #[trigger] distance(other, size, den) by {
            lemma_at_least_one_unit(other, den);
        }
        assert(nearest(0, size, den));
    }
}

/// Every magnitude but zero is at least one unit.
proof fn lemma_at_least_one_unit(magnitude: nat, den: nat)
    ensures
        magnitude > 0 ==> units(FRACTION32 as nat, magnitude) * den >= den,
{
    if magnitude > 0 {
        lemma_units_increase(FRACTION32 as nat, 0, magnitude);
        let size: nat = units(FRACTION32 as nat, magnitude);
        assert(size * den >= den) by (nonlinear_arith)
            requires
                size >= 1,
        ;
    }
}

} // verus!
