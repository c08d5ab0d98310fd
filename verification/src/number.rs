//! The exact numbers that a profile holds.
use vstd::prelude::*;

verus! {

/// ICC s15Fixed16Number: an integer in units of 2^-16.
#[derive(Debug, Clone, Copy, PartialEq, Eq, Structural)]
pub struct Fixed(pub i32);

/// An exact quotient of two integers. The denominator of a number is positive.
/// Two numbers are equal whether or not they are in lowest terms. What is not a
/// number equals nothing.
#[derive(Debug, Clone, Copy)]
pub struct Ratio {
    pub num: i128,
    pub den: i128,
}

impl Ratio {
    /// Whether this is a number whose two integers are 64 bits wide, so that
    /// products of two such integers are exact.
    pub open spec fn bounded(self) -> bool {
        &&& 0 < self.den <= i64::MAX
        &&& i64::MIN <= self.num <= i64::MAX
    }

    /// Whether this is a number whose two integers are 64 bits wide.
    pub fn is_bounded(&self) -> (holds: bool)
        ensures
            holds == self.bounded(),
    {
        0 < self.den && self.den <= i64::MAX as i128 && i64::MIN as i128 <= self.num && self.num
            <= i64::MAX as i128
    }

    /// Whether this number is at least another.
    pub open spec fn at_least(self, other: Ratio) -> bool {
        self.num * other.den >= other.num * self.den
    }
}

impl Ratio {
    /// Whether this and another are the same number.
    pub open spec fn same(self, other: Ratio) -> bool {
        &&& self.den > 0
        &&& other.den > 0
        &&& self.num * other.den == other.num * self.den
    }
}

impl PartialEq for Ratio {
    fn eq(&self, other: &Ratio) -> (equal: bool) {
        if self.den <= 0 || other.den <= 0 {
            return false;
        }
        let (a, b): (u128, u128) = (size(self.num), size(other.num));
        proof {
            lemma_signs_and_sizes(
                self.num as int,
                self.den as int,
                other.num as int,
                other.den as int,
            );
        }
        (self.num < 0) == (other.num < 0) && same_quotient(
            a,
            self.den as u128,
            b,
            other.den as u128,
        )
    }
}

impl vstd::std_specs::cmp::PartialEqSpecImpl for Ratio {
    open spec fn obeys_eq_spec() -> bool {
        true
    }

    open spec fn eq_spec(&self, other: &Ratio) -> bool {
        self.same(*other)
    }
}

/// The size of an integer, without its sign.
fn size(num: i128) -> (size: u128)
    ensures
        size == crate::binary::absolute(num as int),
{
    if num < 0 {
        (-(num + 1)) as u128 + 1
    } else {
        num as u128
    }
}

/// Quotients with positive denominators are equal where their signs and sizes
/// are.
proof fn lemma_signs_and_sizes(a: int, b: int, c: int, d: int)
    requires
        b > 0,
        d > 0,
    ensures
        a * d == c * b <==> {
            &&& (a < 0) == (c < 0)
            &&& crate::binary::absolute(a) * d == crate::binary::absolute(c) * b
        },
{
    assert(a < 0 ==> a * d < 0) by (nonlinear_arith)
        requires
            d > 0,
    ;
    assert(c < 0 ==> c * b < 0) by (nonlinear_arith)
        requires
            b > 0,
    ;
    assert(a >= 0 ==> a * d >= 0) by (nonlinear_arith)
        requires
            d > 0,
    ;
    assert(c >= 0 ==> c * b >= 0) by (nonlinear_arith)
        requires
            b > 0,
    ;
    assert((-a) * d == -(a * d)) by (nonlinear_arith);
    assert((-c) * b == -(c * b)) by (nonlinear_arith);
}

/// Whether `a / b` equals `c / d`: their whole parts do, and so do what is left,
/// turned upside down.
fn same_quotient(a: u128, b: u128, c: u128, d: u128) -> (same: bool)
    requires
        b > 0,
        d > 0,
    ensures
        same == (a * d == c * b),
    decreases b,
{
    let (p, q): (u128, u128) = (a / b, c / d);
    let (r, s): (u128, u128) = (a % b, c % d);
    proof {
        vstd::arithmetic::div_mod::lemma_fundamental_div_mod(a as int, b as int);
        vstd::arithmetic::div_mod::lemma_fundamental_div_mod(c as int, d as int);
        lemma_whole_parts(
            a as int,
            b as int,
            c as int,
            d as int,
            p as int,
            q as int,
            r as int,
            s as int,
        );
    }
    if p != q {
        false
    } else if r == 0 || s == 0 {
        assert(0 * d == 0 && 0 * b == 0);
        assert(r > 0 ==> r * d > 0) by (nonlinear_arith)
            requires
                d > 0,
        ;
        assert(s > 0 ==> s * b > 0) by (nonlinear_arith)
            requires
                b > 0,
        ;
        r == 0 && s == 0
    } else {
        assert(r * d == d * r && s * b == b * s) by (nonlinear_arith);
        same_quotient(b, r, d, s)
    }
}

/// Equal quotients have equal whole parts.
proof fn lemma_whole_parts(a: int, b: int, c: int, d: int, p: int, q: int, r: int, s: int)
    requires
        a == b * p + r,
        c == d * q + s,
        0 <= r < b,
        0 <= s < d,
    ensures
        a * d == c * b <==> p == q && r * d == s * b,
{
    let all: int = b * d;
    assert(a * d == all * p + r * d) by (nonlinear_arith)
        requires
            a == b * p + r,
            all == b * d,
    ;
    assert(c * b == all * q + s * b) by (nonlinear_arith)
        requires
            c == d * q + s,
            all == b * d,
    ;
    assert(0 <= r * d < all) by (nonlinear_arith)
        requires
            0 <= r < b,
            0 < d,
            all == b * d,
    ;
    assert(0 <= s * b < all) by (nonlinear_arith)
        requires
            0 <= s < d,
            0 < b,
            all == b * d,
    ;
    assert(p < q ==> all * p + all <= all * q) by (nonlinear_arith)
        requires
            all > 0,
    ;
    assert(q < p ==> all * q + all <= all * p) by (nonlinear_arith)
        requires
            all > 0,
    ;
}

impl Fixed {
    /// This number as a quotient.
    pub open spec fn quotient(self) -> Ratio {
        Ratio { num: self.0 as i128, den: 0x1_0000 }
    }

    /// This number as a quotient.
    pub fn ratio(self) -> (ratio: Ratio)
        ensures
            ratio == self.quotient(),
    {
        Ratio { num: self.0 as i128, den: 0x1_0000 }
    }
}

/// The numerator of `slope * x + offset`, over `x.den` units of 2^-16.
pub open spec fn line_numerator(slope: Fixed, offset: Fixed, x: Ratio) -> int {
    slope.0 * x.num + offset.0 * x.den
}

/// The exact value of `slope * x + offset`.
pub open spec fn line(slope: Fixed, offset: Fixed, x: Ratio) -> Ratio {
    Ratio { num: line_numerator(slope, offset, x) as i128, den: (0x1_0000 * x.den) as i128 }
}

/// A line at a bounded number is exact.
pub proof fn lemma_line_fits(slope: Fixed, offset: Fixed, x: Ratio)
    requires
        x.bounded(),
    ensures
        -0x4000_0000_0000_0000_0000_0000 <= slope.0 * x.num <= 0x4000_0000_0000_0000_0000_0000,
        -0x4000_0000_0000_0000_0000_0000 <= offset.0 * x.den <= 0x4000_0000_0000_0000_0000_0000,
{
    assert(-0x4000_0000_0000_0000_0000_0000 <= slope.0 * x.num <= 0x4000_0000_0000_0000_0000_0000)
        by (nonlinear_arith)
        requires
            i32::MIN <= slope.0 <= i32::MAX,
            i64::MIN <= x.num <= i64::MAX,
    ;
    assert(-0x4000_0000_0000_0000_0000_0000 <= offset.0 * x.den
        <= 0x4000_0000_0000_0000_0000_0000) by (nonlinear_arith)
        requires
            i32::MIN <= offset.0 <= i32::MAX,
            0 < x.den <= i64::MAX,
    ;
}

/// Computes `slope * x + offset`.
pub fn on_line(slope: Fixed, offset: Fixed, x: Ratio) -> (value: Ratio)
    requires
        x.bounded(),
    ensures
        value == line(slope, offset, x),
        value.num == line_numerator(slope, offset, x),
        value.den == 0x1_0000 * x.den,
{
    proof {
        lemma_line_fits(slope, offset, x);
    }
    Ratio { num: slope.0 as i128 * x.num + offset.0 as i128 * x.den, den: 0x1_0000 * x.den }
}

/// Whether one number is at least another.
pub fn is_at_least(a: Ratio, b: Ratio) -> (holds: bool)
    requires
        a.bounded(),
        b.bounded(),
    ensures
        holds == a.at_least(b),
{
    proof {
        lemma_cross_bound(a.num as int, b.den as int);
        lemma_cross_bound(b.num as int, a.den as int);
    }
    a.num * b.den >= b.num * a.den
}

/// Products of 64-bit integers are exact.
proof fn lemma_cross_bound(x: int, y: int)
    by (nonlinear_arith)
    requires
        i64::MIN <= x <= i64::MAX,
        0 <= y <= i64::MAX,
    ensures
        i128::MIN <= x * y <= i128::MAX,
{
}

} // verus!
