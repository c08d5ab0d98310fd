//! Tone response curves.
use crate::number::{is_at_least, on_line, Fixed, Ratio};
use vstd::prelude::*;

verus! {

/// The exponent of a power law. Two are equal where they are the same number, as
/// far as that can be told without a logarithm, and otherwise where the power
/// laws go through the same point.
#[derive(Debug, Clone, Copy)]
pub enum Exponent {
    /// A number that the profile states.
    Exact(Ratio),
    /// The exponent of the power law through the point `(x, y)`, which is
    /// `ln(y) / ln(x)`.
    Through { x: Ratio, y: Ratio },
}

/// One channel's tone response, normalized to the ICC paraCurveType type-4
/// form. Every simpler curve type, and a plain gamma, is a special case:
///
/// ```text
/// Y = (a·X + b)^g + e   for X >= d
/// Y = c·X + f           for X <  d
/// ```
///
/// Collapsing this to one exponent (what a midpoint fit does) costs up to
/// **9 of 255 output codes in the deepest black** on a real sRGB-style
/// type-3 curve, where the correct code is only ~7, so the error exceeds
/// the signal exactly where an OLED is least forgiving. Hence the full form.
///
/// Two curves are equal where their parameters are, as numbers.
#[derive(Debug, Clone, Copy)]
pub struct Trc {
    pub g: Exponent,
    pub a: Fixed,
    pub b: Fixed,
    pub c: Fixed,
    pub d: Ratio,
    pub e: Fixed,
    pub f: Fixed,
}

/// Linear light, as far as it can be told exactly. Two are equal where they are
/// told alike, in equal numbers.
#[derive(Debug, Clone, Copy)]
pub enum Light {
    /// A number.
    Exact(Ratio),
    /// The number `base^exponent + offset`, of a positive base.
    Power { base: Ratio, exponent: Exponent, offset: Fixed },
}

/// The midpoint of the drive range.
pub open spec fn half() -> Ratio {
    Ratio { num: 1, den: 2 }
}

impl Exponent {
    /// Whether the exponent is made of numbers.
    pub open spec fn wf(self) -> bool {
        match self {
            Exponent::Exact(value) => value.den > 0,
            Exponent::Through { x, y } => x.den > 0 && y.den > 0,
        }
    }

    fn is_wf(&self) -> (holds: bool)
        ensures
            holds == self.wf(),
    {
        match self {
            Exponent::Exact(value) => value.den > 0,
            Exponent::Through { x, y } => x.den > 0 && y.den > 0,
        }
    }

    /// The number that this is, where it can be told without a logarithm. The
    /// power law through a point inside the range is the identity where the
    /// point lies on the diagonal, and constant where it is at full light.
    pub open spec fn told(self) -> Option<Ratio> {
        match self {
            Exponent::Exact(value) => Some(value),
            Exponent::Through { x, y } => if !(0 < x.num < x.den) {
                None
            } else if y.same(x) {
                Some(Ratio { num: 1, den: 1 })
            } else if y.same(Ratio { num: 1, den: 1 }) {
                Some(Ratio { num: 0, den: 1 })
            } else {
                None
            },
        }
    }

    fn tell(&self) -> (number: Option<Ratio>)
        ensures
            number == self.told(),
    {
        match self {
            Exponent::Exact(value) => Some(*value),
            Exponent::Through { x, y } => if !(0 < x.num && x.num < x.den) {
                None
            } else if *y == *x {
                Some(Ratio { num: 1, den: 1 })
            } else if *y == (Ratio { num: 1, den: 1 }) {
                Some(Ratio { num: 0, den: 1 })
            } else {
                None
            },
        }
    }

    /// Whether this and another are the same exponent.
    pub open spec fn same(self, other: Exponent) -> bool {
        match (self.told(), other.told()) {
            (Some(a), Some(b)) => a.same(b),
            (None, None) => match (self, other) {
                (Exponent::Through { x, y }, Exponent::Through { x: v, y: w }) => x.same(v)
                    && y.same(w),
                _ => false,
            },
            _ => false,
        }
    }
}

impl PartialEq for Exponent {
    fn eq(&self, other: &Exponent) -> (equal: bool) {
        match (self.tell(), other.tell()) {
            (Some(a), Some(b)) => a == b,
            (None, None) => match (self, other) {
                (Exponent::Through { x, y }, Exponent::Through { x: v, y: w }) => *x == *v && *y
                    == *w,
                _ => false,
            },
            _ => false,
        }
    }
}

impl vstd::std_specs::cmp::PartialEqSpecImpl for Exponent {
    open spec fn obeys_eq_spec() -> bool {
        true
    }

    open spec fn eq_spec(&self, other: &Exponent) -> bool {
        self.same(*other)
    }
}

impl Light {
    /// Whether this and another are told alike.
    pub open spec fn same(self, other: Light) -> bool {
        match (self, other) {
            (Light::Exact(a), Light::Exact(b)) => a.same(b),
            (
                Light::Power { base, exponent, offset },
                Light::Power { base: b, exponent: g, offset: e },
            ) => base.same(b) && exponent.same(g) && offset == e,
            _ => false,
        }
    }
}

impl PartialEq for Light {
    fn eq(&self, other: &Light) -> (equal: bool) {
        match (self, other) {
            (Light::Exact(a), Light::Exact(b)) => *a == *b,
            (
                Light::Power { base, exponent, offset },
                Light::Power { base: b, exponent: g, offset: e },
            ) => *base == *b && *exponent == *g && *offset == *e,
            _ => false,
        }
    }
}

impl vstd::std_specs::cmp::PartialEqSpecImpl for Light {
    open spec fn obeys_eq_spec() -> bool {
        true
    }

    open spec fn eq_spec(&self, other: &Light) -> bool {
        self.same(*other)
    }
}

impl PartialEq for Trc {
    fn eq(&self, other: &Trc) -> (equal: bool) {
        self.g == other.g && self.a == other.a && self.b == other.b && self.c == other.c && self.d
            == other.d && self.e == other.e && self.f == other.f
    }
}

impl vstd::std_specs::cmp::PartialEqSpecImpl for Trc {
    open spec fn obeys_eq_spec() -> bool {
        true
    }

    open spec fn eq_spec(&self, other: &Trc) -> bool {
        self.same(*other)
    }
}

/// How many parameters a paraCurveType function takes, if it is one.
pub open spec fn parameters_of(function_type: u16) -> Option<nat> {
    if function_type == 0 {
        Some(1)
    } else if function_type == 1 {
        Some(3)
    } else if function_type == 2 {
        Some(4)
    } else if function_type == 3 {
        Some(5)
    } else if function_type == 4 {
        Some(7)
    } else {
        None
    }
}

/// How many parameters a paraCurveType function takes, if it is one.
pub fn parameter_count(function_type: u16) -> (count: Option<usize>)
    ensures
        count is Some <==> parameters_of(function_type) is Some,
        count matches Some(n) ==> parameters_of(function_type) == Some(n as nat) && n <= 7,
{
    match function_type {
        0 => Some(1),
        1 => Some(3),
        2 => Some(4),
        3 => Some(5),
        4 => Some(7),
        _ => None,
    }
}

/// Where `a * x + b` is zero, unless it is constant.
pub open spec fn root(a: Fixed, b: Fixed) -> Option<Ratio> {
    if a.0 == 0 {
        None
    } else if a.0 > 0 {
        Some(Ratio { num: -(b.0 as i128) as i128, den: a.0 as i128 })
    } else {
        Some(Ratio { num: b.0 as i128, den: -(a.0 as i128) as i128 })
    }
}

/// The drive value at which `a * x + b` is zero: the join of a curve whose
/// lower segment is constant.
pub fn linear_join(a: Fixed, b: Fixed) -> (join: Option<Ratio>)
    ensures
        join == root(a, b),
{
    if a.0 == 0 {
        None
    } else if a.0 > 0 {
        Some(Ratio { num: -(b.0 as i128), den: a.0 as i128 })
    } else {
        Some(Ratio { num: b.0 as i128, den: -(a.0 as i128) })
    }
}

impl Trc {
    /// Whether the exponent and the join are numbers.
    pub open spec fn wf(self) -> bool {
        &&& self.g.wf()
        &&& self.d.bounded()
    }

    /// Whether the exponent and the join are numbers.
    pub fn is_wf(&self) -> (holds: bool)
        ensures
            holds == self.wf(),
    {
        self.g.is_wf() && self.d.is_bounded()
    }

    /// Whether this and another are the same curve.
    pub open spec fn same(self, other: Trc) -> bool {
        &&& self.g.same(other.g)
        &&& self.a == other.a
        &&& self.b == other.b
        &&& self.c == other.c
        &&& self.d.same(other.d)
        &&& self.e == other.e
        &&& self.f == other.f
    }

    /// The curve `Y = X^g`.
    pub open spec fn power_law(g: Exponent) -> Trc {
        Trc {
            g,
            a: Fixed(0x1_0000),
            b: Fixed(0),
            c: Fixed(0),
            d: Fixed(0).quotient(),
            e: Fixed(0),
            f: Fixed(0),
        }
    }

    /// A pure power law, `Y = X^g`.
    pub fn power(g: Exponent) -> (curve: Trc)
        ensures
            curve == Trc::power_law(g),
            g.wf() ==> curve.wf(),
    {
        Trc {
            g,
            a: Fixed(0x1_0000),
            b: Fixed(0),
            c: Fixed(0),
            d: Fixed(0).ratio(),
            e: Fixed(0),
            f: Fixed(0),
        }
    }

    /// The curve of an ICC paraCurveType function with its parameters, per
    /// ICC.1:2010 §10.16.
    pub open spec fn parametric(function_type: u16, p: Seq<Fixed>) -> Option<Trc> {
        let g: Exponent = Exponent::Exact(p[0].quotient());
        if function_type == 0 {
            Some(Trc::power_law(g))
        } else if function_type == 1 {
            match root(p[1], p[2]) {
                Some(d) => Some(Trc { g, a: p[1], b: p[2], c: Fixed(0), d, e: Fixed(0), f: Fixed(0) }),
                None => None,
            }
        } else if function_type == 2 {
            match root(p[1], p[2]) {
                Some(d) => Some(Trc { g, a: p[1], b: p[2], c: Fixed(0), d, e: p[3], f: p[3] }),
                None => None,
            }
        } else if function_type == 3 {
            Some(
                Trc { g, a: p[1], b: p[2], c: p[3], d: p[4].quotient(), e: Fixed(0), f: Fixed(0) },
            )
        } else if function_type == 4 {
            Some(
                Trc { g, a: p[1], b: p[2], c: p[3], d: p[4].quotient(), e: p[5], f: p[6] },
            )
        } else {
            None
        }
    }

    /// Normalize an ICC paraCurveType to the type-4 form. Semantics per
    /// ICC.1:2010 §10.16; types 0–3 differ in which parameters they omit,
    /// and notably type 2's fourth parameter is an *offset*, where type 3's
    /// is the slope of the linear segment. A type 1 or 2 curve without a slope
    /// has no join, and is no curve.
    pub fn from_para(function_type: u16, p: &[Fixed]) -> (curve: Option<Trc>)
        requires
            parameters_of(function_type) matches Some(n) ==> p@.len() >= n,
        ensures
            curve == Trc::parametric(function_type, p@),
            curve matches Some(t) ==> t.wf(),
    {
        match function_type {
            0 => Some(Trc::power(Exponent::Exact(p[0].ratio()))),
            1 => {
                let d: Ratio = linear_join(p[1], p[2])?;
                Some(
                    Trc {
                        g: Exponent::Exact(p[0].ratio()),
                        a: p[1],
                        b: p[2],
                        c: Fixed(0),
                        d,
                        e: Fixed(0),
                        f: Fixed(0),
                    },
                )
            },
            2 => {
                let d: Ratio = linear_join(p[1], p[2])?;
                Some(
                    Trc {
                        g: Exponent::Exact(p[0].ratio()),
                        a: p[1],
                        b: p[2],
                        c: Fixed(0),
                        d,
                        e: p[3],
                        f: p[3],
                    },
                )
            },
            3 => Some(
                Trc {
                    g: Exponent::Exact(p[0].ratio()),
                    a: p[1],
                    b: p[2],
                    c: p[3],
                    d: p[4].ratio(),
                    e: Fixed(0),
                    f: Fixed(0),
                },
            ),
            4 => Some(
                Trc {
                    g: Exponent::Exact(p[0].ratio()),
                    a: p[1],
                    b: p[2],
                    c: p[3],
                    d: p[4].ratio(),
                    e: p[5],
                    f: p[6],
                },
            ),
            _ => None,
        }
    }

    /// The light of the upper segment, `(a·X + b)^g + e`. A base that is not
    /// positive counts as zero.
    pub open spec fn upper(self, x: Ratio) -> Light {
        if crate::number::line_numerator(self.a, self.b, x) <= 0 {
            Light::Exact(self.e.quotient())
        } else {
            Light::Power {
                base: crate::number::line(self.a, self.b, x),
                exponent: self.g,
                offset: self.e,
            }
        }
    }

    /// The light that a drive value makes.
    pub open spec fn response(self, x: Ratio) -> Light {
        if x.at_least(self.d) {
            self.upper(x)
        } else {
            Light::Exact(crate::number::line(self.c, self.f, x))
        }
    }

    fn decode_upper(&self, x: Ratio) -> (light: Light)
        requires
            x.bounded(),
        ensures
            light == self.upper(x),
    {
        let base: Ratio = on_line(self.a, self.b, x);
        if base.num <= 0 {
            Light::Exact(self.e.ratio())
        } else {
            Light::Power { base, exponent: self.g, offset: self.e }
        }
    }

    /// Decode: panel drive value → linear light.
    pub fn decode(&self, x: Ratio) -> (light: Light)
        requires
            self.wf(),
            x.bounded(),
        ensures
            light == self.response(x),
    {
        if is_at_least(x, self.d) {
            self.decode_upper(x)
        } else {
            Light::Exact(on_line(self.c, self.f, x))
        }
    }

    /// Linear-light value at the piecewise join: the threshold the shader
    /// branches on, since it works in linear light rather than in `X`.
    pub fn y_join(&self) -> (light: Light)
        requires
            self.wf(),
        ensures
            light == self.upper(self.d),
    {
        self.decode_upper(self.d)
    }

    /// Linear light at the curve's midpoint. The power law through it is what
    /// the plausibility check and logging go by, never the correction.
    pub fn midpoint(&self) -> (light: Light)
        requires
            self.wf(),
        ensures
            light == self.response(half()),
    {
        self.decode(Ratio { num: 1, den: 2 })
    }
}

/// The threshold that the shader branches on is the light that the curve makes
/// at the join.
pub proof fn lemma_join_is_decoded(curve: Trc)
    requires
        curve.wf(),
    ensures
        curve.response(curve.d) == curve.upper(curve.d),
{
}

/// A pure power law makes no light at or below zero, and `X^g` above it.
pub proof fn lemma_power_law(g: Exponent, x: Ratio)
    requires
        x.bounded(),
    ensures
        x.num <= 0 ==> {
            &&& Trc::power_law(g).response(x) matches Light::Exact(light)
            &&& light.num == 0
        },
        x.num > 0 ==> {
            &&& Trc::power_law(g).response(x) matches Light::Power { base, exponent, offset }
            &&& base.num * x.den == x.num * base.den
            &&& base.den > 0
            &&& exponent == g
            &&& offset == Fixed(0)
        },
{
    let n: int = x.num as int;
    let d: int = x.den as int;
    let curve: Trc = Trc::power_law(g);
    crate::number::lemma_line_fits(curve.a, curve.b, x);
    crate::number::lemma_line_fits(curve.c, curve.f, x);
    assert(0x1_0000 * n * d == n * (0x1_0000 * d)) by (nonlinear_arith);
    assert(0 * n == 0 && 0 * d == 0);
    assert(crate::number::line_numerator(curve.a, curve.b, x) == 0x1_0000 * n);
    assert(crate::number::line_numerator(curve.c, curve.f, x) == 0);
    assert(x.at_least(curve.d) <==> n >= 0);
}

/// Curves that are equal decode to equal light.
pub proof fn lemma_equal_curves_decode_alike(curve: Trc, other: Trc, x: Ratio)
    requires
        curve.wf(),
        other.wf(),
        curve.same(other),
        x.bounded(),
    ensures
        curve.response(x).same(other.response(x)),
        curve.upper(x).same(other.upper(x)),
{
    let (n, m): (int, int) = (curve.d.num as int, curve.d.den as int);
    let (k, l): (int, int) = (other.d.num as int, other.d.den as int);
    let (u, v): (int, int) = (x.num as int, x.den as int);
    assert(u * m >= n * v <==> u * l >= k * v) by (nonlinear_arith)
        requires
            m > 0,
            l > 0,
            v > 0,
            n * l == k * m,
    ;
    crate::number::lemma_line_fits(curve.a, curve.b, x);
    crate::number::lemma_line_fits(curve.c, curve.f, x);
}

/// Every simpler curve type is the full type 4 with parameters that do nothing.
/// A plain gamma and the sRGB-like type 3 leave them out. Type 1 is type 2
/// without an offset. Type 2 is type 4 without a slope below the join `-b/a`,
/// and with its offset in both segments.
pub proof fn lemma_simple_types_are_type_four(p: Seq<Fixed>)
    requires
        p.len() == 7,
    ensures
        p[3] == Fixed(0) ==> Trc::parametric(1, p.take(3)) == Trc::parametric(2, p.take(4)),
        p[3] == Fixed(0) && p[5] == p[6] && root(p[1], p[2]) is Some && root(p[1], p[2])->0.same(
            p[4].quotient(),
        ) ==> {
            &&& Trc::parametric(2, seq![p[0], p[1], p[2], p[5]]) matches Some(simple)
            &&& Trc::parametric(4, p) matches Some(full)
            &&& simple.same(full)
        },
        p[1] == Fixed(0x1_0000) && p[2] == Fixed(0) && p[3] == Fixed(0) && p[4] == Fixed(0)
            && p[5] == Fixed(0) && p[6] == Fixed(0) ==> Trc::parametric(0, p.take(1))
            == Trc::parametric(4, p),
        p[5] == Fixed(0) && p[6] == Fixed(0) ==> Trc::parametric(3, p.take(5)) == Trc::parametric(
            4,
            p,
        ),
{
}

/// A type 1 or type 2 curve is flat below its join and starts there without a
/// step: at the join both segments give the offset. The fourth parameter of
/// type 2 is that offset.
pub proof fn lemma_flat_below_join(function_type: u16, p: Seq<Fixed>, x: Ratio)
    requires
        function_type == 1 || function_type == 2,
        Trc::parametric(function_type, p) is Some,
        x.bounded(),
    ensures
        ({
            let curve: Trc = Trc::parametric(function_type, p)->0;
            &&& curve.e == curve.f
            &&& curve.e == (if function_type == 1 {
                Fixed(0)
            } else {
                p[3]
            })
            &&& curve.upper(curve.d) == Light::Exact(curve.e.quotient())
            &&& !x.at_least(curve.d) ==> {
                &&& curve.response(x) matches Light::Exact(light)
                &&& light.num * 0x1_0000 == curve.e.0 * light.den
                &&& light.den > 0
            }
        }),
{
    let curve: Trc = Trc::parametric(function_type, p)->0;
    let (a, b): (int, int) = (p[1].0 as int, p[2].0 as int);
    assert(a * (-b) + b * a == 0) by (nonlinear_arith);
    assert(a * b + b * (-a) == 0) by (nonlinear_arith);
    let (e, d): (int, int) = (curve.e.0 as int, x.den as int);
    assert(-0x4000_0000_0000_0000_0000_0000 <= e * d <= 0x4000_0000_0000_0000_0000_0000)
        by (nonlinear_arith)
        requires
            i32::MIN <= e <= i32::MAX,
            0 < d <= i64::MAX,
    ;
    assert(e * d * 0x1_0000 == e * (0x1_0000 * d)) by (nonlinear_arith);
}

/// Inverting a curve gives the drive value back. On the upper segment, taking
/// the offset and the exponent away leaves `a·X + b`, from which the shader
/// takes `b` away and divides by `a`. On the linear segment it takes `f` away
/// and divides by `c`.
pub proof fn lemma_inverse_gives_drive_back(curve: Trc, x: Ratio)
    requires
        curve.wf(),
        x.bounded(),
    ensures
        x.at_least(curve.d) ==> match curve.response(x) {
            Light::Exact(light) => light == curve.e.quotient(),
            Light::Power { base, exponent, offset } => {
                &&& exponent == curve.g
                &&& offset == curve.e
                &&& base.num > 0 && base.den > 0
                &&& (base.num * 0x1_0000 - curve.b.0 * base.den) * x.den == curve.a.0 * x.num
                    * base.den
            },
        },
        !x.at_least(curve.d) ==> {
            &&& curve.response(x) matches Light::Exact(light)
            &&& light.den > 0
            &&& (light.num * 0x1_0000 - curve.f.0 * light.den) * x.den == curve.c.0 * x.num
                * light.den
        },
{
    lemma_line_is_undone(curve.a, curve.b, x);
    lemma_line_is_undone(curve.c, curve.f, x);
}

/// A line, less its offset, is its slope times the argument.
proof fn lemma_line_is_undone(slope: Fixed, offset: Fixed, x: Ratio)
    requires
        x.bounded(),
    ensures
        ({
            let value: Ratio = crate::number::line(slope, offset, x);
            &&& value.num == crate::number::line_numerator(slope, offset, x)
            &&& value.den == 0x1_0000 * x.den
            &&& (value.num * 0x1_0000 - offset.0 * value.den) * x.den == slope.0 * x.num * value.den
        }),
{
    let (s, o, n, d): (int, int, int, int) = (
        slope.0 as int,
        offset.0 as int,
        x.num as int,
        x.den as int,
    );
    crate::number::lemma_line_fits(slope, offset, x);
    assert(((s * n + o * d) * 0x1_0000 - o * (0x1_0000 * d)) * d == s * n * (0x1_0000 * d))
        by (nonlinear_arith);
}

} // verus!
