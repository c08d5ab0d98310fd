//! What the library promises, told over the bytes of a profile and over plain
//! numbers, in words of its own.
#![allow(unused_imports)]
use crate::correction::GamutCorrection;
use crate::encode::{CurveValues, Drive, TrcEncode};
use crate::number::{Fixed, Ratio};
use crate::profile::{IccError, IccProfile};
use crate::trc::{Exponent, Light, Trc};
use vstd::prelude::*;

verus! {

/// The unsigned number that four bytes make, the first of them the highest.
pub open spec fn unsigned(bytes: Seq<u8>, at: int) -> int {
    0x100_0000 * bytes[at] + 0x1_0000 * bytes[at + 1] + 0x100 * bytes[at + 2] + bytes[at + 3]
}

/// The signed number that four bytes make: the highest bit counts down.
pub open spec fn signed(bytes: Seq<u8>, at: int) -> int {
    if bytes[at] < 0x80 {
        unsigned(bytes, at)
    } else {
        unsigned(bytes, at) - 0x1_0000_0000
    }
}

/// Whether the four bytes at an offset are the ones given.
pub open spec fn spells(bytes: Seq<u8>, at: int, a: int, b: int, c: int, d: int) -> bool {
    bytes[at] == a && bytes[at + 1] == b && bytes[at + 2] == c && bytes[at + 3] == d
}

/// Numbers and signatures are read from the highest byte on.
pub proof fn lemma_reads_are_big_endian(bytes: Seq<u8>, at: int)
    ensures
        crate::bytes::u16_at(bytes, at) == 0x100 * bytes[at] + bytes[at + 1],
        crate::bytes::u32_at(bytes, at) == unsigned(bytes, at),
        crate::bytes::i32_at(bytes, at) == signed(bytes, at),
        crate::bytes::fixed_at(bytes, at).0 == signed(bytes, at),
        crate::bytes::signature_at(bytes, at)[0] == bytes[at],
        crate::bytes::signature_at(bytes, at)[1] == bytes[at + 1],
        crate::bytes::signature_at(bytes, at)[2] == bytes[at + 2],
        crate::bytes::signature_at(bytes, at)[3] == bytes[at + 3],
{
}

/// Two signatures are the same where their four bytes are.
proof fn lemma_same_bytes(a: [u8; 4], b: [u8; 4])
    ensures
        a == b <==> a[0] == b[0] && a[1] == b[1] && a[2] == b[2] && a[3] == b[3],
{
    if a[0] == b[0] && a[1] == b[1] && a[2] == b[2] && a[3] == b[3] {
        assert(a =~= b);
    }
}

/// Numbers with positive denominators of 64 bits are numbers that curves take,
/// and no others.
pub proof fn lemma_numbers_are_taken(x: Ratio, curve: Trc, profile: IccProfile)
    ensures
        x.bounded() <==> 0 < x.den <= 0x7fff_ffff_ffff_ffff && -0x8000_0000_0000_0000 <= x.num
            <= 0x7fff_ffff_ffff_ffff,
        curve.wf() <==> curve.d.bounded() && match curve.g {
            Exponent::Exact(value) => value.den > 0,
            Exponent::Through { x, y } => x.den > 0 && y.den > 0,
        },
        profile.wf() <==> profile.trc[0].wf() && profile.trc[1].wf() && profile.trc[2].wf(),
{
}

/// A fixed-point number counts in units of 2^-16.
pub proof fn lemma_fixed_point(value: Fixed)
    ensures
        value.quotient().den > 0,
        value.quotient().num * 0x1_0000 == value.0 * value.quotient().den,
{
}

/// The order of numbers is kept when both are scaled and moved: `a >= b` where
/// `a - b`, over a common denominator, is not negative.
pub proof fn lemma_order_of_numbers(a: Ratio, b: Ratio)
    requires
        a.den > 0,
        b.den > 0,
    ensures
        a.at_least(b) <==> a.num * b.den - b.num * a.den >= 0,
        a.at_least(b) || b.at_least(a),
        a.at_least(b) && b.at_least(a) <==> a.same(b),
{
}

/// Decoding: at or above the join a drive value makes `(a·X + b)^g + e` exactly
/// where `a·X + b` is positive, and the bare offset `e` where it is not. Below the
/// join it makes `c·X + f`.
pub proof fn lemma_decoding(curve: Trc, x: Ratio)
    requires
        curve.wf(),
        x.bounded(),
    ensures
        ({
            let above: bool = x.num * curve.d.den >= curve.d.num * x.den;
            let base: int = curve.a.0 * x.num + curve.b.0 * x.den;
            let line: int = curve.c.0 * x.num + curve.f.0 * x.den;
            match curve.response(x) {
                Light::Power { base: power, exponent, offset } => {
                    &&& above && base > 0
                    &&& power.den > 0
                    &&& power.num * (0x1_0000 * x.den) == base * power.den
                    &&& exponent == curve.g
                    &&& offset == curve.e
                },
                Light::Exact(light) => {
                    &&& !(above && base > 0)
                    &&& light.den > 0
                    &&& above ==> light.num * 0x1_0000 == curve.e.0 * light.den
                    &&& !above ==> light.num * (0x1_0000 * x.den) == line * light.den
                },
            }
        }),
{
    crate::number::lemma_line_fits(curve.a, curve.b, x);
    crate::number::lemma_line_fits(curve.c, curve.f, x);
}

/// The light at the join is that of the upper segment: `(a·D + b)^g + e` exactly
/// where `a·D + b` is positive, and the bare offset `e` where it is not.
pub proof fn lemma_join(curve: Trc)
    requires
        curve.wf(),
    ensures
        ({
            let base: int = curve.a.0 * curve.d.num + curve.b.0 * curve.d.den;
            match curve.upper(curve.d) {
                Light::Power { base: power, exponent, offset } => {
                    &&& base > 0
                    &&& power.den > 0
                    &&& power.num * (0x1_0000 * curve.d.den) == base * power.den
                    &&& exponent == curve.g
                    &&& offset == curve.e
                },
                Light::Exact(light) => {
                    &&& base <= 0
                    &&& light.den > 0
                    &&& light.num * 0x1_0000 == curve.e.0 * light.den
                },
            }
        }),
{
    lemma_decoding(curve, curve.d);
}

/// The midpoint is half drive: it lies above the join where the join is at most
/// one half, and its base is `a/2 + b`.
pub proof fn lemma_midpoint_is_half_drive(curve: Trc)
    requires
        curve.wf(),
    ensures
        crate::trc::half().den > 0,
        2 * crate::trc::half().num == crate::trc::half().den,
        match curve.response(crate::trc::half()) {
            Light::Power { base, exponent, offset } => {
                &&& 2 * curve.d.num <= curve.d.den
                &&& curve.a.0 + 2 * curve.b.0 > 0
                &&& base.num * 0x2_0000 == (curve.a.0 + 2 * curve.b.0) * base.den
                &&& exponent == curve.g
                &&& offset == curve.e
            },
            Light::Exact(light) => {
                &&& 2 * curve.d.num <= curve.d.den ==> {
                    &&& curve.a.0 + 2 * curve.b.0 <= 0
                    &&& light.num * 0x1_0000 == curve.e.0 * light.den
                }
                &&& 2 * curve.d.num > curve.d.den ==> light.num * 0x2_0000 == (curve.c.0 + 2
                    * curve.f.0) * light.den
            },
        },
{
    let x: Ratio = crate::trc::half();
    lemma_decoding(curve, x);
    assert(x.num == 1 && x.den == 2);
    lemma_at_half(curve.a.0 as int, curve.b.0 as int, x.num as int, x.den as int);
    lemma_at_half(curve.c.0 as int, curve.f.0 as int, x.num as int, x.den as int);
    lemma_at_half(curve.d.den as int, 0, x.num as int, x.den as int);
    lemma_at_half(0, curve.d.num as int, x.num as int, x.den as int);
}

/// Half of a slope, and an offset, over two.
proof fn lemma_at_half(slope: int, offset: int, num: int, den: int)
    by (nonlinear_arith)
    requires
        num == 1,
        den == 2,
    ensures
        slope * num + offset * den == slope + 2 * offset,
        slope * num == slope,
        num * slope == slope,
        offset * den == 2 * offset,
{
}

/// Whether a curve is what a parametric function, by its number and its
/// parameters in units of 2^-16, stands for:
///
/// ```text
/// 0: X^p0
/// 1: (p1·X + p2)^p0        from -p2/p1 on, else 0
/// 2: (p1·X + p2)^p0 + p3   from -p2/p1 on, else p3
/// 3: (p1·X + p2)^p0        from p4 on, else p3·X
/// 4: (p1·X + p2)^p0 + p5   from p4 on, else p3·X + p6
/// ```
pub open spec fn stands_for(curve: Trc, function: int, p: Seq<int>) -> bool {
    &&& curve.g matches Exponent::Exact(g)
    &&& g.den > 0 && g.num * 0x1_0000 == p[0] * g.den
    &&& curve.d.den > 0
    &&& function == 0 ==> {
        &&& curve.a.0 == 0x1_0000 && curve.b.0 == 0 && curve.c.0 == 0
        &&& curve.d.num == 0 && curve.e.0 == 0 && curve.f.0 == 0
    }
    &&& function >= 1 ==> curve.a.0 == p[1] && curve.b.0 == p[2]
    &&& function == 1 ==> curve.e.0 == 0 && curve.f.0 == 0
    &&& function == 2 ==> curve.e.0 == p[3] && curve.f.0 == p[3]
    &&& function == 1 || function == 2 ==> {
        &&& curve.c.0 == 0
        &&& curve.d.num * p[1] == -p[2] * curve.d.den
    }
    &&& function >= 3 ==> {
        &&& curve.c.0 == p[3]
        &&& curve.d.num * 0x1_0000 == p[4] * curve.d.den
    }
    &&& function == 3 ==> curve.e.0 == 0 && curve.f.0 == 0
    &&& function == 4 ==> curve.e.0 == p[5] && curve.f.0 == p[6]
}

/// The five parametric functions take 1, 3, 4, 5 and 7 parameters and are the
/// curves they stand for. There is none where a function that joins at `-b/a` has
/// no slope, and no other function.
pub proof fn lemma_parametric_functions(function: u16, p: Seq<Fixed>)
    ensures
        crate::trc::parameters_of(function) == (match function {
            0 => Some(1nat),
            1 => Some(3nat),
            2 => Some(4nat),
            3 => Some(5nat),
            4 => Some(7nat),
            _ => None,
        }),
        Trc::parametric(function, p) is None <==> function > 4 || ((function == 1 || function == 2)
            && p[1].0 == 0),
        Trc::parametric(function, p) matches Some(curve) ==> stands_for(
            curve,
            function as int,
            Seq::new(7, |i: int| p[i].0 as int),
        ),
{
    if function == 1 || function == 2 {
        let (a, b): (int, int) = (p[1].0 as int, p[2].0 as int);
        assert((-b) * a == -b * a);
        assert(b * a == -b * (-a)) by (nonlinear_arith);
    }
}

/// The root of `a·X + b` is where it is zero. There is none without a slope.
pub proof fn lemma_root_is_zero_of_line(a: Fixed, b: Fixed)
    ensures
        crate::trc::root(a, b) is None <==> a.0 == 0,
        crate::trc::root(a, b) matches Some(x) ==> x.den > 0 && a.0 * x.num + b.0 * x.den == 0,
{
    assert(a.0 * (-b.0) + b.0 * a.0 == 0) by (nonlinear_arith);
    assert(a.0 * b.0 + b.0 * (-a.0) == 0) by (nonlinear_arith);
}

/// Whether a curve is the pure power law of an exponent, `X^g`.
pub open spec fn is_power(curve: Trc, g: Exponent) -> bool {
    &&& curve.g == g
    &&& curve.a.0 == 0x1_0000 && curve.b.0 == 0 && curve.c.0 == 0
    &&& curve.d.den > 0 && curve.d.num == 0
    &&& curve.e.0 == 0 && curve.f.0 == 0
}

/// A pure power law has the slope one and no other parameter.
pub proof fn lemma_power_is_plain(g: Exponent)
    ensures
        is_power(Trc::power_law(g), g),
{
}

/// Whether an exponent is the power law's through the middle one of `n` samples
/// that make `sample` of 65535. Where the middle one is the last, or is black,
/// there is no such power law and the exponent is 2.2.
pub open spec fn fits(g: Exponent, n: int, sample: int) -> bool {
    if n >= 3 && sample != 0 {
        &&& g matches Exponent::Through { x, y }
        &&& x.den > 0 && x.num * (n - 1) == (n / 2) * x.den
        &&& y.den > 0 && y.num * 65535 == sample * y.den
    } else {
        g matches Exponent::Exact(value) && value.den > 0 && 10 * value.num == 22 * value.den
    }
}

/// A table is fitted at its middle sample, whatever its length.
pub proof fn lemma_table_is_fitted_in_the_middle(samples: Seq<u8>)
    requires
        4 <= samples.len() <= usize::MAX,
    ensures
        ({
            let n: int = samples.len() as int / 2;
            let at: int = 2 * (n / 2);
            fits(
                crate::profile::table_exponent(samples),
                n,
                0x100 * samples[at] + samples[at + 1],
            )
        }),
{
    let n: int = samples.len() as int / 2;
    let at: int = 2 * (n / 2);
    let sample: int = 0x100 * samples[at] + samples[at + 1];
    assert((n / 2) * (n - 1) == (n / 2) * (n - 1));
    assert(sample * 65535 == 65535 * sample);
}

/// A `curv` tag of no entries is the identity, and of one entry the gamma that it
/// states in units of 2^-8. Of more entries it is the power law fitted to the
/// middle one of all the samples that it states. One that states more samples
/// than it holds is truncated.
pub proof fn lemma_sampled_tag(data: Seq<u8>, sig: [u8; 4])
    requires
        12 <= data.len() <= usize::MAX,
        spells(data, 0, 0x63, 0x75, 0x72, 0x76),
    ensures
        ({
            let n: int = unsigned(data, 8);
            match crate::profile::curve_of(data, sig) {
                Err(err) => data.len() < 12 + 2 * n && err is Truncated,
                Ok(curve) => {
                    &&& data.len() >= 12 + 2 * n
                    &&& is_power(curve, curve.g)
                    &&& n == 0 ==> {
                        &&& curve.g matches Exponent::Exact(g)
                        &&& g.den > 0 && g.num == g.den
                    }
                    &&& n == 1 ==> {
                        &&& curve.g matches Exponent::Exact(g)
                        &&& g.den > 0 && g.num * 0x100 == (0x100 * data[12] + data[13]) * g.den
                    }
                    &&& n >= 2 ==> {
                        let at: int = 12 + 2 * (n / 2);
                        fits(curve.g, n, 0x100 * data[at] + data[at + 1])
                    }
                },
            }
        }),
{
    let n: int = unsigned(data, 8);
    lemma_reads_are_big_endian(data, 8);
    lemma_same_bytes(crate::bytes::signature_at(data, 0), crate::profile::CURV);
    assert(crate::bytes::signature_at(data, 0) == crate::profile::CURV);
    if n >= 2 && data.len() >= 12 + 2 * n {
        let samples: Seq<u8> = data.subrange(12, 12 + 2 * n);
        let at: int = 2 * (n / 2);
        lemma_table_is_fitted_in_the_middle(samples);
        assert(samples.len() as int / 2 == n);
        assert(samples[at] == data[12 + at] && samples[at + 1] == data[13 + at]);
    }
}

/// A `para` tag is the curve that its function stands for with the parameters
/// from byte 12 on. One of an unknown function, one that holds too few
/// parameters and one that joins at `-b/a` without a slope are truncated.
pub proof fn lemma_parametric_tag(data: Seq<u8>, sig: [u8; 4])
    requires
        data.len() >= 12,
        spells(data, 0, 0x70, 0x61, 0x72, 0x61),
    ensures
        ({
            let function: int = 0x100 * data[8] + data[9];
            let count: int = if function == 0 {
                1
            } else if function == 1 {
                3
            } else if function == 2 {
                4
            } else if function == 3 {
                5
            } else {
                7
            };
            let flat: bool = (function == 1 || function == 2) && signed(data, 16) == 0;
            match crate::profile::curve_of(data, sig) {
                Err(err) => {
                    &&& err is Truncated
                    &&& function > 4 || data.len() < 12 + 4 * count || flat
                },
                Ok(curve) => {
                    &&& function <= 4 && data.len() >= 12 + 4 * count && !flat
                    &&& stands_for(curve, function, Seq::new(7, |i: int| signed(data, 12 + 4 * i)))
                },
            }
        }),
{
    let function: u16 = crate::bytes::u16_at(data, 8) as u16;
    lemma_reads_are_big_endian(data, 8);
    lemma_same_bytes(crate::bytes::signature_at(data, 0), crate::profile::PARA);
    assert(crate::bytes::signature_at(data, 0) == crate::profile::PARA);
    lemma_same_bytes(crate::profile::PARA, crate::profile::CURV);
    if function <= 4 {
        let count: nat = crate::trc::parameters_of(function)->0;
        let p: Seq<Fixed> = crate::profile::parameters(data, count);
        lemma_parametric_functions(function, p);
        assert forall|i: int| 0 <= i < count implies #[trigger] p[i].0 == signed(data, 12 + 4 * i) by {
            lemma_reads_are_big_endian(data, 12 + 4 * i);
        }
        assert(p[0].0 == signed(data, 12));
        if function >= 1 {
            assert(p[1].0 == signed(data, 16));
            assert(p[2].0 == signed(data, 20));
        }
        if function >= 2 {
            assert(p[3].0 == signed(data, 24));
        }
        if function >= 3 {
            assert(p[4].0 == signed(data, 28));
        }
        if function >= 4 {
            assert(p[5].0 == signed(data, 32));
            assert(p[6].0 == signed(data, 36));
        }
    }
}

/// A tag that is neither `curv` nor `para`, or has no room for either, has the
/// wrong type. It is named.
pub proof fn lemma_other_tag_is_no_curve(data: Seq<u8>, sig: [u8; 4])
    ensures
        crate::profile::curve_of(data, sig) == Err::<Trc, IccError>(IccError::BadTagType(sig)) <==>
            data.len() < 12 || !(spells(data, 0, 0x63, 0x75, 0x72, 0x76) || spells(
            data,
            0,
            0x70,
            0x61,
            0x72,
            0x61,
        )),
{
    lemma_same_bytes(crate::bytes::signature_at(data, 0), crate::profile::CURV);
    lemma_same_bytes(crate::bytes::signature_at(data, 0), crate::profile::PARA);
}

/// Every entry of the tag table takes part, up to the number that the profile
/// states: the data of a signature that no earlier entry has are the bytes that
/// the entry says.
pub proof fn lemma_every_entry_is_found(bytes: Seq<u8>, sig: [u8; 4], index: int)
    requires
        0 <= index < unsigned(bytes, 128),
        spells(
            bytes,
            132 + 12 * index,
            sig[0] as int,
            sig[1] as int,
            sig[2] as int,
            sig[3] as int,
        ),
        forall|earlier: int|
            0 <= earlier < index ==> !#[trigger] spells(
                bytes,
                132 + 12 * earlier,
                sig[0] as int,
                sig[1] as int,
                sig[2] as int,
                sig[3] as int,
            ),
    ensures
        crate::profile::tag_data(bytes, sig) == Some(
            bytes.subrange(
                unsigned(bytes, 136 + 12 * index),
                unsigned(bytes, 136 + 12 * index) + unsigned(bytes, 140 + 12 * index),
            ),
        ),
{
    lemma_reads_are_big_endian(bytes, 128);
    lemma_reads_are_big_endian(bytes, 136 + 12 * index);
    lemma_reads_are_big_endian(bytes, 140 + 12 * index);
    lemma_same_bytes(crate::profile::tag_signature(bytes, index), sig);
    assert forall|earlier: int| 0 <= earlier < index implies #[trigger] crate::profile::tag_signature(
        bytes,
        earlier,
    ) != sig by {
        assert(!spells(
            bytes,
            132 + 12 * earlier,
            sig[0] as int,
            sig[1] as int,
            sig[2] as int,
            sig[3] as int,
        ));
        lemma_same_bytes(crate::profile::tag_signature(bytes, earlier), sig);
    }
    crate::profile::lemma_tag_data(bytes, sig, index);
}

/// A signature that no entry has is not found, and one that is found has an
/// entry.
pub proof fn lemma_absent_entry_is_not_found(bytes: Seq<u8>, sig: [u8; 4])
    ensures
        crate::profile::tag_data(bytes, sig) is None <==> forall|index: int|
            0 <= index < unsigned(bytes, 128) ==> !#[trigger] spells(
                bytes,
                132 + 12 * index,
                sig[0] as int,
                sig[1] as int,
                sig[2] as int,
                sig[3] as int,
            ),
{
    lemma_reads_are_big_endian(bytes, 128);
    if exists|index: int|
        0 <= index < unsigned(bytes, 128) && #[trigger] spells(
            bytes,
            132 + 12 * index,
            sig[0] as int,
            sig[1] as int,
            sig[2] as int,
            sig[3] as int,
        ) {
        let index: int = choose|index: int|
            0 <= index < unsigned(bytes, 128) && #[trigger] spells(
                bytes,
                132 + 12 * index,
                sig[0] as int,
                sig[1] as int,
                sig[2] as int,
                sig[3] as int,
            );
        lemma_first_entry(bytes, sig, index);
    } else if crate::profile::tag_data(bytes, sig) is Some {
        let index: int = choose|index: int| crate::profile::first_with(bytes, sig, index);
        lemma_same_bytes(crate::profile::tag_signature(bytes, index), sig);
        assert(spells(
            bytes,
            132 + 12 * index,
            sig[0] as int,
            sig[1] as int,
            sig[2] as int,
            sig[3] as int,
        ));
    }
}

/// Where an entry has a signature, there is a first one, which is found.
proof fn lemma_first_entry(bytes: Seq<u8>, sig: [u8; 4], index: int)
    requires
        0 <= index < unsigned(bytes, 128),
        spells(
            bytes,
            132 + 12 * index,
            sig[0] as int,
            sig[1] as int,
            sig[2] as int,
            sig[3] as int,
        ),
    ensures
        crate::profile::tag_data(bytes, sig) is Some,
    decreases index,
{
    if exists|earlier: int|
        0 <= earlier < index && #[trigger] spells(
            bytes,
            132 + 12 * earlier,
            sig[0] as int,
            sig[1] as int,
            sig[2] as int,
            sig[3] as int,
        ) {
        let earlier: int = choose|earlier: int|
            0 <= earlier < index && #[trigger] spells(
                bytes,
                132 + 12 * earlier,
                sig[0] as int,
                sig[1] as int,
                sig[2] as int,
                sig[3] as int,
            );
        lemma_first_entry(bytes, sig, earlier);
    } else {
        lemma_every_entry_is_found(bytes, sig, index);
    }
}

/// Whether the tag table, and what each of its entries says, lie inside a profile.
pub open spec fn inside(bytes: Seq<u8>) -> bool {
    &&& 132 + 12 * unsigned(bytes, 128) <= bytes.len()
    &&& forall|index: int|
        0 <= index < unsigned(bytes, 128) ==> #[trigger] unsigned(bytes, 136 + 12 * index)
            + unsigned(bytes, 140 + 12 * index) <= bytes.len()
}

/// Whether a profile starts as one of a display does: `acsp` at 36, `mntr` at 12,
/// `RGB ` at 16 and `XYZ ` at 20.
pub open spec fn opens_as_display(bytes: Seq<u8>) -> bool {
    &&& bytes.len() >= 132
    &&& spells(bytes, 36, 0x61, 0x63, 0x73, 0x70)
    &&& spells(bytes, 12, 0x6d, 0x6e, 0x74, 0x72)
    &&& spells(bytes, 16, 0x52, 0x47, 0x42, 0x20)
    &&& spells(bytes, 20, 0x58, 0x59, 0x5a, 0x20)
}

/// A profile is refused for its header or for its tag table exactly where one of
/// them is not as it should be, and a header is looked at from the front.
pub proof fn lemma_header_and_table(bytes: Seq<u8>)
    ensures
        crate::profile::parsed(bytes) == Err::<IccProfile, IccError>(IccError::TooShort) <==>
            bytes.len() < 132,
        crate::profile::parsed(bytes) == Err::<IccProfile, IccError>(IccError::BadMagic) <==>
            bytes.len() >= 132 && !spells(bytes, 36, 0x61, 0x63, 0x73, 0x70),
        match crate::profile::parsed(bytes) {
            Err(IccError::WrongProfileKind { class, space, pcs }) => {
                &&& bytes.len() >= 132 && spells(bytes, 36, 0x61, 0x63, 0x73, 0x70)
                &&& !opens_as_display(bytes)
                &&& spells(
                    bytes,
                    12,
                    class[0] as int,
                    class[1] as int,
                    class[2] as int,
                    class[3] as int,
                )
                &&& spells(
                    bytes,
                    16,
                    space[0] as int,
                    space[1] as int,
                    space[2] as int,
                    space[3] as int,
                )
                &&& spells(bytes, 20, pcs[0] as int, pcs[1] as int, pcs[2] as int, pcs[3] as int)
            },
            _ => bytes.len() < 132 || !spells(bytes, 36, 0x61, 0x63, 0x73, 0x70)
                || opens_as_display(bytes),
        },
        opens_as_display(bytes) && !inside(bytes) ==> crate::profile::parsed(bytes) == Err::<
            IccProfile,
            IccError,
        >(IccError::Truncated),
        crate::profile::table_fits(bytes) <==> inside(bytes),
{
    lemma_same_bytes(crate::bytes::signature_at(bytes, 36), crate::profile::ACSP);
    lemma_same_bytes(crate::bytes::signature_at(bytes, 12), crate::profile::MNTR);
    lemma_same_bytes(crate::bytes::signature_at(bytes, 16), crate::profile::RGB);
    lemma_same_bytes(crate::bytes::signature_at(bytes, 20), crate::profile::XYZ);
    lemma_reads_are_big_endian(bytes, 128);
    assert forall|index: int| crate::profile::tag_end(bytes, index) == #[trigger] unsigned(
        bytes,
        136 + 12 * index,
    ) + unsigned(bytes, 140 + 12 * index) by {
        lemma_reads_are_big_endian(bytes, 136 + 12 * index);
        lemma_reads_are_big_endian(bytes, 140 + 12 * index);
    }
    if inside(bytes) {
        assert forall|index: int| 0 <= index < crate::profile::tag_count(bytes) implies
            #[trigger] crate::profile::tag_end(bytes, index) <= bytes.len() by {
            assert(unsigned(bytes, 136 + 12 * index) + unsigned(bytes, 140 + 12 * index)
                <= bytes.len());
        }
    }
    if crate::profile::table_fits(bytes) {
        assert forall|index: int| 0 <= index < unsigned(bytes, 128) implies #[trigger] unsigned(
            bytes,
            136 + 12 * index,
        ) + unsigned(bytes, 140 + 12 * index) <= bytes.len() by {
            assert(crate::profile::tag_end(bytes, index) <= bytes.len());
        }
    }
    if bytes.len() >= 132 && opens_as_display(bytes) && inside(bytes) {
        lemma_tags_give_no_header_error(bytes);
    }
}

/// What goes wrong with tags is told apart from what goes wrong with the header.
proof fn lemma_tags_give_no_header_error(bytes: Seq<u8>)
    ensures
        match crate::profile::colorimetry(bytes) {
            Ok(_) => true,
            Err(err) => err is Truncated || err is MissingTag || err is BadTagType,
        },
{
}

/// A colorant tag holds three signed numbers, from byte 8 on. One that is missing
/// is named, and so is one of another type or without room for the numbers.
pub proof fn lemma_colorant_tag(data: Option<Seq<u8>>, sig: [u8; 4])
    ensures
        match crate::profile::colorant_of(data, sig) {
            Err(IccError::MissingTag(named)) => data is None && named == sig,
            Err(IccError::BadTagType(named)) => {
                &&& named == sig
                &&& data matches Some(data)
                &&& data.len() < 20 || !spells(data, 0, 0x58, 0x59, 0x5a, 0x20)
            },
            Err(_) => false,
            Ok(colour) => {
                &&& data matches Some(data)
                &&& data.len() >= 20 && spells(data, 0, 0x58, 0x59, 0x5a, 0x20)
                &&& colour.x.0 == signed(data, 8)
                &&& colour.y.0 == signed(data, 12)
                &&& colour.z.0 == signed(data, 16)
            },
        },
{
    if let Some(data) = data {
        lemma_reads_are_big_endian(data, 8);
        lemma_reads_are_big_endian(data, 12);
        lemma_reads_are_big_endian(data, 16);
        lemma_same_bytes(crate::bytes::signature_at(data, 0), crate::profile::XYZ);
    }
}

/// A display profile whose tag table lies inside it is used exactly where its
/// colorants `rXYZ`, `gXYZ` and `bXYZ` can be had and the curves `rTRC`, `gTRC`
/// and `bTRC` that it has can be read. Each goes where it belongs. A missing red
/// curve is the gamma 2.2, and another missing curve is the red one.
pub proof fn lemma_tags_go_where_they_belong(bytes: Seq<u8>)
    requires
        opens_as_display(bytes),
        inside(bytes),
    ensures
        ({
            let rxyz: [u8; 4] = [0x72, 0x58, 0x59, 0x5a];
            let gxyz: [u8; 4] = [0x67, 0x58, 0x59, 0x5a];
            let bxyz: [u8; 4] = [0x62, 0x58, 0x59, 0x5a];
            let rtrc: [u8; 4] = [0x72, 0x54, 0x52, 0x43];
            let gtrc: [u8; 4] = [0x67, 0x54, 0x52, 0x43];
            let btrc: [u8; 4] = [0x62, 0x54, 0x52, 0x43];
            let red = crate::profile::colorant_of(crate::profile::tag_data(bytes, rxyz), rxyz);
            let green = crate::profile::colorant_of(crate::profile::tag_data(bytes, gxyz), gxyz);
            let blue = crate::profile::colorant_of(crate::profile::tag_data(bytes, bxyz), bxyz);
            let first = crate::profile::tag_data(bytes, rtrc);
            let second = crate::profile::tag_data(bytes, gtrc);
            let third = crate::profile::tag_data(bytes, btrc);
            let first_fails: bool = first is Some && crate::profile::curve_of(
                first->0,
                rtrc,
            ) is Err;
            let second_fails: bool = second is Some && crate::profile::curve_of(
                second->0,
                gtrc,
            ) is Err;
            let third_fails: bool = third is Some && crate::profile::curve_of(third->0, btrc) is Err;
            match crate::profile::parsed(bytes) {
                Ok(profile) => {
                    &&& red is Ok && red->Ok_0 == profile.red
                    &&& green is Ok && green->Ok_0 == profile.green
                    &&& blue is Ok && blue->Ok_0 == profile.blue
                    &&& match first {
                        Some(data) => !first_fails && crate::profile::curve_of(data, rtrc)->Ok_0
                            == profile.trc[0],
                        None => {
                            &&& is_power(profile.trc[0], profile.trc[0].g)
                            &&& fits(profile.trc[0].g, 0, 0)
                        },
                    }
                    &&& match second {
                        Some(data) => !second_fails && crate::profile::curve_of(data, gtrc)->Ok_0
                            == profile.trc[1],
                        None => profile.trc[1] == profile.trc[0],
                    }
                    &&& match third {
                        Some(data) => !third_fails && crate::profile::curve_of(data, btrc)->Ok_0
                            == profile.trc[2],
                        None => profile.trc[2] == profile.trc[0],
                    }
                },
                Err(err) => if first_fails {
                    crate::profile::curve_of(first->0, rtrc)->Err_0 == err
                } else if red is Err {
                    red->Err_0 == err
                } else if green is Err {
                    green->Err_0 == err
                } else if blue is Err {
                    blue->Err_0 == err
                } else if second_fails {
                    crate::profile::curve_of(second->0, gtrc)->Err_0 == err
                } else {
                    third_fails && crate::profile::curve_of(third->0, btrc)->Err_0 == err
                },
            }
        }),
{
    lemma_header_and_table(bytes);
    lemma_same_bytes(crate::profile::RED_COLORANT, [0x72, 0x58, 0x59, 0x5a]);
    lemma_same_bytes(crate::profile::GREEN_COLORANT, [0x67, 0x58, 0x59, 0x5a]);
    lemma_same_bytes(crate::profile::BLUE_COLORANT, [0x62, 0x58, 0x59, 0x5a]);
    lemma_same_bytes(crate::profile::RED_CURVE, [0x72, 0x54, 0x52, 0x43]);
    lemma_same_bytes(crate::profile::GREEN_CURVE, [0x67, 0x54, 0x52, 0x43]);
    lemma_same_bytes(crate::profile::BLUE_CURVE, [0x62, 0x54, 0x52, 0x43]);
    lemma_same_bytes(crate::bytes::signature_at(bytes, 36), crate::profile::ACSP);
    lemma_same_bytes(crate::bytes::signature_at(bytes, 12), crate::profile::MNTR);
    lemma_same_bytes(crate::bytes::signature_at(bytes, 16), crate::profile::RGB);
    lemma_same_bytes(crate::bytes::signature_at(bytes, 20), crate::profile::XYZ);
}

/// The determinant of three rows is the sum of the products along the diagonals,
/// those that fall less those that rise.
pub open spec fn diagonals(
    a: int,
    b: int,
    c: int,
    d: int,
    e: int,
    f: int,
    g: int,
    h: int,
    i: int,
) -> int {
    a * e * i + b * f * g + c * d * h - c * e * g - b * d * i - a * f * h
}

/// The determinant goes by the diagonals. A matrix of fixed-point numbers is
/// singular where its determinant is below 10^-9 in size.
pub proof fn lemma_determinant(m: [[i32; 3]; 3])
    ensures
        ({
            let det: int = diagonals(
                m[0][0] as int,
                m[0][1] as int,
                m[0][2] as int,
                m[1][0] as int,
                m[1][1] as int,
                m[1][2] as int,
                m[2][0] as int,
                m[2][1] as int,
                m[2][2] as int,
            );
            &&& crate::matrix::determinant(m) == det
            &&& crate::matrix::singular(m) <==> -281_474_976_710_656 < 1_000_000_000 * det
                < 281_474_976_710_656
        }),
{
    let (a, b, c): (int, int, int) = (m[0][0] as int, m[0][1] as int, m[0][2] as int);
    let (d, e, f): (int, int, int) = (m[1][0] as int, m[1][1] as int, m[1][2] as int);
    let (g, h, i): (int, int, int) = (m[2][0] as int, m[2][1] as int, m[2][2] as int);
    assert(crate::matrix::determinant(m) == a * (e * i - f * h) + b * (f * g - d * i) + c * (d * h
        - e * g));
    assert(a * (e * i - f * h) == a * e * i - a * f * h) by (nonlinear_arith);
    assert(b * (f * g - d * i) == b * f * g - b * d * i) by (nonlinear_arith);
    assert(c * (d * h - e * g) == c * d * h - c * e * g) by (nonlinear_arith);
}

/// The inverse of a matrix of fixed-point numbers undoes it: a row times a column
/// of the inverse is one where they belong together, and else zero. The
/// denominator of the inverse is the size of the determinant.
pub proof fn lemma_inverse_undoes(m: [[i32; 3]; 3], row: int, col: int)
    requires
        0 <= row < 3,
        0 <= col < 3,
    ensures
        ({
            let det: int = crate::matrix::determinant(m);
            let size: int = crate::binary::absolute(det) as int;
            &&& size == det || size == -det
            &&& size >= 0
            &&& m[row][0] * crate::matrix::inverse_numerator(m, 0, col) + m[row][1]
                * crate::matrix::inverse_numerator(m, 1, col) + m[row][2]
                * crate::matrix::inverse_numerator(m, 2, col) == (if row == col {
                0x1_0000 * size
            } else {
                0
            })
        }),
{
    crate::matrix::lemma_inverse_cancels(m, row, col);
}

/// An entry of a product is a row times a column.
pub proof fn lemma_product_is_row_times_column(
    a: crate::matrix::RatioMatrix,
    b: crate::matrix::RatioMatrix,
    row: int,
    col: int,
)
    requires
        0 <= row < 3,
        0 <= col < 3,
    ensures
        crate::matrix::product_numerator(a, b, row, col) == a.num[row][2] * b.num[2][col]
            + a.num[row][1] * b.num[1][col] + a.num[row][0] * b.num[0][col],
{
}

/// Whether a channel can be inverted on a display: the gamma through its midpoint
/// is a number from 0.5 to 5, it has a slope, and its exponent is not zero for
/// the shader, which is where it is no more than 2^-150 in size.
pub open spec fn invertible(curve: Trc, values: CurveValues) -> bool {
    &&& 0x3fe0_0000_0000_0000 <= values.effective_gamma <= 0x4014_0000_0000_0000
    &&& curve.a.0 != 0
    &&& match curve.g {
        Exponent::Exact(g) => g.num != 0,
        Exponent::Through { .. } => values.g as int % 0x8000_0000_0000_0000
            > 0x3690_0000_0000_0000,
    }
}

/// A profile is corrected for exactly where its three channels can be inverted and
/// its colorants span a gamut, whatever the rest of a curve is. The first channel
/// that cannot be inverted is told by its gamma.
pub proof fn lemma_correction_is_owed(profile: IccProfile, values: [CurveValues; 3])
    ensures
        ({
            let det: int = diagonals(
                profile.red.x.0 as int,
                profile.green.x.0 as int,
                profile.blue.x.0 as int,
                profile.red.y.0 as int,
                profile.green.y.0 as int,
                profile.blue.y.0 as int,
                profile.red.z.0 as int,
                profile.green.z.0 as int,
                profile.blue.z.0 as int,
            );
            let flat: bool = -281_474_976_710_656 < 1_000_000_000 * det < 281_474_976_710_656;
            let first: bool = invertible(profile.trc[0], values[0]);
            let second: bool = invertible(profile.trc[1], values[1]);
            let third: bool = invertible(profile.trc[2], values[2]);
            match crate::correction::refusal(profile, values) {
                None => first && second && third && !flat,
                Some(IccError::Singular) => first && second && third && flat,
                Some(IccError::ImplausibleGamma(gamma)) => {
                    ||| !first && gamma == values[0].effective_gamma
                    ||| first && !second && gamma == values[1].effective_gamma
                    ||| first && second && !third && gamma == values[2].effective_gamma
                },
                Some(_) => false,
            }
        }),
{
    lemma_determinant(crate::correction::panel(profile));
    assert forall|channel: int| 0 <= channel < 3 implies #[trigger] crate::correction::implausible(
        profile,
        values,
        channel,
    ) == !invertible(profile.trc[channel], values[channel]) by {
        crate::correction::lemma_plausible_range(values[channel].effective_gamma);
        crate::binary::lemma_tiny_narrows_to_zero(values[channel].g);
    }
}

/// The sRGB colorants in units of 10^-7, columns R, G, B and rows X, Y, Z.
pub open spec fn srgb(row: int, col: int) -> int {
    if row == 0 {
        if col == 0 {
            4360747
        } else if col == 1 {
            3850649
        } else {
            1430804
        }
    } else if row == 1 {
        if col == 0 {
            2225045
        } else if col == 1 {
            7168786
        } else {
            606169
        }
    } else {
        if col == 0 {
            139322
        } else if col == 1 {
            971045
        } else {
            7141733
        }
    }
}

/// A column of the correction is how much of each panel primary makes an sRGB
/// primary: there are three numbers that the entries of the column are rounded
/// from, and the panel's colorants in these amounts add up to the sRGB colorant,
/// in X, in Y and in Z.
pub proof fn lemma_correction_makes_srgb(
    correction: GamutCorrection,
    profile: IccProfile,
    values: [CurveValues; 3],
    col: int,
)
    requires
        0 <= col < 3,
        crate::correction::refusal(profile, values) is None,
        crate::correction::corrects(correction, profile, values),
    ensures
        exists|r: int, g: int, b: int, den: int|
            {
                &&& den > 0
                &&& #[trigger] crate::binary::rounds_to(correction.matrix[0][col], r, den)
                &&& #[trigger] crate::binary::rounds_to(correction.matrix[1][col], g, den)
                &&& #[trigger] crate::binary::rounds_to(correction.matrix[2][col], b, den)
                &&& 10_000_000 * (profile.red.x.0 * r + profile.green.x.0 * g + profile.blue.x.0
                    * b) == 0x1_0000 * (srgb(0, col) * den)
                &&& 10_000_000 * (profile.red.y.0 * r + profile.green.y.0 * g + profile.blue.y.0
                    * b) == 0x1_0000 * (srgb(1, col) * den)
                &&& 10_000_000 * (profile.red.z.0 * r + profile.green.z.0 * g + profile.blue.z.0
                    * b) == 0x1_0000 * (srgb(2, col) * den)
            },
{
    let m: [[i32; 3]; 3] = crate::correction::panel(profile);
    let r: int = crate::matrix::correction_numerator(m, 0, col);
    let g: int = crate::matrix::correction_numerator(m, 1, col);
    let b: int = crate::matrix::correction_numerator(m, 2, col);
    let size: int = crate::binary::absolute(crate::matrix::determinant(m)) as int;
    let den: int = crate::matrix::correction_denominator(m);
    lemma_determinant(m);
    lemma_correction_is_owed(profile, values);
    assert(size > 0 && den == size * 10_000_000);
    assert(crate::binary::rounds_to(correction.matrix[0][col], r, den));
    assert(crate::binary::rounds_to(correction.matrix[1][col], g, den));
    assert(crate::binary::rounds_to(correction.matrix[2][col], b, den));
    crate::matrix::lemma_panel_shows_srgb(m, 0, col);
    crate::matrix::lemma_panel_shows_srgb(m, 1, col);
    crate::matrix::lemma_panel_shows_srgb(m, 2, col);
    assert forall|s: int| 10_000_000 * (0x1_0000 * size * s) == 0x1_0000 * #[trigger] (s * den) by {
        assert(10_000_000 * (0x1_0000 * size * s) == 0x1_0000 * (s * (size * 10_000_000)))
            by (nonlinear_arith);
    }
    assert(srgb(0, col) * den == den * srgb(0, col)) by (nonlinear_arith);
    assert(crate::matrix::SRGB_PCS[0][col] == srgb(0, col));
    assert(crate::matrix::SRGB_PCS[1][col] == srgb(1, col));
    assert(crate::matrix::SRGB_PCS[2][col] == srgb(2, col));
}

/// The least correction that is reported is beyond 10^-3: its pattern is the one
/// that lies nearest to 10^-3.
pub proof fn lemma_noise_floor()
    ensures
        ({
            let floor: nat = crate::correction::NOISE_FLOOR as nat;
            let unit: nat = vstd::arithmetic::power2::pow2(149);
            let below: nat = crate::binary::units(0x0080_0000, (floor - 1) as nat);
            let here: nat = crate::binary::units(0x0080_0000, floor);
            let above: nat = crate::binary::units(0x0080_0000, floor + 1);
            (below + here) * 1000 < 2 * unit < (here + above) * 1000
        }),
{
    let step: nat = vstd::arithmetic::power2::pow2(116);
    vstd::arithmetic::power2::lemma_pow2_pos(116);
    vstd::arithmetic::power2::lemma_pow2_adds(116, 33);
    vstd::arithmetic::power2::lemma2_to64();
    vstd::arithmetic::power2::lemma2_to64_rest();
    assert(crate::binary::units(0x0080_0000, 0x3a83_126e) == 0x0083_126e * step);
    assert(crate::binary::units(0x0080_0000, 0x3a83_126f) == 0x0083_126f * step);
    assert(crate::binary::units(0x0080_0000, 0x3a83_1270) == 0x0083_1270 * step);
    assert(vstd::arithmetic::power2::pow2(149) == step * 0x2_0000_0000);
}

/// A matrix entry is out of gamut where its pattern lies beyond that of -10^-3,
/// up to minus infinity.
pub proof fn lemma_out_of_gamut_range(bits: u32)
    ensures
        crate::correction::out_of_gamut(bits) <==> 0xba83_126f < bits <= 0xff80_0000,
{
    let floor: u32 = crate::correction::NOISE_FLOOR;
    let below: u32 = 0xba83_126f;
    assert(below == 0x8000_0000 + floor);
    crate::binary::lemma_patterns_are_ordered(bits, below);
    crate::binary::lemma_patterns_are_ordered(below, bits);
    assert(crate::binary::value32(below) == -crate::binary::value32(floor));
}

/// The shader encodes light on the curve from the pattern of the join on, and
/// below it on the line. What is not a number goes on the line.
pub proof fn lemma_light_falls_on_one_segment(encode: TrcEncode, y: u32)
    ensures
        ({
            let light: int = if y < 0x8000_0000 {
                y as int
            } else {
                0x8000_0000 - y
            };
            let join: int = if encode.y_join < 0x8000_0000 {
                encode.y_join as int
            } else {
                0x8000_0000 - encode.y_join
            };
            let numbers: bool = y as int % 0x8000_0000 <= 0x7f80_0000 && encode.y_join as int
                % 0x8000_0000 <= 0x7f80_0000;
            match encode.formula(y) {
                Drive::Curve { light: from, offset, exponent, shift, scale } => {
                    &&& numbers && light >= join
                    &&& from == y
                    &&& offset == encode.e
                    &&& exponent == encode.g
                    &&& shift == encode.b
                    &&& scale == encode.a
                },
                Drive::Line { light: from, offset, slope } => {
                    &&& !(numbers && light >= join)
                    &&& from == y
                    &&& offset == encode.f
                    &&& slope == encode.c
                },
            }
        }),
{
    crate::binary::lemma_patterns_are_ordered(y, encode.y_join);
    crate::binary::lemma_patterns_are_ordered(encode.y_join, y);
}

/// Each coefficient that the shader takes is a parameter of the curve, rounded
/// once. An exponent that is not exact is taken from its evaluation.
pub proof fn lemma_coefficients_are_parameters(
    encode: TrcEncode,
    curve: Trc,
    values: CurveValues,
)
    requires
        crate::encode::inverts(encode, curve, values),
    ensures
        crate::binary::rounds_to(encode.a, curve.a.0 as int, 0x1_0000),
        crate::binary::rounds_to(encode.b, curve.b.0 as int, 0x1_0000),
        crate::binary::rounds_to(encode.e, curve.e.0 as int, 0x1_0000),
        crate::binary::rounds_to(encode.f, curve.f.0 as int, 0x1_0000),
        match curve.g {
            Exponent::Exact(g) => crate::binary::rounds_to(encode.g, g.num as int, g.den as int),
            Exponent::Through { .. } => crate::binary::narrows_to(encode.g, values.g),
        },
{
}

/// Encoding undoes decoding. What a drive value on the upper segment makes is
/// encoded by taking away the very offset that decoding adds, taking the root of
/// the very exponent, and undoing the very line `a·X + b` that leads from the
/// drive value to the base, each rounded once.
pub proof fn lemma_encoding_undoes_decoding(
    encode: TrcEncode,
    curve: Trc,
    values: CurveValues,
    x: Ratio,
    y: u32,
)
    requires
        curve.wf(),
        x.bounded(),
        crate::encode::inverts(encode, curve, values),
    ensures
        match (curve.response(x), encode.formula(y)) {
            (
                Light::Power { base, exponent, offset },
                Drive::Curve { light, offset: less, exponent: root, shift, scale },
            ) => {
                &&& light == y
                &&& crate::binary::rounds_to(less, offset.0 as int, 0x1_0000)
                &&& match exponent {
                    Exponent::Exact(g) => crate::binary::rounds_to(root, g.num as int, g.den as int),
                    Exponent::Through { .. } => crate::binary::narrows_to(root, values.g),
                }
                &&& crate::binary::rounds_to(scale, curve.a.0 as int, 0x1_0000)
                &&& crate::binary::rounds_to(shift, curve.b.0 as int, 0x1_0000)
                &&& base.num * (0x1_0000 * x.den) == (curve.a.0 * x.num + curve.b.0 * x.den)
                    * base.den
            },
            _ => true,
        },
{
    lemma_decoding(curve, x);
    lemma_light_falls_on_one_segment(encode, y);
    lemma_coefficients_are_parameters(encode, curve, values);
}

/// Whether linear light at the join lights the linear segment: the bare offset or
/// the evaluated power is above zero, or is not a number.
pub open spec fn lit(curve: Trc, values: CurveValues) -> bool {
    if curve.a.0 * curve.d.num + curve.b.0 * curve.d.den <= 0 {
        curve.e.0 > 0
    } else {
        !(values.y_join == 0 || 0x8000_0000_0000_0000 <= values.y_join <= 0xfff0_0000_0000_0000)
    }
}

/// A linear segment with a slope that light falls on is kept: the shader branches
/// at the light of the join, and below it takes away the very offset that decoding
/// adds and divides by the very slope, each rounded once. Any other is dropped:
/// the join is zero and the slope is one.
pub proof fn lemma_linear_segment_is_kept(
    encode: TrcEncode,
    curve: Trc,
    values: CurveValues,
    x: Ratio,
)
    requires
        curve.wf(),
        x.bounded(),
        crate::encode::inverts(encode, curve, values),
    ensures
        curve.c.0 != 0 && lit(curve, values) ==> {
            &&& match curve.upper(curve.d) {
                Light::Exact(light) => crate::binary::rounds_to(
                    encode.y_join,
                    light.num as int,
                    light.den as int,
                ),
                Light::Power { .. } => crate::binary::narrows_to(encode.y_join, values.y_join),
            }
            &&& x.num * curve.d.den < curve.d.num * x.den ==> {
                &&& curve.response(x) matches Light::Exact(light)
                &&& crate::binary::rounds_to(encode.c, curve.c.0 as int, 0x1_0000)
                &&& crate::binary::rounds_to(encode.f, curve.f.0 as int, 0x1_0000)
                &&& light.num * (0x1_0000 * x.den) == (curve.c.0 * x.num + curve.f.0 * x.den)
                    * light.den
            }
        },
        curve.c.0 == 0 || !lit(curve, values) ==> encode.c == 0x3f80_0000 && encode.y_join == 0,
{
    lemma_join(curve);
    lemma_decoding(curve, x);
    crate::binary::lemma_wide_patterns_are_ordered(values.y_join, 0);
    crate::binary::lemma_wide_patterns_are_ordered(0, values.y_join);
    assert(crate::binary::value64(0) == 0);
    assert(lit(curve, values) <==> !crate::encode::dark(curve.upper(curve.d), values.y_join)) by {
        crate::number::lemma_line_fits(curve.a, curve.b, curve.d);
    }
    lemma_coefficients_are_parameters(encode, curve, values);
}

/// What a correction inverts is the curve of its own channel.
pub proof fn lemma_channels_are_inverted(
    correction: GamutCorrection,
    profile: IccProfile,
    values: [CurveValues; 3],
)
    requires
        crate::correction::corrects(correction, profile, values),
    ensures
        crate::encode::inverts(correction.trc[0], profile.trc[0], values[0]),
        crate::encode::inverts(correction.trc[1], profile.trc[1], values[1]),
        crate::encode::inverts(correction.trc[2], profile.trc[2], values[2]),
{
}

/// Numbers are equal where the one less the other is zero. Exponents that are
/// stated are equal as numbers, and fitted ones where they go through one point.
/// A fit on the diagonal is one, and a fit at full light is zero.
pub proof fn lemma_equal_exponents(a: Ratio, b: Ratio, v: Ratio, w: Ratio)
    ensures
        a.same(b) <==> a.den > 0 && b.den > 0 && a.num * b.den - b.num * a.den == 0,
        Exponent::Exact(a).same(Exponent::Exact(b)) <==> a.same(b),
        a.same(v) && b.same(w) && 0 < a.num < a.den ==> (Exponent::Through { x: a, y: b }).same(
            Exponent::Through { x: v, y: w },
        ),
        0 < a.num < a.den && b.same(a) && v.den > 0 ==> ((Exponent::Through { x: a, y: b }).same(
            Exponent::Exact(v),
        ) <==> v.num == v.den),
        0 < a.num < a.den && b.den > 0 && b.num == b.den && v.den > 0 ==> ((Exponent::Through {
            x: a,
            y: b,
        }).same(Exponent::Exact(v)) <==> v.num == 0),
        0 < a.num < a.den && !b.same(a) && !(b.num == b.den) ==> !(Exponent::Through {
            x: a,
            y: b,
        }).same(Exponent::Exact(v)),
        0 < a.num < a.den && 0 < v.num < v.den && !b.same(a) && b.num != b.den && !w.same(v)
            && w.num != w.den && (Exponent::Through { x: a, y: b }).same(
            Exponent::Through { x: v, y: w },
        ) ==> a.same(v) && b.same(w),
        !(0 < a.num < a.den) ==> !(Exponent::Through { x: a, y: b }).same(Exponent::Exact(v)),
        !(0 < a.num < a.den) && !(0 < v.num < v.den) ==> ((Exponent::Through { x: a, y: b }).same(
            Exponent::Through { x: v, y: w },
        ) <==> a.same(v) && b.same(w)),
{
    lemma_same_as_whole(a);
    lemma_same_as_whole(b);
    lemma_same_as_whole(v);
    lemma_same_as_whole(w);
    if a.same(v) && b.same(w) && 0 < a.num < a.den {
        lemma_same_fits(a, b, v, w);
    }
    let (p, q, t): (int, int, int) = (a.num as int, a.den as int, b.den as int);
    assert(0 < p < q && t > 0 ==> t * q != p * t) by (nonlinear_arith);
}

/// A number is one where it is its denominator over itself, and zero where it is
/// nothing over it.
proof fn lemma_same_as_whole(x: Ratio)
    ensures
        x.same(Ratio { num: 1, den: 1 }) <==> x.den > 0 && x.num == x.den,
        (Ratio { num: 1, den: 1 }).same(x) <==> x.den > 0 && x.num == x.den,
        (Ratio { num: 0, den: 1 }).same(x) <==> x.den > 0 && x.num == 0,
        x.den > 0 ==> x.same(x),
{
    let (n, d): (int, int) = (x.num as int, x.den as int);
    let (zero, one): (int, int) = (0, 1);
    assert(n * one == n && one * d == d && zero * d == 0) by (nonlinear_arith)
        requires
            zero == 0,
            one == 1,
    ;
}

/// Equal points lie alike.
proof fn lemma_same_fits(a: Ratio, b: Ratio, v: Ratio, w: Ratio)
    requires
        a.same(v),
        b.same(w),
        0 < a.num < a.den,
    ensures
        0 < v.num < v.den,
        b.same(a) <==> w.same(v),
        b.num == b.den <==> w.num == w.den,
{
    let (p, q): (int, int) = (a.num as int, a.den as int);
    let (r, s): (int, int) = (v.num as int, v.den as int);
    let (t, u): (int, int) = (b.num as int, b.den as int);
    let (k, l): (int, int) = (w.num as int, w.den as int);
    assert(0 < r && r < s) by (nonlinear_arith)
        requires
            p * s == r * q,
            0 < p < q,
            s > 0,
    ;
    assert(t == u <==> k == l) by (nonlinear_arith)
        requires
            t * l == k * u,
            u > 0,
            l > 0,
    ;
    lemma_equal_to_equal(t, u, p, q, k, l, r, s);
    lemma_equal_to_equal(k, l, r, s, t, u, p, q);
}

/// What equals a number equals what it equals.
proof fn lemma_equal_to_equal(t: int, u: int, p: int, q: int, k: int, l: int, r: int, s: int)
    requires
        u > 0,
        q > 0,
        l > 0,
        s > 0,
        t * l == k * u,
        p * s == r * q,
    ensures
        t * q == p * u ==> k * s == r * l,
{
    if t * q == p * u {
        let both: int = u * q;
        assert(both > 0) by (nonlinear_arith)
            requires
                both == u * q,
                u > 0,
                q > 0,
        ;
        assert((k * s) * both == ((k * u) * s) * q) by (nonlinear_arith)
            requires
                both == u * q,
        ;
        assert(((t * l) * s) * q == ((t * q) * l) * s) by (nonlinear_arith);
        assert(((p * u) * l) * s == ((p * s) * u) * l) by (nonlinear_arith);
        assert(((r * q) * u) * l == (r * l) * both) by (nonlinear_arith)
            requires
                both == u * q,
        ;
        assert(k * s == r * l) by (nonlinear_arith)
            requires
                (k * s) * both == (r * l) * both,
                both > 0,
        ;
    }
}

/// Curves are equal where all of their seven parameters are, and profiles where
/// all of their colorants and curves are.
pub proof fn lemma_equal_curves(curve: Trc, other: Trc, profile: IccProfile, next: IccProfile)
    ensures
        curve.same(other) <==> {
            &&& curve.g.same(other.g) && curve.d.same(other.d)
            &&& curve.a.0 == other.a.0 && curve.b.0 == other.b.0 && curve.c.0 == other.c.0
            &&& curve.e.0 == other.e.0 && curve.f.0 == other.f.0
        },
        profile.same(next) <==> {
            &&& profile.red.x.0 == next.red.x.0 && profile.red.y.0 == next.red.y.0
            &&& profile.red.z.0 == next.red.z.0 && profile.green.x.0 == next.green.x.0
            &&& profile.green.y.0 == next.green.y.0 && profile.green.z.0 == next.green.z.0
            &&& profile.blue.x.0 == next.blue.x.0 && profile.blue.y.0 == next.blue.y.0
            &&& profile.blue.z.0 == next.blue.z.0
            &&& forall|channel: int|
                0 <= channel < 3 ==> #[trigger] profile.trc[channel].same(next.trc[channel])
        },
{
    if profile.same(next) {
        assert forall|channel: int| 0 <= channel < 3 implies #[trigger] profile.trc[channel].same(
            next.trc[channel],
        ) by {}
    }
    if forall|channel: int|
        0 <= channel < 3 ==> #[trigger] profile.trc[channel].same(next.trc[channel]) {
        assert(profile.trc[0].same(next.trc[0]));
        assert(profile.trc[1].same(next.trc[1]));
        assert(profile.trc[2].same(next.trc[2]));
    }
}

/// Light is equal where it is told alike: as equal numbers, or as powers with
/// equal bases, exponents and offsets.
pub proof fn lemma_equal_light(a: Ratio, b: Ratio, g: Exponent, h: Exponent, e: Fixed, f: Fixed)
    ensures
        Light::Exact(a).same(Light::Exact(b)) <==> a.same(b),
        (Light::Power { base: a, exponent: g, offset: e }).same(
            Light::Power { base: b, exponent: h, offset: f },
        ) <==> a.same(b) && g.same(h) && e.0 == f.0,
        !Light::Exact(a).same(Light::Power { base: b, exponent: h, offset: f }),
        !(Light::Power { base: a, exponent: g, offset: e }).same(Light::Exact(b)),
{
}

/// Coefficients are equal where all seven are the same numbers, and corrections
/// where all nine entries and the coefficients of all channels are.
pub proof fn lemma_equal_corrections(
    encode: TrcEncode,
    other: TrcEncode,
    correction: GamutCorrection,
    next: GamutCorrection,
)
    ensures
        encode.same(other) <==> {
            &&& crate::binary::equal32(encode.g, other.g)
            &&& crate::binary::equal32(encode.a, other.a)
            &&& crate::binary::equal32(encode.b, other.b)
            &&& crate::binary::equal32(encode.c, other.c)
            &&& crate::binary::equal32(encode.e, other.e)
            &&& crate::binary::equal32(encode.f, other.f)
            &&& crate::binary::equal32(encode.y_join, other.y_join)
        },
        correction.same(next) <==> {
            &&& forall|row: int, col: int|
                0 <= row < 3 && 0 <= col < 3 ==> #[trigger] crate::binary::equal32(
                    correction.matrix[row][col],
                    next.matrix[row][col],
                )
            &&& forall|channel: int|
                0 <= channel < 3 ==> #[trigger] correction.trc[channel].same(next.trc[channel])
        },
{
    if forall|row: int, col: int|
        0 <= row < 3 && 0 <= col < 3 ==> #[trigger] crate::binary::equal32(
            correction.matrix[row][col],
            next.matrix[row][col],
        ) {
        assert forall|row: int| 0 <= row < 3 implies #[trigger] crate::correction::equal_rows(
            correction.matrix[row],
            next.matrix[row],
        ) by {
            assert(crate::binary::equal32(correction.matrix[row][0], next.matrix[row][0]));
            assert(crate::binary::equal32(correction.matrix[row][1], next.matrix[row][1]));
            assert(crate::binary::equal32(correction.matrix[row][2], next.matrix[row][2]));
        }
        assert(crate::correction::equal_rows(correction.matrix[0], next.matrix[0]));
        assert(crate::correction::equal_rows(correction.matrix[1], next.matrix[1]));
        assert(crate::correction::equal_rows(correction.matrix[2], next.matrix[2]));
    }
    if forall|channel: int|
        0 <= channel < 3 ==> #[trigger] correction.trc[channel].same(next.trc[channel]) {
        assert(correction.trc[0].same(next.trc[0]));
        assert(correction.trc[1].same(next.trc[1]));
        assert(correction.trc[2].same(next.trc[2]));
    }
}

/// The search looks in `icc` below the configuration and then below the data: for
/// `.icc` and then `.icm` of the output's own name in all of them, and only after
/// those for the generic `profile`.
pub proof fn lemma_search_order(config: Seq<u8>, data: Seq<u8>, output: Seq<char>)
    ensures
        ({
            let c: Seq<u8> = crate::search::joined(config, "icc"@);
            let d: Seq<u8> = crate::search::joined(data, "icc"@);
            &&& crate::search::candidates(Some(config), Some(data), output) == seq![
                crate::search::joined(c, output + ".icc"@),
                crate::search::joined(c, output + ".icm"@),
                crate::search::joined(d, output + ".icc"@),
                crate::search::joined(d, output + ".icm"@),
                crate::search::joined(c, "profile"@ + ".icc"@),
                crate::search::joined(c, "profile"@ + ".icm"@),
                crate::search::joined(d, "profile"@ + ".icc"@),
                crate::search::joined(d, "profile"@ + ".icm"@),
            ]
            &&& crate::search::candidates(Some(config), None, output) == seq![
                crate::search::joined(c, output + ".icc"@),
                crate::search::joined(c, output + ".icm"@),
                crate::search::joined(c, "profile"@ + ".icc"@),
                crate::search::joined(c, "profile"@ + ".icm"@),
            ]
            &&& crate::search::candidates(None, Some(data), output) == seq![
                crate::search::joined(d, output + ".icc"@),
                crate::search::joined(d, output + ".icm"@),
                crate::search::joined(d, "profile"@ + ".icc"@),
                crate::search::joined(d, "profile"@ + ".icm"@),
            ]
            &&& crate::search::candidates(None, None, output) == Seq::<Seq<u8>>::empty()
        }),
{
    let c: Seq<u8> = crate::search::joined(config, "icc"@);
    let d: Seq<u8> = crate::search::joined(data, "icc"@);
    assert(crate::search::candidates(Some(config), Some(data), output) =~= seq![
        crate::search::joined(c, output + ".icc"@),
        crate::search::joined(c, output + ".icm"@),
        crate::search::joined(d, output + ".icc"@),
        crate::search::joined(d, output + ".icm"@),
        crate::search::joined(c, "profile"@ + ".icc"@),
        crate::search::joined(c, "profile"@ + ".icm"@),
        crate::search::joined(d, "profile"@ + ".icc"@),
        crate::search::joined(d, "profile"@ + ".icm"@),
    ]);
    assert(crate::search::candidates(None, None, output) =~= Seq::<Seq<u8>>::empty());
}

/// A base directory that is set counts, whatever the home directory is. One that
/// is not set lies below the home directory, and is unknown without one.
pub proof fn lemma_base_directory(set: Seq<u8>, home: Seq<u8>, below: Seq<char>)
    ensures
        crate::search::base_dir(Some(set), Some(home), below) == Some(set),
        crate::search::base_dir(Some(set), None, below) == Some(set),
        crate::search::base_dir(None, Some(home), below) == Some(
            crate::search::joined(home, below),
        ),
        crate::search::base_dir(None, None, below) == None::<Seq<u8>>,
{
}

/// The texts of paths are those of each of them, in order.
pub proof fn lemma_texts_are_of_each_path(
    paths: Seq<std::path::PathBuf>,
    path: &std::path::Path,
    owned: std::path::PathBuf,
)
    ensures
        crate::search::texts(paths).len() == paths.len(),
        forall|i: int|
            0 <= i < paths.len() ==> #[trigger] crate::search::texts(paths)[i]
                == crate::search::path_buf_text(&paths[i]),
        crate::search::optional_text(Some(path)) == Some(crate::search::path_text(path)),
        crate::search::optional_text(None) == None::<Seq<u8>>,
        crate::search::optional_buf_text(Some(owned)) == Some(
            crate::search::path_buf_text(&owned),
        ),
        crate::search::optional_buf_text(None) == None::<Seq<u8>>,
{
}

/// A search looks at the candidates one by one: at the first, after a miss at the
/// next, as long as there are any, and reads the one that it found.
pub proof fn lemma_search_steps(count: usize, candidate: usize)
    ensures
        candidate < count ==> crate::search::look_at(count as int, candidate as int)
            == crate::search::Step::Probe(candidate),
        candidate >= count ==> crate::search::look_at(count as int, candidate as int)
            == crate::search::Step::GiveUp,
        crate::search::after_probe(count as int, candidate as int, true)
            == crate::search::Step::Read(candidate),
        candidate + 1 < count ==> crate::search::after_probe(count as int, candidate as int, false)
            == crate::search::Step::Probe((candidate + 1) as usize),
        candidate + 1 == count ==> crate::search::after_probe(count as int, candidate as int, false)
            == crate::search::Step::GiveUp,
{
}

} // verus!
