//! Parsing of matrix/TRC display profiles.
use crate::bytes::{be_u16, be_u32, s15f16, same_signature, signature};
use crate::number::{Fixed, Ratio};
use crate::trc::{parameter_count, Exponent, Trc};
use vstd::prelude::*;

verus! {

/// The profile file signature, `acsp`.
pub const ACSP: [u8; 4] = [0x61, 0x63, 0x73, 0x70];

/// The display device class, `mntr`.
pub const MNTR: [u8; 4] = [0x6d, 0x6e, 0x74, 0x72];

/// The RGB colour space, `RGB `.
pub const RGB: [u8; 4] = [0x52, 0x47, 0x42, 0x20];

/// The XYZ connection space, and the type of a colorant tag, `XYZ `.
pub const XYZ: [u8; 4] = [0x58, 0x59, 0x5a, 0x20];

/// The type of a sampled curve, `curv`.
pub const CURV: [u8; 4] = [0x63, 0x75, 0x72, 0x76];

/// The type of a parametric curve, `para`.
pub const PARA: [u8; 4] = [0x70, 0x61, 0x72, 0x61];

/// The tag of the red colorant, `rXYZ`.
pub const RED_COLORANT: [u8; 4] = [0x72, 0x58, 0x59, 0x5a];

/// The tag of the green colorant, `gXYZ`.
pub const GREEN_COLORANT: [u8; 4] = [0x67, 0x58, 0x59, 0x5a];

/// The tag of the blue colorant, `bXYZ`.
pub const BLUE_COLORANT: [u8; 4] = [0x62, 0x58, 0x59, 0x5a];

/// The tag of the red curve, `rTRC`.
pub const RED_CURVE: [u8; 4] = [0x72, 0x54, 0x52, 0x43];

/// The tag of the green curve, `gTRC`.
pub const GREEN_CURVE: [u8; 4] = [0x67, 0x54, 0x52, 0x43];

/// The tag of the blue curve, `bTRC`.
pub const BLUE_CURVE: [u8; 4] = [0x62, 0x54, 0x52, 0x43];

/// A colour in the profile connection space.
#[derive(Debug, Clone, Copy, PartialEq, Eq, Structural)]
pub struct Xyz {
    pub x: Fixed,
    pub y: Fixed,
    pub z: Fixed,
}

/// Colorimetry extracted from a matrix/TRC display profile. Two are equal where
/// their colorants and curves are.
#[derive(Debug, Clone, Copy)]
pub struct IccProfile {
    /// Red colorant, D50 PCS-relative.
    pub red: Xyz,
    /// Green colorant, D50 PCS-relative.
    pub green: Xyz,
    /// Blue colorant, D50 PCS-relative.
    pub blue: Xyz,
    /// Per-channel tone response, in R, G, B order. Factory panel profiles
    /// carry three distinct curves: their differences *are* the grey-balance
    /// calibration, so collapsing them to one would reintroduce the cast the
    /// profile exists to remove.
    pub trc: [Trc; 3],
}

/// Why a profile cannot be used.
#[derive(Debug, Clone, Copy, PartialEq, Eq)]
pub enum IccError {
    /// The buffer is too small for an ICC header.
    TooShort,
    /// The profile file signature is missing.
    BadMagic,
    /// The tag table, a tag or a curve is out of bounds.
    Truncated,
    /// A required tag is missing (LUT-based profiles are unsupported).
    MissingTag([u8; 4]),
    /// A tag has an unsupported type.
    BadTagType([u8; 4]),
    /// The colorant matrix is singular.
    Singular,
    /// The gamma of a TRC is outside the plausible display range, or the curve
    /// has no slope or no exponent to divide by. It holds the gamma through the
    /// curve's midpoint, a binary64 pattern.
    ImplausibleGamma(u64),
    /// Not an RGB/XYZ display profile.
    WrongProfileKind { class: [u8; 4], space: [u8; 4], pcs: [u8; 4] },
}

/// TRC exponent assumed when a profile carries no (usable) TRC tag: 2.2.
pub open spec fn standard_gamma() -> Exponent {
    Exponent::Exact(Ratio { num: 11, den: 5 })
}

fn default_gamma() -> (g: Exponent)
    ensures
        g == standard_gamma(),
{
    Exponent::Exact(Ratio { num: 11, den: 5 })
}

/// The exponent of the power law through the middle sample of a table, if the
/// sample lies inside the range and is not black.
pub open spec fn table_exponent(samples: Seq<u8>) -> Exponent {
    let n: int = samples.len() as int / 2;
    let mid: int = n / 2;
    let sample: int = crate::bytes::u16_at(samples, 2 * mid);
    if mid <= 0 || mid >= n - 1 || sample == 0 {
        standard_gamma()
    } else {
        Exponent::Through {
            x: Ratio { num: mid as i128, den: (n - 1) as i128 },
            y: Ratio { num: sample as i128, den: 65535 },
        }
    }
}

/// Fit an exponent to a sampled TRC at its midpoint.
///
/// Exact for a pure-gamma table, which is the case a fit is actually for.
/// Least squares on log(y) = g·log(x) looks like the better answer and is
/// not: it minimizes *relative* error, so a curve with a linear toe (an
/// sRGB-shaped table) drags the fit down badly: 16.5 output codes of peak
/// error against the midpoint fit's 1.3, and still worse when restricted to
/// the upper range.
pub fn estimate_table_gamma(samples: &[u8]) -> (g: Exponent)
    requires
        samples@.len() >= 4,
    ensures
        g == table_exponent(samples@),
        g.wf(),
{
    let n: usize = samples.len() / 2;
    let mid: usize = n / 2;
    let sample: u16 = be_u16(samples, mid * 2);
    if mid >= n - 1 || sample == 0 {
        return default_gamma();
    }
    Exponent::Through {
        x: Ratio { num: mid as i128, den: (n - 1) as i128 },
        y: Ratio { num: sample as i128, den: 65535 },
    }
}

/// The parameters of a parametric curve.
pub open spec fn parameters(data: Seq<u8>, count: nat) -> Seq<Fixed> {
    Seq::new(count, |i: int| crate::bytes::fixed_at(data, 12 + 4 * i))
}

/// The curve of a `para` tag, unless its function is unknown, its parameters
/// are cut off, or the function is no curve.
pub open spec fn parametric_curve(data: Seq<u8>) -> Option<Trc> {
    let function_type: u16 = crate::bytes::u16_at(data, 8) as u16;
    match crate::trc::parameters_of(function_type) {
        None => None,
        Some(count) => if data.len() < 12 + 4 * count {
            None
        } else {
            Trc::parametric(function_type, parameters(data, count))
        },
    }
}

/// The fit to a table goes by its length and its middle sample alone. Where that
/// sample lies inside the range and is not black, the power law passes through
/// it: at `x` the curve makes `x^g`, of the exponent `g` through `(x, y)`.
pub proof fn lemma_fit_passes_through_middle(samples: Seq<u8>, other: Seq<u8>)
    requires
        4 <= samples.len() <= usize::MAX,
        samples.len() == other.len(),
        crate::bytes::u16_at(samples, 2 * (samples.len() as int / 4)) == crate::bytes::u16_at(
            other,
            2 * (other.len() as int / 4),
        ),
    ensures
        table_exponent(samples) == table_exponent(other),
        ({
            let n: int = samples.len() as int / 2;
            let sample: int = crate::bytes::u16_at(samples, 2 * (n / 2));
            &&& n < 3 || sample == 0 ==> table_exponent(samples) == standard_gamma()
            &&& n >= 3 && sample != 0 ==> {
                &&& table_exponent(samples) matches Exponent::Through { x, y }
                &&& x.num == n / 2 && x.den == n - 1
                &&& 0 < x.num < x.den
                &&& y.num == sample && y.den == 65535
                &&& Trc::power_law(table_exponent(samples)).response(x) matches crate::trc::Light::Power {
                    base,
                    exponent,
                    offset,
                }
                &&& base.num * x.den == x.num * base.den && base.den > 0
                &&& exponent == table_exponent(samples)
                &&& offset == Fixed(0)
            }
        }),
{
    if let Exponent::Through { x, .. } = table_exponent(samples) {
        crate::trc::lemma_power_law(table_exponent(samples), x);
    }
}

/// Parse an ICC paraCurveType into the normalized [`Trc`] form.
pub fn parametric_trc(data: &[u8]) -> (curve: Option<Trc>)
    requires
        data@.len() >= 10,
    ensures
        curve == parametric_curve(data@),
        curve matches Some(t) ==> t.wf(),
{
    let function_type: u16 = be_u16(data, 8);
    let count: usize = parameter_count(function_type)?;
    if data.len() < 12 + count * 4 {
        return None;
    }
    let mut p: Vec<Fixed> = Vec::new();
    let mut i: usize = 0;
    while i < count
        invariant
            i <= count <= 7,
            data@.len() >= 12 + 4 * count,
            p@ =~= parameters(data@, i as nat),
        decreases count - i,
    {
        p.push(s15f16(data, 12 + i * 4));
        i = i + 1;
    }
    Trc::from_para(function_type, p.as_slice())
}

/// The curve of a TRC tag.
pub open spec fn curve_of(data: Seq<u8>, sig: [u8; 4]) -> Result<Trc, IccError> {
    if data.len() >= 12 && crate::bytes::signature_at(data, 0) == CURV {
        let count: int = crate::bytes::u32_at(data, 8);
        if data.len() < 12 + 2 * count {
            Err(IccError::Truncated)
        } else if count == 0 {
            Ok(Trc::power_law(Exponent::Exact(Ratio { num: 1, den: 1 })))
        } else if count == 1 {
            Ok(
                Trc::power_law(
                    Exponent::Exact(
                        Ratio { num: crate::bytes::u16_at(data, 12) as i128, den: 256 },
                    ),
                ),
            )
        } else {
            Ok(Trc::power_law(table_exponent(data.subrange(12, 12 + 2 * count))))
        }
    } else if data.len() >= 12 && crate::bytes::signature_at(data, 0) == PARA {
        match parametric_curve(data) {
            Some(curve) => Ok(curve),
            None => Err(IccError::Truncated),
        }
    } else {
        Err(IccError::BadTagType(sig))
    }
}

/// One `curv`/`para` TRC tag, normalized to [`Trc`].
pub fn trc_curve(data: &[u8], sig: &[u8; 4]) -> (curve: Result<Trc, IccError>)
    ensures
        curve == curve_of(data@, *sig),
        curve matches Ok(t) ==> t.wf(),
{
    if data.len() < 12 {
        return Err(IccError::BadTagType(*sig));
    }
    let kind: [u8; 4] = signature(data, 0);
    if same_signature(&kind, &CURV) {
        let count: u32 = be_u32(data, 8);
        if (data.len() as u64) < 12 + count as u64 * 2 {
            return Err(IccError::Truncated);
        }
        let count: usize = count as usize;
        if count == 0 {
            // identity curve per spec
            Ok(Trc::power(Exponent::Exact(Ratio { num: 1, den: 1 })))
        } else if count == 1 {
            let gamma: u16 = be_u16(data, 12);
            Ok(Trc::power(Exponent::Exact(Ratio { num: gamma as i128, den: 256 })))
        } else {
            // A sampled table has no closed form; a fitted power law is the
            // best we can do without uploading the whole curve to the GPU.
            Ok(Trc::power(estimate_table_gamma(&data[12..12 + count * 2])))
        }
    } else if same_signature(&kind, &PARA) {
        match parametric_trc(data) {
            Some(curve) => Ok(curve),
            None => Err(IccError::Truncated),
        }
    } else {
        Err(IccError::BadTagType(*sig))
    }
}

/// A tag that decodes to a curve does so whatever its reserved bytes hold,
/// whatever follows the curve, and whichever channel it is for.
pub proof fn lemma_padding_keeps_curve(
    data: Seq<u8>,
    padded: Seq<u8>,
    sig: [u8; 4],
    other: [u8; 4],
)
    requires
        curve_of(data, sig) is Ok,
        data.len() <= padded.len(),
        forall|i: int| 0 <= i < data.len() && !(4 <= i < 8) ==> padded[i] == #[trigger] data[i],
    ensures
        curve_of(padded, other) == curve_of(data, sig),
{
    assert(crate::bytes::signature_at(padded, 0) == crate::bytes::signature_at(data, 0));
    assert(crate::bytes::u32_at(padded, 8) == crate::bytes::u32_at(data, 8));
    if crate::bytes::signature_at(data, 0) == CURV {
        let end: int = 12 + 2 * crate::bytes::u32_at(data, 8);
        assert(padded.subrange(12, end) =~= data.subrange(12, end));
    } else {
        let function_type: u16 = crate::bytes::u16_at(data, 8) as u16;
        let count: nat = crate::trc::parameters_of(function_type)->0;
        assert(parameters(padded, count) =~= parameters(data, count));
    }
}

/// How many tags a profile says it has.
pub open spec fn tag_count(bytes: Seq<u8>) -> int {
    crate::bytes::u32_at(bytes, 128)
}

/// The signature of an entry of the tag table.
pub open spec fn tag_signature(bytes: Seq<u8>, index: int) -> [u8; 4] {
    crate::bytes::signature_at(bytes, 132 + 12 * index)
}

/// Where the data of an entry of the tag table starts.
pub open spec fn tag_start(bytes: Seq<u8>, index: int) -> int {
    crate::bytes::u32_at(bytes, 136 + 12 * index)
}

/// Where the data of an entry of the tag table ends.
pub open spec fn tag_end(bytes: Seq<u8>, index: int) -> int {
    tag_start(bytes, index) + crate::bytes::u32_at(bytes, 140 + 12 * index)
}

/// Whether the tag table, and the data of each of its entries, lie inside the
/// profile.
pub open spec fn table_fits(bytes: Seq<u8>) -> bool {
    &&& 132 + 12 * tag_count(bytes) <= bytes.len()
    &&& forall|index: int|
        0 <= index < tag_count(bytes) ==> #[trigger] tag_end(bytes, index) <= bytes.len()
}

/// Whether an entry is the first one with a signature.
pub open spec fn first_with(bytes: Seq<u8>, sig: [u8; 4], index: int) -> bool {
    &&& 0 <= index < tag_count(bytes)
    &&& tag_signature(bytes, index) == sig
    &&& forall|earlier: int|
        0 <= earlier < index ==> #[trigger] tag_signature(bytes, earlier) != sig
}

/// The data of the first tag with a signature, if there is one.
pub open spec fn tag_data(bytes: Seq<u8>, sig: [u8; 4]) -> Option<Seq<u8>> {
    if exists|index: int| first_with(bytes, sig, index) {
        let index: int = choose|index: int| first_with(bytes, sig, index);
        Some(bytes.subrange(tag_start(bytes, index), tag_end(bytes, index)))
    } else {
        None
    }
}

/// Where a signature occurs more than once, its first entry counts.
pub proof fn lemma_tag_data(bytes: Seq<u8>, sig: [u8; 4], index: int)
    requires
        first_with(bytes, sig, index),
    ensures
        tag_data(bytes, sig) == Some(
            bytes.subrange(tag_start(bytes, index), tag_end(bytes, index)),
        ),
{
    let picked: int = choose|other: int| first_with(bytes, sig, other);
    assert(first_with(bytes, sig, picked));
    if picked < index {
        assert(tag_signature(bytes, picked) != sig);
    }
    if index < picked {
        assert(tag_signature(bytes, index) != sig);
    }
}

/// Finds the data of the first tag with a signature.
fn find<'a>(bytes: &'a [u8], sig: &[u8; 4]) -> (data: Option<&'a [u8]>)
    requires
        bytes@.len() >= 132,
        table_fits(bytes@),
    ensures
        match data {
            Some(found) => tag_data(bytes@, *sig) == Some(found@),
            None => tag_data(bytes@, *sig) is None,
        },
{
    let count: usize = be_u32(bytes, 128) as usize;
    let mut i: usize = 0;
    assert(bytes.len() == bytes@.len());
    while i < count
        invariant
            bytes@.len() >= 132,
            bytes@.len() <= usize::MAX,
            table_fits(bytes@),
            count == tag_count(bytes@),
            i <= count,
            forall|earlier: int|
                0 <= earlier < i ==> #[trigger] tag_signature(bytes@, earlier) != *sig,
        decreases count - i,
    {
        let entry: usize = 132 + i * 12;
        if same_signature(&signature(bytes, entry), sig) {
            let offset: usize = be_u32(bytes, entry + 4) as usize;
            let size: usize = be_u32(bytes, entry + 8) as usize;
            proof {
                assert(tag_end(bytes@, i as int) <= bytes@.len());
                assert(first_with(bytes@, *sig, i as int));
                lemma_tag_data(bytes@, *sig, i as int);
            }
            return Some(&bytes[offset..offset + size]);
        }
        i = i + 1;
    }
    proof {
        assert forall|index: int| !first_with(bytes@, *sig, index) by {
            if 0 <= index < count {
                assert(tag_signature(bytes@, index) != *sig);
            }
        }
    }
    None
}

/// The colorant that a tag holds.
pub open spec fn colorant_of(data: Option<Seq<u8>>, sig: [u8; 4]) -> Result<Xyz, IccError> {
    match data {
        None => Err(IccError::MissingTag(sig)),
        Some(data) => if data.len() < 20 || crate::bytes::signature_at(data, 0) != XYZ {
            Err(IccError::BadTagType(sig))
        } else {
            Ok(
                Xyz {
                    x: crate::bytes::fixed_at(data, 8),
                    y: crate::bytes::fixed_at(data, 12),
                    z: crate::bytes::fixed_at(data, 16),
                },
            )
        },
    }
}

fn colorant(bytes: &[u8], sig: &[u8; 4]) -> (colour: Result<Xyz, IccError>)
    requires
        bytes@.len() >= 132,
        table_fits(bytes@),
    ensures
        colour == colorant_of(tag_data(bytes@, *sig), *sig),
{
    match find(bytes, sig) {
        None => Err(IccError::MissingTag(*sig)),
        Some(data) => {
            if data.len() < 20 || !same_signature(&signature(data, 0), &XYZ) {
                return Err(IccError::BadTagType(*sig));
            }
            Ok(Xyz { x: s15f16(data, 8), y: s15f16(data, 12), z: s15f16(data, 16) })
        },
    }
}

/// The curve that a tag holds, or another one where the tag is missing.
pub open spec fn channel_of(
    data: Option<Seq<u8>>,
    sig: [u8; 4],
    missing: Trc,
) -> Result<Trc, IccError> {
    match data {
        None => Ok(missing),
        Some(data) => curve_of(data, sig),
    }
}

fn channel(bytes: &[u8], sig: &[u8; 4], missing: Trc) -> (curve: Result<Trc, IccError>)
    requires
        bytes@.len() >= 132,
        table_fits(bytes@),
        missing.wf(),
    ensures
        curve == channel_of(tag_data(bytes@, *sig), *sig, missing),
        curve matches Ok(t) ==> t.wf(),
{
    match find(bytes, sig) {
        None => Ok(missing),
        Some(data) => trc_curve(data, sig),
    }
}

/// The device class of a profile.
pub open spec fn class_of(bytes: Seq<u8>) -> [u8; 4] {
    crate::bytes::signature_at(bytes, 12)
}

/// The data colour space of a profile.
pub open spec fn space_of(bytes: Seq<u8>) -> [u8; 4] {
    crate::bytes::signature_at(bytes, 16)
}

/// The connection space of a profile.
pub open spec fn pcs_of(bytes: Seq<u8>) -> [u8; 4] {
    crate::bytes::signature_at(bytes, 20)
}

/// Whether the header is that of an RGB display profile over XYZ.
pub open spec fn is_display(bytes: Seq<u8>) -> bool {
    class_of(bytes) == MNTR && space_of(bytes) == RGB && pcs_of(bytes) == XYZ
}

/// The curve of the red channel. It is the power law of the standard gamma
/// where the profile has no red curve.
pub open spec fn red_curve(bytes: Seq<u8>) -> Result<Trc, IccError> {
    channel_of(tag_data(bytes, RED_CURVE), RED_CURVE, Trc::power_law(standard_gamma()))
}

/// What the tags of a profile hold: the red curve, the colorants in R, G, B
/// order, the green curve and the blue curve. The first of these that cannot be
/// had, in this order, gives the error.
pub open spec fn colorimetry(bytes: Seq<u8>) -> Result<IccProfile, IccError> {
    match red_curve(bytes) {
        Err(err) => Err(err),
        Ok(first) => match colorant_of(tag_data(bytes, RED_COLORANT), RED_COLORANT) {
            Err(err) => Err(err),
            Ok(red) => match colorant_of(tag_data(bytes, GREEN_COLORANT), GREEN_COLORANT) {
                Err(err) => Err(err),
                Ok(green) => match colorant_of(tag_data(bytes, BLUE_COLORANT), BLUE_COLORANT) {
                    Err(err) => Err(err),
                    Ok(blue) => match channel_of(
                        tag_data(bytes, GREEN_CURVE),
                        GREEN_CURVE,
                        first,
                    ) {
                        Err(err) => Err(err),
                        Ok(second) => match channel_of(
                            tag_data(bytes, BLUE_CURVE),
                            BLUE_CURVE,
                            first,
                        ) {
                            Err(err) => Err(err),
                            Ok(third) => Ok(
                                IccProfile { red, green, blue, trc: [first, second, third] },
                            ),
                        },
                    },
                },
            },
        },
    }
}

/// What a display profile says of its panel, or why it cannot be used.
pub open spec fn parsed(bytes: Seq<u8>) -> Result<IccProfile, IccError> {
    if bytes.len() < 132 {
        Err(IccError::TooShort)
    } else if crate::bytes::signature_at(bytes, 36) != ACSP {
        Err(IccError::BadMagic)
    } else if !is_display(bytes) {
        Err(
            IccError::WrongProfileKind {
                class: class_of(bytes),
                space: space_of(bytes),
                pcs: pcs_of(bytes),
            },
        )
    } else if !table_fits(bytes) {
        Err(IccError::Truncated)
    } else {
        colorimetry(bytes)
    }
}

impl IccProfile {
    /// Whether the three curves are made of numbers.
    pub open spec fn wf(self) -> bool {
        self.trc[0].wf() && self.trc[1].wf() && self.trc[2].wf()
    }

    /// Whether this and another hold the same colorants and curves.
    pub open spec fn same(self, other: IccProfile) -> bool {
        &&& self.red == other.red
        &&& self.green == other.green
        &&& self.blue == other.blue
        &&& self.trc[0].same(other.trc[0])
        &&& self.trc[1].same(other.trc[1])
        &&& self.trc[2].same(other.trc[2])
    }

    /// Whether the three curves are made of numbers.
    pub fn is_wf(&self) -> (holds: bool)
        ensures
            holds == self.wf(),
    {
        self.trc[0].is_wf() && self.trc[1].is_wf() && self.trc[2].is_wf()
    }
}

impl PartialEq for IccProfile {
    fn eq(&self, other: &IccProfile) -> (equal: bool) {
        self.red == other.red && self.green == other.green && self.blue == other.blue && self.trc[0]
            == other.trc[0] && self.trc[1] == other.trc[1] && self.trc[2] == other.trc[2]
    }
}

impl vstd::std_specs::cmp::PartialEqSpecImpl for IccProfile {
    open spec fn obeys_eq_spec() -> bool {
        true
    }

    open spec fn eq_spec(&self, other: &IccProfile) -> bool {
        self.same(*other)
    }
}

/// Checks the tag table and the bounds of every tag.
fn check_table(bytes: &[u8]) -> (fits: bool)
    requires
        bytes@.len() >= 132,
    ensures
        fits == table_fits(bytes@),
{
    let length: u64 = bytes.len() as u64;
    let count: u32 = be_u32(bytes, 128);
    if length < 132 + count as u64 * 12 {
        return false;
    }
    let count: usize = count as usize;
    let mut i: usize = 0;
    while i < count
        invariant
            length == bytes@.len(),
            bytes@.len() <= usize::MAX,
            count == tag_count(bytes@),
            132 + 12 * count <= bytes@.len(),
            i <= count,
            forall|index: int| 0 <= index < i ==> #[trigger] tag_end(bytes@, index) <= bytes@.len(),
        decreases count - i,
    {
        let entry: usize = 132 + i * 12;
        let offset: u32 = be_u32(bytes, entry + 4);
        let size: u32 = be_u32(bytes, entry + 8);
        assert(tag_end(bytes@, i as int) == offset + size);
        if offset as u64 + size as u64 > length {
            return false;
        }
        i = i + 1;
    }
    true
}

/// Parse the colorant + TRC tags out of an ICC display profile.
pub fn parse_icc(bytes: &[u8]) -> (profile: Result<IccProfile, IccError>)
    ensures
        profile == parsed(bytes@),
        profile matches Ok(p) ==> p.wf(),
{
    if bytes.len() < 132 {
        return Err(IccError::TooShort);
    }
    if !same_signature(&signature(bytes, 36), &ACSP) {
        return Err(IccError::BadMagic);
    }
    // Header fields per ICC.1:2010 §7.2: device class at 12, data colour
    // space at 16, PCS at 20. A printer profile or a Lab-PCS profile can
    // carry tags of the right shape and would otherwise parse into nonsense
    // that only shows up as wrong colour on screen.
    let class: [u8; 4] = signature(bytes, 12);
    let space: [u8; 4] = signature(bytes, 16);
    let pcs: [u8; 4] = signature(bytes, 20);
    if !same_signature(&class, &MNTR) || !same_signature(&space, &RGB) || !same_signature(
        &pcs,
        &XYZ,
    ) {
        return Err(IccError::WrongProfileKind { class, space, pcs });
    }
    // Validate every entry up front so a truncated file fails loudly even if
    // we never read the clipped tag.
    if !check_table(bytes) {
        return Err(IccError::Truncated);
    }
    // Red is the reference: a profile carrying only rTRC means "same for all",
    // which is a better fallback for the other two than the default gamma.
    let first: Trc = channel(bytes, &RED_CURVE, Trc::power(default_gamma()))?;
    let red: Xyz = colorant(bytes, &RED_COLORANT)?;
    let green: Xyz = colorant(bytes, &GREEN_COLORANT)?;
    let blue: Xyz = colorant(bytes, &BLUE_COLORANT)?;
    let second: Trc = channel(bytes, &GREEN_CURVE, first)?;
    let third: Trc = channel(bytes, &BLUE_CURVE, first)?;
    Ok(IccProfile { red, green, blue, trc: [first, second, third] })
}

/// Whether the header is that of a display profile.
pub open spec fn header_fits(bytes: Seq<u8>) -> bool {
    &&& bytes.len() >= 132
    &&& crate::bytes::signature_at(bytes, 36) == ACSP
    &&& is_display(bytes)
}

/// A profile whose tag table is cut off, or which says of any one tag that it
/// ends beyond the file, is refused as truncated, whether or not that tag would
/// be read.
pub proof fn lemma_clipped_tag_is_refused(bytes: Seq<u8>, index: int)
    requires
        header_fits(bytes),
        132 + 12 * tag_count(bytes) > bytes.len() || (0 <= index < tag_count(bytes) && tag_end(
            bytes,
            index,
        ) > bytes.len()),
    ensures
        parsed(bytes) == Err::<IccProfile, IccError>(IccError::Truncated),
{
}

/// Only RGB display profiles over XYZ are used, and of those only the ones with
/// all three colorants: a LUT-based profile is refused.
pub proof fn lemma_used_profile_is_matrix_display(bytes: Seq<u8>)
    requires
        parsed(bytes) is Ok,
    ensures
        header_fits(bytes),
        table_fits(bytes),
        tag_data(bytes, RED_COLORANT) is Some,
        tag_data(bytes, GREEN_COLORANT) is Some,
        tag_data(bytes, BLUE_COLORANT) is Some,
{
}

/// The first colorant that is missing, in R, G, B order, is what a profile with
/// usable other tags is refused for.
pub proof fn lemma_missing_colorant_is_named(bytes: Seq<u8>, sig: [u8; 4])
    requires
        header_fits(bytes),
        table_fits(bytes),
        red_curve(bytes) is Ok,
        tag_data(bytes, sig) is None,
        sig == RED_COLORANT || (sig == GREEN_COLORANT && colorant_of(
            tag_data(bytes, RED_COLORANT),
            RED_COLORANT,
        ) is Ok) || (sig == BLUE_COLORANT && colorant_of(
            tag_data(bytes, RED_COLORANT),
            RED_COLORANT,
        ) is Ok && colorant_of(tag_data(bytes, GREEN_COLORANT), GREEN_COLORANT) is Ok),
    ensures
        parsed(bytes) == Err::<IccProfile, IccError>(IccError::MissingTag(sig)),
{
}

/// Each channel keeps the curve of its own tag. A channel without one follows
/// red, and red without one has the standard gamma.
pub proof fn lemma_channels_keep_their_curves(bytes: Seq<u8>, profile: IccProfile)
    requires
        parsed(bytes) == Ok::<IccProfile, IccError>(profile),
    ensures
        match tag_data(bytes, RED_CURVE) {
            Some(data) => curve_of(data, RED_CURVE) == Ok::<Trc, IccError>(profile.trc[0]),
            None => profile.trc[0] == Trc::power_law(standard_gamma()),
        },
        match tag_data(bytes, GREEN_CURVE) {
            Some(data) => curve_of(data, GREEN_CURVE) == Ok::<Trc, IccError>(profile.trc[1]),
            None => profile.trc[1] == profile.trc[0],
        },
        match tag_data(bytes, BLUE_CURVE) {
            Some(data) => curve_of(data, BLUE_CURVE) == Ok::<Trc, IccError>(profile.trc[2]),
            None => profile.trc[2] == profile.trc[0],
        },
{
}

} // verus!
