//! The correction that the postprocess shader applies.
use crate::binary::{same_number, to_binary32, INFINITY32, SIGN32};
use crate::encode::{is_vanishing, CurveValues, TrcEncode};
use crate::matrix::{invert3, mul3, RatioMatrix, SRGB_PCS};
use crate::profile::{IccError, IccProfile};
use vstd::arithmetic::power2::*;
use vstd::prelude::*;

verus! {

/// The binary64 pattern of 0.5, the least plausible gamma.
pub const GAMMA_MIN: u64 = 0x3fe0_0000_0000_0000;

/// The binary64 pattern of 5, the greatest plausible gamma.
pub const GAMMA_MAX: u64 = 0x4014_0000_0000_0000;

/// The binary32 pattern of 10^-3. Published colorant sets are rounded, so a
/// coefficient that is truly zero lands a hair either side of it. Below a
/// quarter of an 8-bit code there is nothing to clip and nothing to report.
pub const NOISE_FLOOR: u32 = 0x3a83_126f;

/// Ready-to-use correction for the postprocess shader. Two are equal where their
/// coefficients are, as numbers.
#[derive(Debug, Clone, Copy)]
pub struct GamutCorrection {
    /// Linear-light sRGB → panel-native primaries, row-major, as binary32
    /// patterns.
    pub matrix: [[u32; 3]; 3],
    /// Per-channel inverse-TRC coefficients for re-encoding after the matrix.
    pub trc: [TrcEncode; 3],
}

impl PartialEq for GamutCorrection {
    fn eq(&self, other: &GamutCorrection) -> (equal: bool) {
        same_rows(&self.matrix[0], &other.matrix[0]) && same_rows(
            &self.matrix[1],
            &other.matrix[1],
        ) && same_rows(&self.matrix[2], &other.matrix[2]) && self.trc[0] == other.trc[0]
            && self.trc[1] == other.trc[1] && self.trc[2] == other.trc[2]
    }
}

impl vstd::std_specs::cmp::PartialEqSpecImpl for GamutCorrection {
    open spec fn obeys_eq_spec() -> bool {
        true
    }

    open spec fn eq_spec(&self, other: &GamutCorrection) -> bool {
        self.same(*other)
    }
}

/// Whether two rows hold the same numbers.
pub open spec fn equal_rows(a: [u32; 3], b: [u32; 3]) -> bool {
    &&& crate::binary::equal32(a[0], b[0])
    &&& crate::binary::equal32(a[1], b[1])
    &&& crate::binary::equal32(a[2], b[2])
}

fn same_rows(a: &[u32; 3], b: &[u32; 3]) -> (same: bool)
    ensures
        same == equal_rows(*a, *b),
{
    same_number(a[0], b[0]) && same_number(a[1], b[1]) && same_number(a[2], b[2])
}

/// Whether a binary64 number lies between 0.5 and 5.
pub open spec fn plausible(gamma: u64) -> bool {
    &&& !crate::binary::nan64(gamma)
    &&& pow2(1073) <= crate::binary::value64(gamma) <= 5 * pow2(1074)
}

/// The numbers from 0.5 to 5 are the binary64 patterns from that of 0.5 to that of
/// 5.
pub proof fn lemma_plausible_range(gamma: u64)
    ensures
        plausible(gamma) <==> 0x3fe0_0000_0000_0000 <= gamma <= 0x4014_0000_0000_0000,
{
    let f: nat = crate::binary::FRACTION64 as nat;
    let size: nat = crate::binary::magnitude64(gamma);
    lemma2_to64();
    lemma2_to64_rest();
    lemma_pow2_adds(52, 1021);
    lemma_pow2_adds(50, 1024);
    lemma_pow2_pos(1073);
    assert(crate::binary::units(f, GAMMA_MIN as nat) == pow2(1073)) by {
        assert(GAMMA_MIN as nat % f == 0 && GAMMA_MIN as nat / f == 1022);
    }
    assert(crate::binary::units(f, GAMMA_MAX as nat) == 5 * pow2(1074)) by {
        assert(GAMMA_MAX as nat % f == pow2(50) && GAMMA_MAX as nat / f == 1025);
        assert((pow2(50) + f) * pow2(1024) == 5 * (pow2(50) * pow2(1024))) by (nonlinear_arith)
            requires
                f == 4 * pow2(50),
        ;
    }
    if size < GAMMA_MIN {
        crate::binary::lemma_units_increase(f, size, GAMMA_MIN as nat);
    }
    if size > GAMMA_MIN {
        crate::binary::lemma_units_increase(f, GAMMA_MIN as nat, size);
    }
    if size < GAMMA_MAX {
        crate::binary::lemma_units_increase(f, size, GAMMA_MAX as nat);
    }
    if size > GAMMA_MAX {
        crate::binary::lemma_units_increase(f, GAMMA_MAX as nat, size);
    }
}

fn is_plausible(gamma: u64) -> (holds: bool)
    ensures
        holds == plausible(gamma),
{
    proof {
        lemma_plausible_range(gamma);
    }
    GAMMA_MIN <= gamma && gamma <= GAMMA_MAX
}

/// The colorants of a panel: columns R, G, B, rows X, Y, Z, in units of 2^-16.
pub open spec fn panel(profile: IccProfile) -> [[i32; 3]; 3] {
    [
        [profile.red.x.0, profile.green.x.0, profile.blue.x.0],
        [profile.red.y.0, profile.green.y.0, profile.blue.y.0],
        [profile.red.z.0, profile.green.z.0, profile.blue.z.0],
    ]
}

/// Whether a channel's curve cannot be inverted on a display: its gamma is
/// implausible, it has no slope, or its exponent is zero for the shader. A curve
/// with a linear segment over its midpoint can have a plausible gamma and an
/// exponent of zero.
pub open spec fn implausible(profile: IccProfile, values: [CurveValues; 3], channel: int) -> bool {
    ||| !plausible(values[channel].effective_gamma)
    ||| profile.trc[channel].a.0 == 0
    ||| crate::encode::vanishes(profile.trc[channel].g, values[channel].g)
}

/// Why a profile cannot be corrected for, if it cannot: the first channel with
/// an implausible curve, or singular colorants.
pub open spec fn refusal(profile: IccProfile, values: [CurveValues; 3]) -> Option<IccError> {
    if implausible(profile, values, 0) {
        Some(IccError::ImplausibleGamma(values[0].effective_gamma))
    } else if implausible(profile, values, 1) {
        Some(IccError::ImplausibleGamma(values[1].effective_gamma))
    } else if implausible(profile, values, 2) {
        Some(IccError::ImplausibleGamma(values[2].effective_gamma))
    } else if crate::matrix::singular(panel(profile)) {
        Some(IccError::Singular)
    } else {
        None
    }
}

/// Whether a correction is that of a profile: its matrix holds what the panel's
/// inverse times the sRGB colorants rounds to, and its coefficients invert the
/// curves.
pub open spec fn corrects(
    correction: GamutCorrection,
    profile: IccProfile,
    values: [CurveValues; 3],
) -> bool {
    &&& forall|row: int, col: int|
        0 <= row < 3 && 0 <= col < 3 ==> crate::binary::rounds_to(
            #[trigger] correction.matrix[row][col],
            crate::matrix::correction_numerator(panel(profile), row, col),
            crate::matrix::correction_denominator(panel(profile)),
        )
    &&& forall|channel: int|
        0 <= channel < 3 ==> crate::encode::inverts(
            #[trigger] correction.trc[channel],
            profile.trc[channel],
            values[channel],
        )
}

/// The sRGB colorants as exact numbers.
fn srgb_colorants() -> (m: RatioMatrix)
    ensures
        m.den == 10_000_000,
        m.within(0x8000_0000),
        forall|row: int, col: int|
            0 <= row < 3 && 0 <= col < 3 ==> #[trigger] m.num[row][col] == SRGB_PCS[row][col],
{
    let s: [[i32; 3]; 3] = SRGB_PCS;
    RatioMatrix {
        num: [
            [s[0][0] as i128, s[0][1] as i128, s[0][2] as i128],
            [s[1][0] as i128, s[1][1] as i128, s[1][2] as i128],
            [s[2][0] as i128, s[2][1] as i128, s[2][2] as i128],
        ],
        den: 10_000_000,
    }
}

/// Rounds each entry of a matrix to binary32.
fn round_matrix(m: &RatioMatrix) -> (matrix: [[u32; 3]; 3])
    requires
        m.den > 0,
    ensures
        forall|row: int, col: int|
            0 <= row < 3 && 0 <= col < 3 ==> crate::binary::rounds_to(
                #[trigger] matrix[row][col],
                m.num[row][col] as int,
                m.den as int,
            ),
{
    let (n, d): ([[i128; 3]; 3], i128) = (m.num, m.den);
    [
        [to_binary32(n[0][0], d), to_binary32(n[0][1], d), to_binary32(n[0][2], d)],
        [to_binary32(n[1][0], d), to_binary32(n[1][1], d), to_binary32(n[1][2], d)],
        [to_binary32(n[2][0], d), to_binary32(n[2][1], d), to_binary32(n[2][2], d)],
    ]
}

/// Derive the sRGB → panel correction from parsed colorimetry, whose curves
/// were evaluated to `values` in R, G, B order.
///
/// Both colorant matrices are D50 PCS-relative, so the chromatic adaptation
/// cancels and the product is the D65-native transform. It is computed exactly
/// and rounded once.
pub fn gamut_correction(profile: &IccProfile, values: &[CurveValues; 3]) -> (correction: Result<
    GamutCorrection,
    IccError,
>)
    requires
        profile.wf(),
    ensures
        match correction {
            Err(err) => refusal(*profile, *values) == Some(err),
            Ok(c) => refusal(*profile, *values) is None && corrects(c, *profile, *values),
        },
{
    let colorants: [[i32; 3]; 3] = [
        [profile.red.x.0, profile.green.x.0, profile.blue.x.0],
        [profile.red.y.0, profile.green.y.0, profile.blue.y.0],
        [profile.red.z.0, profile.green.z.0, profile.blue.z.0],
    ];
    let mut i: usize = 0;
    while i < 3
        invariant
            i <= 3,
            forall|channel: int| 0 <= channel < i ==> !implausible(*profile, *values, channel),
        decreases 3 - i,
    {
        let effective: u64 = values[i].effective_gamma;
        // The shader divides by the slope and by the exponent.
        if !is_plausible(effective) || profile.trc[i].a.0 == 0 || is_vanishing(
            &profile.trc[i].g,
            values[i].g,
        ) {
            assert(implausible(*profile, *values, i as int));
            return Err(IccError::ImplausibleGamma(effective));
        }
        i = i + 1;
    }
    let inverse: RatioMatrix = match invert3(&colorants) {
        Some(inverse) => inverse,
        None => {
            return Err(IccError::Singular);
        },
    };
    let srgb: RatioMatrix = srgb_colorants();
    let product: RatioMatrix = mul3(&inverse, &srgb);
    assert forall|row: int, col: int|
        0 <= row < 3 && 0 <= col < 3 implies #[trigger] product.num[row][col]
        == crate::matrix::correction_numerator(panel(*profile), row, col) by {
        assert(inverse.num[row][0] == crate::matrix::inverse_numerator(colorants, row, 0));
        assert(inverse.num[row][1] == crate::matrix::inverse_numerator(colorants, row, 1));
        assert(inverse.num[row][2] == crate::matrix::inverse_numerator(colorants, row, 2));
        assert(srgb.num[0][col] == SRGB_PCS[0][col]);
        assert(srgb.num[1][col] == SRGB_PCS[1][col]);
        assert(srgb.num[2][col] == SRGB_PCS[2][col]);
    }
    let matrix: [[u32; 3]; 3] = round_matrix(&product);
    let trc: [TrcEncode; 3] = [
        TrcEncode::from_trc(&profile.trc[0], &values[0]),
        TrcEncode::from_trc(&profile.trc[1], &values[1]),
        TrcEncode::from_trc(&profile.trc[2], &values[2]),
    ];
    assert forall|row: int, col: int|
        0 <= row < 3 && 0 <= col < 3 implies crate::binary::rounds_to(
        #[trigger] matrix[row][col],
        crate::matrix::correction_numerator(panel(*profile), row, col),
        crate::matrix::correction_denominator(panel(*profile)),
    ) by {
        assert(product.num[row][col] == crate::matrix::correction_numerator(
            panel(*profile),
            row,
            col,
        ));
    }
    Ok(GamutCorrection { matrix, trc })
}

/// A binary32 pattern is reported where it is a number below the noise floor's
/// negation.
pub open spec fn out_of_gamut(bits: u32) -> bool {
    &&& !crate::binary::nan32(bits)
    &&& crate::binary::value32(bits) < -crate::binary::value32(NOISE_FLOOR)
}

fn is_out_of_gamut(bits: u32) -> (holds: bool)
    ensures
        holds == out_of_gamut(bits),
        holds ==> bits > SIGN32,
{
    proof {
        let f: nat = crate::binary::FRACTION32 as nat;
        let size: nat = crate::binary::magnitude32(bits);
        let floor: nat = NOISE_FLOOR as nat;
        if size < floor {
            crate::binary::lemma_units_increase(f, size, floor);
        }
        if size > floor {
            crate::binary::lemma_units_increase(f, floor, size);
        }
    }
    bits > SIGN32 + NOISE_FLOOR && bits <= SIGN32 + INFINITY32
}

/// A deficit that is out of gamut bounds every number that is not further out.
proof fn lemma_deficit_bound(bits: u32, size: u32)
    requires
        size < SIGN32,
        out_of_gamut((SIGN32 + size) as u32),
        out_of_gamut(bits) ==> bits <= SIGN32 + size,
    ensures
        crate::binary::nan32(bits) || -crate::binary::value32(bits) <= crate::binary::value32(size),
{
    let other: nat = crate::binary::magnitude32(bits);
    if out_of_gamut(bits) && other < size {
        crate::binary::lemma_units_increase(
            crate::binary::FRACTION32 as nat,
            other,
            size as nat,
        );
    }
}

impl GamutCorrection {
    /// Whether this and another hold the same coefficients.
    pub open spec fn same(self, other: GamutCorrection) -> bool {
        &&& equal_rows(self.matrix[0], other.matrix[0])
        &&& equal_rows(self.matrix[1], other.matrix[1])
        &&& equal_rows(self.matrix[2], other.matrix[2])
        &&& self.trc[0].same(other.trc[0])
        &&& self.trc[1].same(other.trc[1])
        &&& self.trc[2].same(other.trc[2])
    }

    /// Matrix in column-major order, as GLES2 `uniformMatrix3fv` expects
    /// (ES 2.0 requires transpose=false, so we transpose CPU-side).
    pub fn gl_matrix(&self) -> (flat: [u32; 9])
        ensures
            forall|row: int, col: int|
                0 <= row < 3 && 0 <= col < 3 ==> flat[3 * col + row]
                    == #[trigger] self.matrix[row][col],
    {
        let m: &[[u32; 3]; 3] = &self.matrix;
        [m[0][0], m[1][0], m[2][0], m[0][1], m[1][1], m[2][1], m[0][2], m[1][2], m[2][2]]
    }

    /// How far outside the panel's gamut the sRGB primaries fall, if at all.
    ///
    /// A negative matrix coefficient means an sRGB primary is not reproducible
    /// on this panel, so the shader's clamp will hard-clip it and shift that
    /// hue. Wide-gamut panels contain sRGB and return `None`; panels that do
    /// not fully cover it do not, and the caller should say so out loud.
    pub fn srgb_coverage_deficit(&self) -> (deficit: Option<u32>)
        ensures
            match deficit {
                None => forall|row: int, col: int|
                    0 <= row < 3 && 0 <= col < 3 ==> !out_of_gamut(
                        #[trigger] self.matrix[row][col],
                    ),
                Some(worst) => {
                    &&& worst < SIGN32
                    &&& exists|row: int, col: int|
                        0 <= row < 3 && 0 <= col < 3 && out_of_gamut(
                            #[trigger] self.matrix[row][col],
                        ) && self.matrix[row][col] == SIGN32 + worst
                    &&& forall|row: int, col: int|
                        0 <= row < 3 && 0 <= col < 3 ==> crate::binary::nan32(
                            self.matrix[row][col],
                        ) || -crate::binary::value32(#[trigger] self.matrix[row][col])
                            <= crate::binary::value32(worst)
                },
            },
    {
        let mut worst: Option<u32> = None;
        let mut i: usize = 0;
        while i < 9
            invariant
                i <= 9,
                self.worst_of(worst, i as int),
            decreases 9 - i,
        {
            let bits: u32 = self.matrix[i / 3][i % 3];
            assert(bits == self.flat(i as int));
            if is_out_of_gamut(bits) {
                let size: u32 = bits - SIGN32;
                match worst {
                    None => {
                        worst = Some(size);
                    },
                    Some(known) => {
                        if size > known {
                            worst = Some(size);
                        }
                    },
                }
            }
            i = i + 1;
        }
        proof {
            self.lemma_worst_of_all(worst);
        }
        worst
    }

    /// The entries of the matrix, counted along the rows.
    spec fn flat(self, index: int) -> u32 {
        self.matrix[index / 3][index % 3]
    }

    /// Whether `worst` is the largest deficit among the first entries.
    spec fn worst_of(self, worst: Option<u32>, count: int) -> bool {
        match worst {
            None => forall|i: int| 0 <= i < count ==> !out_of_gamut(#[trigger] self.flat(i)),
            Some(size) => {
                &&& size < SIGN32
                &&& exists|i: int|
                    0 <= i < count && out_of_gamut(#[trigger] self.flat(i)) && self.flat(i)
                        == SIGN32 + size
                &&& forall|i: int|
                    0 <= i < count && out_of_gamut(#[trigger] self.flat(i)) ==> self.flat(i)
                        <= SIGN32 + size
            },
        }
    }

    /// The largest deficit among all entries bounds each of them.
    proof fn lemma_worst_of_all(self, worst: Option<u32>)
        requires
            self.worst_of(worst, 9),
        ensures
            worst is None ==> forall|row: int, col: int|
                0 <= row < 3 && 0 <= col < 3 ==> !out_of_gamut(#[trigger] self.matrix[row][col]),
            worst matches Some(size) ==> {
                &&& exists|row: int, col: int|
                    0 <= row < 3 && 0 <= col < 3 && out_of_gamut(#[trigger] self.matrix[row][col])
                        && self.matrix[row][col] == SIGN32 + size
                &&& forall|row: int, col: int|
                    0 <= row < 3 && 0 <= col < 3 ==> crate::binary::nan32(self.matrix[row][col])
                        || -crate::binary::value32(#[trigger] self.matrix[row][col])
                        <= crate::binary::value32(size)
            },
    {
        match worst {
            None => {
                assert forall|row: int, col: int| 0 <= row < 3 && 0 <= col < 3 implies !out_of_gamut(
                    #[trigger] self.matrix[row][col],
                ) by {
                    self.lemma_flat(row, col);
                }
            },
            Some(size) => {
                let at: int = choose|i: int|
                    0 <= i < 9 && out_of_gamut(#[trigger] self.flat(i)) && self.flat(i) == SIGN32
                        + size;
                assert(self.matrix[at / 3][at % 3] == self.flat(at));
                assert forall|row: int, col: int|
                    0 <= row < 3 && 0 <= col < 3 implies crate::binary::nan32(
                    self.matrix[row][col],
                ) || -crate::binary::value32(#[trigger] self.matrix[row][col])
                    <= crate::binary::value32(size) by {
                    self.lemma_flat(row, col);
                    lemma_deficit_bound(self.matrix[row][col], size);
                }
            },
        }
    }

    /// Where an entry stands, counted along the rows.
    proof fn lemma_flat(self, row: int, col: int)
        requires
            0 <= row < 3,
            0 <= col < 3,
        ensures
            self.flat(3 * row + col) == self.matrix[row][col],
    {
        assert((3 * row + col) / 3 == row && (3 * row + col) % 3 == col);
    }

    /// Shader uniform name/value pairs for the inverse TRC, one `vec3` per
    /// coefficient across the R, G, B channels. Names match offscreen.frag.
    pub fn trc_uniforms(&self) -> (uniforms: [(&'static str, (u32, u32, u32)); 7])
        ensures
            uniforms[0].0@ == "trc_g"@,
            uniforms[0].1 == (self.trc[0].g, self.trc[1].g, self.trc[2].g),
            uniforms[1].0@ == "trc_a"@,
            uniforms[1].1 == (self.trc[0].a, self.trc[1].a, self.trc[2].a),
            uniforms[2].0@ == "trc_b"@,
            uniforms[2].1 == (self.trc[0].b, self.trc[1].b, self.trc[2].b),
            uniforms[3].0@ == "trc_c"@,
            uniforms[3].1 == (self.trc[0].c, self.trc[1].c, self.trc[2].c),
            uniforms[4].0@ == "trc_e"@,
            uniforms[4].1 == (self.trc[0].e, self.trc[1].e, self.trc[2].e),
            uniforms[5].0@ == "trc_f"@,
            uniforms[5].1 == (self.trc[0].f, self.trc[1].f, self.trc[2].f),
            uniforms[6].0@ == "trc_y_join"@,
            uniforms[6].1 == (self.trc[0].y_join, self.trc[1].y_join, self.trc[2].y_join),
    {
        let (r, g, b): (&TrcEncode, &TrcEncode, &TrcEncode) = (
            &self.trc[0],
            &self.trc[1],
            &self.trc[2],
        );
        [
            ("trc_g", (r.g, g.g, b.g)),
            ("trc_a", (r.a, g.a, b.a)),
            ("trc_b", (r.b, g.b, b.b)),
            ("trc_c", (r.c, g.c, b.c)),
            ("trc_e", (r.e, g.e, b.e)),
            ("trc_f", (r.f, g.f, b.f)),
            ("trc_y_join", (r.y_join, g.y_join, b.y_join)),
        ]
    }
}

/// One implausible channel is enough for a profile to be refused, whichever
/// channel it is and whatever the colorants are.
pub proof fn lemma_any_implausible_channel_is_refused(
    profile: IccProfile,
    values: [CurveValues; 3],
    channel: int,
)
    requires
        0 <= channel < 3,
        implausible(profile, values, channel),
    ensures
        refusal(profile, values) matches Some(IccError::ImplausibleGamma(_)),
{
}

/// What the shader divides by is not zero, in both of its branches and for every
/// channel: the two slopes, which are finite too, and the exponent.
pub proof fn lemma_shader_divides_by_nonzero(
    correction: GamutCorrection,
    profile: IccProfile,
    values: [CurveValues; 3],
    channel: int,
)
    requires
        0 <= channel < 3,
        profile.wf(),
        refusal(profile, values) is None,
        corrects(correction, profile, values),
    ensures
        0 < crate::binary::magnitude32(correction.trc[channel].g),
        0 < crate::binary::magnitude32(correction.trc[channel].a) < INFINITY32,
        0 < crate::binary::magnitude32(correction.trc[channel].c) < INFINITY32,
{
    assert(crate::encode::inverts(
        correction.trc[channel],
        profile.trc[channel],
        values[channel],
    ));
    assert(!implausible(profile, values, channel));
    crate::binary::lemma_fixed_stays_nonzero(
        correction.trc[channel].a,
        profile.trc[channel].a.0,
    );
    crate::encode::lemma_slope_is_divisor(
        correction.trc[channel],
        profile.trc[channel],
        values[channel],
    );
    crate::encode::lemma_exponent_is_divisor(
        correction.trc[channel],
        profile.trc[channel],
        values[channel],
    );
}

/// A curve that declares an exponent of zero is refused, whatever gamma its
/// midpoint shows.
pub proof fn lemma_zero_exponent_is_refused(
    profile: IccProfile,
    values: [CurveValues; 3],
    channel: int,
)
    requires
        0 <= channel < 3,
        profile.trc[channel].g matches crate::trc::Exponent::Exact(ratio) && ratio.num == 0,
    ensures
        refusal(profile, values) matches Some(IccError::ImplausibleGamma(_)),
{
    lemma_any_implausible_channel_is_refused(profile, values, channel);
}

/// A profile has one correction matrix.
pub proof fn lemma_correction_matrix_is_unique(
    a: GamutCorrection,
    b: GamutCorrection,
    profile: IccProfile,
    values: [CurveValues; 3],
)
    requires
        refusal(profile, values) is None,
        corrects(a, profile, values),
        corrects(b, profile, values),
    ensures
        a.matrix == b.matrix,
{
    assert forall|row: int, col: int| 0 <= row < 3 && 0 <= col < 3 implies a.matrix[row][col]
        == #[trigger] b.matrix[row][col] by {
        assert(crate::binary::rounds_to(
            a.matrix[row][col],
            crate::matrix::correction_numerator(panel(profile), row, col),
            crate::matrix::correction_denominator(panel(profile)),
        ));
        crate::binary::lemma_rounds_to_one_pattern(
            a.matrix[row][col],
            b.matrix[row][col],
            crate::matrix::correction_numerator(panel(profile), row, col),
            crate::matrix::correction_denominator(panel(profile)),
        );
    }
    assert forall|row: int| 0 <= row < 3 implies a.matrix[row] == #[trigger] b.matrix[row] by {
        assert forall|col: int| 0 <= col < 3 implies a.matrix[row][col]
            == #[trigger] b.matrix[row][col] by {}
        assert(a.matrix[row] =~= b.matrix[row]);
    }
    assert(a.matrix =~= b.matrix);
}

} // verus!
