//! Profiles from bytes to shader uniforms.
use icc::{
    be_u32, gamut_correction, parse_icc, profile_candidates, CurveValues, Drive, Exponent, Fixed,
    GamutCorrection, IccError, IccProfile, Light, Ratio, Trc, TrcEncode,
};

/// sRGB colorants, D50-adapted.
const SRGB_PCS: [[f64; 3]; 3] = [
    [0.4360747, 0.3850649, 0.1430804],
    [0.2225045, 0.7168786, 0.0606169],
    [0.0139322, 0.0971045, 0.7141733],
];

/// Display P3 colorants as stored (D50-adapted) in Apple's Display P3 ICC.
const P3_PCS: [[f64; 3]; 3] = [
    [0.51512, 0.29198, 0.15710],
    [0.24120, 0.69225, 0.06657],
    [-0.00105, 0.04189, 0.78407],
];

/// Reference linear sRGB → Display P3 matrix (both D65; adaptation cancels).
const SRGB_TO_P3: [[f64; 3]; 3] = [
    [0.8224886, 0.1775114, 0.0],
    [0.0331941, 0.9668059, 0.0],
    [0.0170827, 0.0723974, 0.9105199],
];

/// sRGB primaries pulled 30% toward white.
const NARROW_PCS: [[f64; 3]; 3] = [
    [0.4016743, 0.3659674, 0.1965783],
    [0.2557531, 0.6018150, 0.1424318],
    [0.0922735, 0.1504941, 0.5824423],
];

/// The sRGB TRC as a paraCurveType type 3, as real profiles store it.
const SRGB_PARA: [f64; 5] = [2.39999, 0.94786, 0.05214, 0.07739, 0.04045];

const DEFAULT_GAMMA: f64 = 2.2;

#[derive(Clone)]
enum TrcTag {
    Gamma(f64),
    Table(Vec<u16>),
    Para(f64),
    Raw(Vec<u8>),
    Missing,
}

fn s15f16(v: f64) -> [u8; 4] {
    (((v * 65536.0).round()) as i32).to_be_bytes()
}

fn fixed(v: f64) -> Fixed {
    Fixed((v * 65536.0).round() as i32)
}

fn xyz_tag(col: usize, colorants: &[[f64; 3]; 3]) -> Vec<u8> {
    let mut data = b"XYZ \0\0\0\0".to_vec();
    for row in 0..3 {
        data.extend_from_slice(&s15f16(colorants[row][col]));
    }
    data
}

fn para_tag(function_type: u16, params: &[f64]) -> Vec<u8> {
    let mut d = b"para\0\0\0\0".to_vec();
    d.extend_from_slice(&function_type.to_be_bytes());
    d.extend_from_slice(&0u16.to_be_bytes()); // reserved
    for p in params {
        d.extend_from_slice(&s15f16(*p));
    }
    d
}

fn trc_bytes(trc: &TrcTag) -> Vec<u8> {
    match trc {
        TrcTag::Gamma(g) => {
            let mut d = b"curv\0\0\0\0".to_vec();
            d.extend_from_slice(&1u32.to_be_bytes());
            d.extend_from_slice(&(((g * 256.0).round()) as u16).to_be_bytes());
            d
        }
        TrcTag::Table(samples) => {
            let mut d = b"curv\0\0\0\0".to_vec();
            d.extend_from_slice(&(samples.len() as u32).to_be_bytes());
            for s in samples {
                d.extend_from_slice(&s.to_be_bytes());
            }
            d
        }
        TrcTag::Missing => Vec::new(),
        TrcTag::Para(g) => para_tag(0, &[*g]),
        TrcTag::Raw(bytes) => bytes.clone(),
    }
}

/// A profile of tags, one after the other.
fn profile_of_tags(tags: &[([u8; 4], Vec<u8>)]) -> Vec<u8> {
    let tag_table_len = 4 + tags.len() * 12;
    let mut offset = 128 + tag_table_len;
    let mut header = vec![0u8; 128];
    header[12..16].copy_from_slice(b"mntr");
    header[16..20].copy_from_slice(b"RGB ");
    header[20..24].copy_from_slice(b"XYZ ");
    header[36..40].copy_from_slice(b"acsp");
    let mut table = (tags.len() as u32).to_be_bytes().to_vec();
    let mut body = Vec::new();
    for (sig, data) in tags {
        table.extend_from_slice(sig);
        table.extend_from_slice(&(offset as u32).to_be_bytes());
        table.extend_from_slice(&(data.len() as u32).to_be_bytes());
        offset += data.len();
        body.extend_from_slice(data);
    }
    let mut out = header;
    out.extend_from_slice(&table);
    out.extend_from_slice(&body);
    let total = (out.len() as u32).to_be_bytes();
    out[0..4].copy_from_slice(&total);
    out
}

/// Build a minimal matrix/TRC ICC display profile.
/// `colorants` are (r, g, b) columns as XYZ triplets, D50 PCS-relative.
/// `trcs` become the rTRC/gTRC/bTRC tags; `Missing` omits that tag.
fn synthetic_profile_trcs(colorants: [[f64; 3]; 3], trcs: [TrcTag; 3]) -> Vec<u8> {
    let mut tags: Vec<([u8; 4], Vec<u8>)> = vec![
        (*b"rXYZ", xyz_tag(0, &colorants)),
        (*b"gXYZ", xyz_tag(1, &colorants)),
        (*b"bXYZ", xyz_tag(2, &colorants)),
    ];
    for (sig, trc) in [b"rTRC", b"gTRC", b"bTRC"].into_iter().zip(&trcs) {
        let data = trc_bytes(trc);
        if !data.is_empty() {
            tags.push((*sig, data));
        }
    }
    profile_of_tags(&tags)
}

/// The common case: one curve mirrored across all three channels.
fn synthetic_profile(colorants: [[f64; 3]; 3], trc: TrcTag) -> Vec<u8> {
    synthetic_profile_trcs(colorants, [trc.clone(), trc.clone(), trc])
}

fn number(ratio: Ratio) -> f64 {
    ratio.num as f64 / ratio.den as f64
}

fn value(fixed: Fixed) -> f64 {
    fixed.0 as f64 / 65536.0
}

fn exponent(g: Exponent) -> f64 {
    match g {
        Exponent::Exact(ratio) => number(ratio),
        Exponent::Through { x, y } => number(y).ln() / number(x).ln(),
    }
}

fn light(light: Light) -> f64 {
    match light {
        Light::Exact(ratio) => number(ratio),
        Light::Power { base, exponent: g, offset } => {
            number(base).powf(exponent(g)) + value(offset)
        }
    }
}

fn effective_gamma(curve: &Trc) -> f64 {
    let y = light(curve.midpoint());
    if y > 0.0 {
        y.ln() / 0.5f64.ln()
    } else {
        f64::NAN
    }
}

fn values(curve: &Trc) -> CurveValues {
    CurveValues {
        g: exponent(curve.g).to_bits(),
        y_join: light(curve.y_join()).to_bits(),
        effective_gamma: effective_gamma(curve).to_bits(),
    }
}

fn correct(profile: &IccProfile) -> Result<GamutCorrection, IccError> {
    let [r, g, b] = &profile.trc;
    gamut_correction(profile, &[values(r), values(g), values(b)])
}

fn from_trc(curve: &Trc) -> TrcEncode {
    TrcEncode::from_trc(curve, &values(curve))
}

fn decode(curve: &Trc, num: i128, den: i128) -> f64 {
    light(curve.decode(Ratio { num, den }))
}

fn encode(coefficients: &TrcEncode, y: f32) -> f32 {
    match coefficients.encode(y.to_bits()) {
        Drive::Curve { light, offset, exponent, shift, scale } => {
            let lifted = (f32::from_bits(light) - f32::from_bits(offset)).max(0.0);
            (lifted.powf(1.0 / f32::from_bits(exponent)) - f32::from_bits(shift))
                / f32::from_bits(scale)
        }
        Drive::Line { light, offset, slope } => {
            (f32::from_bits(light) - f32::from_bits(offset)) / f32::from_bits(slope)
        }
    }
}

fn srgb_curve() -> Trc {
    let params: Vec<Fixed> = SRGB_PARA.iter().map(|p| fixed(*p)).collect();
    Trc::from_para(3, &params).expect("type 3 parses")
}

fn assert_close(actual: f64, expected: f64, tol: f64, what: &str) {
    assert!(
        (actual - expected).abs() < tol,
        "{what}: expected {expected}, got {actual} (tol {tol})"
    );
}

#[test]
fn rejects_short_buffer() {
    assert!(matches!(parse_icc(&[0u8; 10]), Err(IccError::TooShort)));
}

#[test]
fn rejects_bad_magic() {
    let mut bytes = synthetic_profile(SRGB_PCS, TrcTag::Gamma(2.2));
    bytes[36..40].copy_from_slice(b"nope");
    assert!(matches!(parse_icc(&bytes), Err(IccError::BadMagic)));
}

#[test]
fn rejects_profile_without_colorants() {
    // Header + zero tags: the shape of a cLUT-only profile for our purposes.
    let mut bytes = vec![0u8; 132];
    bytes[12..16].copy_from_slice(b"mntr");
    bytes[16..20].copy_from_slice(b"RGB ");
    bytes[20..24].copy_from_slice(b"XYZ ");
    bytes[36..40].copy_from_slice(b"acsp");
    bytes[0..4].copy_from_slice(&132u32.to_be_bytes());
    // tag count = 0 at 128..132 already zeroed
    assert!(matches!(parse_icc(&bytes), Err(IccError::MissingTag(_))));
    assert_eq!(parse_icc(&bytes), Err(IccError::MissingTag(*b"rXYZ")));
}

#[test]
fn rejects_truncated_tag_data() {
    let mut bytes = synthetic_profile(SRGB_PCS, TrcTag::Gamma(2.2));
    bytes.truncate(bytes.len() - 4);
    assert!(matches!(parse_icc(&bytes), Err(IccError::Truncated)));
}

#[test]
fn parses_colorants_from_synthetic_srgb_profile() {
    let bytes = synthetic_profile(SRGB_PCS, TrcTag::Gamma(2.2));
    let profile = parse_icc(&bytes).expect("parses");
    assert_close(value(profile.red.x), 0.4360747, 1e-4, "red.x");
    assert_close(value(profile.red.y), 0.2225045, 1e-4, "red.y");
    assert_close(value(profile.green.y), 0.7168786, 1e-4, "green.y");
    assert_close(value(profile.blue.z), 0.7141733, 1e-4, "blue.z");
}

#[test]
fn parses_single_entry_gamma_trc() {
    let bytes = synthetic_profile(SRGB_PCS, TrcTag::Gamma(2.2));
    let profile = parse_icc(&bytes).expect("parses");
    // u8.8 quantization: 2.2 * 256 rounds to 563 -> 2.19921875
    assert_close(effective_gamma(&profile.trc[0]), 2.199, 5e-3, "gamma");
    assert_eq!(profile.trc[0], Trc::power(Exponent::Exact(Ratio { num: 563, den: 256 })));
}

#[test]
fn estimates_gamma_from_table_trc() {
    let table: Vec<u16> = (0..256)
        .map(|i| ((i as f64 / 255.0).powf(2.2) * 65535.0).round() as u16)
        .collect();
    let bytes = synthetic_profile(SRGB_PCS, TrcTag::Table(table));
    let profile = parse_icc(&bytes).expect("parses");
    assert_close(effective_gamma(&profile.trc[0]), 2.2, 0.05, "fitted gamma");
}

#[test]
fn missing_trc_defaults_to_srgb_like_gamma() {
    let bytes = synthetic_profile(SRGB_PCS, TrcTag::Missing);
    let profile = parse_icc(&bytes).expect("parses");
    assert_close(effective_gamma(&profile.trc[0]), 2.2, 1e-9, "default gamma");
}

#[test]
fn zero_entry_trc_means_linear() {
    let bytes = synthetic_profile(SRGB_PCS, TrcTag::Table(vec![]));
    let profile = parse_icc(&bytes).expect("parses");
    assert_close(effective_gamma(&profile.trc[0]), 1.0, 1e-9, "linear gamma");
}

#[test]
fn srgb_panel_yields_identity_correction() {
    let bytes = synthetic_profile(SRGB_PCS, TrcTag::Gamma(2.2));
    let profile = parse_icc(&bytes).expect("parses");
    let correction = correct(&profile).expect("invertible");
    for row in 0..3 {
        for col in 0..3 {
            let expected = if row == col { 1.0 } else { 0.0 };
            assert_close(
                f32::from_bits(correction.matrix[row][col]) as f64,
                expected,
                1e-3,
                &format!("matrix[{row}][{col}]"),
            );
        }
    }
}

#[test]
fn p3_panel_yields_reference_srgb_to_p3_matrix() {
    let bytes = synthetic_profile(P3_PCS, TrcTag::Gamma(2.2));
    let profile = parse_icc(&bytes).expect("parses");
    let correction = correct(&profile).expect("invertible");
    for row in 0..3 {
        for col in 0..3 {
            assert_close(
                f32::from_bits(correction.matrix[row][col]) as f64,
                SRGB_TO_P3[row][col],
                5e-3,
                &format!("matrix[{row}][{col}]"),
            );
        }
    }
}

#[test]
fn degenerate_colorants_are_rejected() {
    // All three colorants identical -> singular matrix.
    let bad = [[0.3, 0.3, 0.3], [0.3, 0.3, 0.3], [0.3, 0.3, 0.3]];
    let bytes = synthetic_profile(bad, TrcTag::Gamma(2.2));
    let profile = parse_icc(&bytes).expect("parses");
    assert!(matches!(correct(&profile), Err(IccError::Singular)));
}

#[test]
fn implausible_gamma_is_rejected() {
    // A malformed TRC declaring gamma ~0 must not reach the shader,
    // where 1.0/gamma would divide by zero.
    let bytes = synthetic_profile(SRGB_PCS, TrcTag::Gamma(0.0));
    let profile = parse_icc(&bytes).expect("parses");
    assert!(matches!(correct(&profile), Err(IccError::ImplausibleGamma(_))));
}

#[test]
fn parses_parametric_gamma_trc() {
    // ICC v4 paraCurveType (as Apple profiles use); first param is the exponent.
    let bytes = synthetic_profile(SRGB_PCS, TrcTag::Para(2.4));
    let profile = parse_icc(&bytes).expect("parses");
    assert_close(effective_gamma(&profile.trc[0]), 2.4, 1e-4, "parametric gamma");
}

#[test]
fn per_channel_trc_curves_are_kept_distinct() {
    // The grey-balance calibration in a factory profile *is* the difference
    // between the three curves; collapsing them reintroduces the cast.
    let bytes = synthetic_profile_trcs(
        SRGB_PCS,
        [TrcTag::Gamma(2.2), TrcTag::Gamma(2.3), TrcTag::Gamma(2.1)],
    );
    let profile = parse_icc(&bytes).expect("parses");
    assert_close(effective_gamma(&profile.trc[0]), 2.2, 5e-3, "red gamma");
    assert_close(effective_gamma(&profile.trc[1]), 2.3, 5e-3, "green gamma");
    assert_close(effective_gamma(&profile.trc[2]), 2.1, 5e-3, "blue gamma");

    let correction = correct(&profile).expect("invertible");
    assert!(
        correction.trc[0].g != correction.trc[1].g && correction.trc[1].g != correction.trc[2].g,
        "per-channel curves must survive into the shader uniforms"
    );
}

#[test]
fn channel_without_trc_falls_back_to_red_not_the_default() {
    let bytes = synthetic_profile_trcs(
        SRGB_PCS,
        [TrcTag::Gamma(1.8), TrcTag::Missing, TrcTag::Missing],
    );
    let profile = parse_icc(&bytes).expect("parses");
    assert_eq!(profile.trc[1], profile.trc[0], "green follows red");
    assert_eq!(profile.trc[2], profile.trc[0], "blue follows red");
    assert!(
        (effective_gamma(&profile.trc[1]) - DEFAULT_GAMMA).abs() > 0.1,
        "an rTRC-only profile means 'same for all', not 'assume 2.2'"
    );
}

#[test]
fn implausible_gamma_in_any_channel_is_rejected() {
    // Validation must cover all three, not just the first.
    let bytes = synthetic_profile_trcs(
        SRGB_PCS,
        [TrcTag::Gamma(2.2), TrcTag::Gamma(2.2), TrcTag::Gamma(0.0)],
    );
    let profile = parse_icc(&bytes).expect("parses");
    assert!(matches!(correct(&profile), Err(IccError::ImplausibleGamma(_))));
}

#[test]
fn profile_search_prefers_output_specific_and_covers_the_standard_data_dir() {
    let config = std::path::Path::new("/cfg");
    let data = std::path::Path::new("/data");
    let paths = profile_candidates(Some(config), Some(data), "eDP-1");

    let first_generic = paths
        .iter()
        .position(|p| p.ends_with("profile.icc"))
        .expect("generic candidate present");
    let last_specific = paths
        .iter()
        .rposition(|p| p.to_string_lossy().contains("eDP-1"))
        .expect("output-specific candidate present");
    assert!(
        last_specific < first_generic,
        "an output-specific profile must outrank a generic one: {paths:?}"
    );

    // colord, DisplayCAL and argyll install here.
    assert!(
        paths.contains(&data.join("icc").join("eDP-1.icc")),
        "the standard data dir must be searched: {paths:?}"
    );
    assert!(
        paths.contains(&config.join("icc").join("eDP-1.icm")),
        "the config override dir must still be searched: {paths:?}"
    );
}

#[test]
fn shader_encode_inverts_the_parsed_curve_everywhere() {
    // The reason the piecewise form is carried through at all: the encode
    // the shader performs must invert the profile's decode across the
    // whole range, the deep shadows included.
    let trc = srgb_curve();
    let coefficients = from_trc(&trc);
    for i in 0..=1000 {
        let x = i as f64 / 1000.0;
        let decoded = decode(&trc, i, 1000);
        let round_tripped = encode(&coefficients, decoded as f32) as f64;
        assert!(
            (round_tripped - x).abs() < 1e-3,
            "x={x} decoded to {decoded} and came back {round_tripped}"
        );
    }
}

#[test]
fn collapsing_the_curve_to_one_exponent_would_wreck_the_shadows() {
    // Documents the cost this complexity buys off: a single fitted
    // exponent is worth ~9 of 255 output codes in the deepest black,
    // where the correct code is only about 7.
    let trc = srgb_curve();
    let exact = from_trc(&trc);
    let scale = (1i128 << 40) as f64;
    let collapsed = from_trc(&Trc::power(Exponent::Exact(Ratio {
        num: (effective_gamma(&trc) * scale).round() as i128,
        den: 1 << 40,
    })));

    let (worst_codes, at) = (1..=4095)
        .map(|i| {
            let y = i as f32 / 4095.0;
            ((encode(&collapsed, y) - encode(&exact, y)).abs() * 255.0, y)
        })
        .fold((0.0f32, 0.0f32), |a, b| if b.0 > a.0 { b } else { a });

    assert!(
        worst_codes > 5.0,
        "expected the collapse to be visibly wrong, got {worst_codes:.2} codes"
    );
    assert!(
        at < 0.05,
        "and wrong in the shadows specifically, got worst at linear={at}"
    );
}

#[test]
fn rejects_a_profile_that_is_not_an_rgb_xyz_display_profile() {
    // A CMYK printer profile can carry tags of the right shape; parsing it
    // as a panel profile would silently produce nonsense colour.
    let mut bytes = synthetic_profile(SRGB_PCS, TrcTag::Gamma(2.2));
    bytes[12..16].copy_from_slice(b"prtr");
    assert!(matches!(parse_icc(&bytes), Err(IccError::WrongProfileKind { .. })));

    let mut bytes = synthetic_profile(SRGB_PCS, TrcTag::Gamma(2.2));
    bytes[20..24].copy_from_slice(b"Lab ");
    assert!(matches!(parse_icc(&bytes), Err(IccError::WrongProfileKind { .. })));
    assert_eq!(
        parse_icc(&bytes),
        Err(IccError::WrongProfileKind { class: *b"mntr", space: *b"RGB ", pcs: *b"Lab " })
    );
}

#[test]
fn a_panel_narrower_than_srgb_is_reported_not_silently_clipped() {
    // A panel that cannot reproduce the sRGB primaries. The shader clamp would
    // hard-clip and shift the hue, so the deficit has to reach the log.
    let bytes = synthetic_profile(NARROW_PCS, TrcTag::Gamma(2.2));
    let profile = parse_icc(&bytes).expect("parses");
    let correction = correct(&profile).expect("invertible");
    let deficit = correction
        .srgb_coverage_deficit()
        .expect("a narrow panel must report a deficit");
    assert_close(f32::from_bits(deficit) as f64, 0.14286, 1e-3, "worst deficit");

    // A wide-gamut panel contains sRGB and must stay quiet.
    let p3 = parse_icc(&synthetic_profile(P3_PCS, TrcTag::Gamma(2.2))).expect("parses");
    assert!(
        correct(&p3)
            .expect("invertible")
            .srgb_coverage_deficit()
            .is_none(),
        "P3 contains sRGB and must not warn"
    );
}

#[test]
fn table_trc_fit_keeps_the_midpoint_rather_than_least_squares() {
    // Guards against a plausible-looking "improvement". Least squares on
    // log(y) = g·log(x) minimizes relative error, so an sRGB-shaped table
    // drags it toward the toe and it loses badly to one midpoint sample.
    let trc = srgb_curve();
    let n = 1024usize;
    let samples: Vec<u16> = (0..n)
        .map(|i| (decode(&trc, i as i128, (n - 1) as i128) * 65535.0).round() as u16)
        .collect();
    let value = |i: usize| samples[i] as f64 / 65535.0;
    let peak_err = |g: f64| {
        (1..n)
            .map(|i| (i as f64 / (n - 1) as f64).powf(g) - value(i))
            .fold(0.0f64, |m, e| m.max(e.abs()))
    };

    let fitted = exponent(
        parse_icc(&synthetic_profile(SRGB_PCS, TrcTag::Table(samples.clone())))
            .expect("parses")
            .trc[0]
            .g,
    );
    let least_squares = {
        let (mut num, mut den) = (0.0, 0.0);
        for i in 1..n - 1 {
            let (x, y) = ((i as f64 / (n - 1) as f64).ln(), value(i).ln());
            num += x * y;
            den += x * x;
        }
        num / den
    };
    assert!(
        peak_err(fitted) < peak_err(least_squares),
        "midpoint fit {fitted} (err {:.5}) must stay ahead of least squares \
         {least_squares} (err {:.5})",
        peak_err(fitted),
        peak_err(least_squares)
    );

    // And a table that really is a power law is recovered exactly.
    let pure: Vec<u16> = (0..n)
        .map(|i| ((i as f64 / (n - 1) as f64).powf(2.2) * 65535.0).round() as u16)
        .collect();
    let g = exponent(
        parse_icc(&synthetic_profile(SRGB_PCS, TrcTag::Table(pure)))
            .expect("parses")
            .trc[0]
            .g,
    );
    assert_close(g, 2.2, 1e-4, "pure power table");
}

#[test]
fn gl_matrix_is_column_major() {
    let rows: [[f32; 3]; 3] = [[1.0, 2.0, 3.0], [4.0, 5.0, 6.0], [7.0, 8.0, 9.0]];
    let correction = GamutCorrection {
        matrix: rows.map(|row| row.map(|v| v.to_bits())),
        trc: [from_trc(&Trc::power(Exponent::Exact(Ratio { num: 11, den: 5 }))); 3],
    };
    assert_eq!(
        correction.gl_matrix().map(f32::from_bits),
        [1.0, 4.0, 7.0, 2.0, 5.0, 8.0, 3.0, 6.0, 9.0]
    );
}

#[test]
fn correction_matrices_are_exact_to_the_last_bit() {
    let bits = |colorants: [[f64; 3]; 3]| {
        let profile = parse_icc(&synthetic_profile(colorants, TrcTag::Gamma(2.2)));
        correct(&profile.expect("parses")).expect("invertible").matrix
    };
    assert_eq!(
        bits(SRGB_PCS),
        [
            [0x3f7ffe9a, 0xb7dac525, 0x36bfab76],
            [0x3701ccfa, 0x3f800087, 0xb7343c17],
            [0x3531428d, 0xb6aaba71, 0x3f800016],
        ]
    );
    assert_eq!(
        bits(P3_PCS),
        [
            [0x3f52907d, 0x3e35b2da, 0xb7b9a672],
            [0x3d07f68c, 0x3f777fc4, 0xb7cce140],
            [0x3c8c15d5, 0x3d945a79, 0x3f692d98],
        ]
    );
    assert_eq!(
        bits(NARROW_PCS),
        [
            [0x3fa4926b, 0xbe124175, 0xbe124fb7],
            [0xbe1249c9, 0x3fa49163, 0xbe12421e],
            [0xbe1246c3, 0xbe124a93, 0x3fa4921e],
        ]
    );
}

#[test]
fn deficit_is_the_worst_coefficient() {
    let profile = parse_icc(&synthetic_profile(NARROW_PCS, TrcTag::Gamma(2.2))).expect("parses");
    let correction = correct(&profile).expect("invertible");
    assert_eq!(correction.srgb_coverage_deficit(), Some(0x3e124fb7));
}

#[test]
fn deficit_reads_patterns_as_numbers() {
    let quiet = from_trc(&Trc::power(Exponent::Exact(Ratio { num: 1, den: 1 })));
    let deficit = |v: f32| {
        GamutCorrection { matrix: [[v.to_bits(), 0, 0], [0; 3], [0; 3]], trc: [quiet; 3] }
            .srgb_coverage_deficit()
            .map(f32::from_bits)
    };
    assert_eq!(deficit(0.5), None);
    assert_eq!(deficit(-0.0), None);
    assert_eq!(deficit(-1e-3), None);
    let beyond = f32::from_bits((-1e-3f32).to_bits() + 1);
    assert_eq!(deficit(beyond), Some(-beyond));
    assert_eq!(deficit(-0.25), Some(0.25));
    assert_eq!(deficit(f32::NEG_INFINITY), Some(f32::INFINITY));
    assert_eq!(deficit(f32::INFINITY), None);
    assert_eq!(deficit(f32::NAN), None);
    assert_eq!(deficit(-f32::NAN), None);
}

#[test]
fn uniforms_are_named_and_grouped_by_coefficient() {
    let channel = |n: u32| TrcEncode {
        g: n,
        a: n + 1,
        b: n + 2,
        c: n + 3,
        e: n + 4,
        f: n + 5,
        y_join: n + 6,
    };
    let correction =
        GamutCorrection { matrix: [[0; 3]; 3], trc: [channel(10), channel(20), channel(30)] };
    assert_eq!(
        correction.trc_uniforms(),
        [
            ("trc_g", (10, 20, 30)),
            ("trc_a", (11, 21, 31)),
            ("trc_b", (12, 22, 32)),
            ("trc_c", (13, 23, 33)),
            ("trc_e", (14, 24, 34)),
            ("trc_f", (15, 25, 35)),
            ("trc_y_join", (16, 26, 36)),
        ]
    );
}

#[test]
fn pure_gamma_has_no_linear_segment() {
    let coefficients = from_trc(&Trc::power(Exponent::Exact(Ratio { num: 11, den: 5 })));
    let floats = |bits: u32| f32::from_bits(bits);
    assert_eq!(floats(coefficients.g), 2.2);
    assert_eq!(floats(coefficients.a), 1.0);
    assert_eq!(floats(coefficients.b), 0.0);
    assert_eq!(floats(coefficients.c), 1.0);
    assert_eq!(floats(coefficients.e), 0.0);
    assert_eq!(floats(coefficients.f), 0.0);
    assert_eq!(coefficients.y_join, 0);
}

#[test]
fn linear_toe_is_kept() {
    let coefficients = from_trc(&srgb_curve());
    let toe = (0.94786f64 * 65536.0).round() / 65536.0;
    assert_eq!(f32::from_bits(coefficients.a), toe as f32);
    assert_eq!(f32::from_bits(coefficients.c), 5072.0 / 65536.0);
    assert_close(f32::from_bits(coefficients.y_join) as f64, 0.00313, 1e-4, "join");
    assert!(matches!(coefficients.encode(0.001f32.to_bits()), Drive::Line { .. }));
    assert!(matches!(coefficients.encode(0.5f32.to_bits()), Drive::Curve { .. }));
    assert!(matches!(coefficients.encode(f32::NAN.to_bits()), Drive::Line { .. }));
    // A toe that ends in the dark is dropped.
    let mut dark = srgb_curve();
    dark.e = Fixed(-65536);
    let dropped = from_trc(&dark);
    assert_eq!((dropped.c, dropped.y_join), (0x3f80_0000, 0));
}

#[test]
fn parametric_types_normalize() {
    let half = Fixed(0x8000);
    let one = Fixed(0x1_0000);
    let two = Fixed(0x2_0000);
    // Type 1: Y = (aX + b)^g above -b/a, zero below.
    let t = Trc::from_para(1, &[two, one, half]).expect("type 1");
    assert_eq!(t.d, Ratio { num: -0x8000, den: 0x1_0000 });
    assert_eq!((t.e, t.f, t.c), (Fixed(0), Fixed(0), Fixed(0)));
    // Type 2: the fourth parameter is an offset of both segments.
    let t = Trc::from_para(2, &[two, Fixed(-0x1_0000), half, one]).expect("type 2");
    assert_eq!(t.d, Ratio { num: 0x8000, den: 0x1_0000 });
    assert_eq!((t.e, t.f, t.c), (one, one, Fixed(0)));
    assert_eq!(decode(&t, 0, 1), 1.0);
    // Type 4 keeps all its parameters.
    let p = [two, one, half, Fixed(1), Fixed(2), Fixed(3), Fixed(4)];
    let t = Trc::from_para(4, &p).expect("type 4");
    assert_eq!((t.a, t.b, t.c, t.e, t.f), (one, half, Fixed(1), Fixed(3), Fixed(4)));
    assert_eq!(t.d, Ratio { num: 2, den: 0x1_0000 });
    assert_eq!(Trc::from_para(5, &p), None);
    assert_eq!(Trc::from_para(1, &[two, Fixed(0), half]), None);
    assert_eq!(Trc::from_para(2, &[two, Fixed(0), half, one]), None);
}

#[test]
fn simple_types_are_special_cases_of_type_four() {
    let p = [3.0, 1.0, 0.0, 0.0, 0.0, 0.0, 0.0].map(fixed);
    assert_eq!(Trc::from_para(0, &p[..1]), Trc::from_para(4, &p));
    let p = [2.4, 0.9, 0.1, 0.5, 0.04, 0.0, 0.0].map(fixed);
    assert_eq!(Trc::from_para(3, &p[..5]), Trc::from_para(4, &p));
    // Type 1 is type 2 without an offset.
    let p = [2.0, 3.0, -1.5, 0.0].map(fixed);
    assert_eq!(Trc::from_para(1, &p[..3]), Trc::from_para(2, &p));
    // Type 2 is type 4 with its offset in both segments and the join at -b/a.
    let simple = [2.0, 2.0, -1.0, 0.25].map(fixed);
    let full = [2.0, 2.0, -1.0, 0.0, 0.5, 0.25, 0.25].map(fixed);
    assert_eq!(Trc::from_para(2, &simple), Trc::from_para(4, &full));
    let elsewhere = [2.0, 2.0, -1.0, 0.0, 0.25, 0.25, 0.25].map(fixed);
    assert_ne!(Trc::from_para(2, &simple), Trc::from_para(4, &elsewhere));
}

#[test]
fn curves_are_equal_as_numbers() {
    let exponent = |num: i128, den: i128| Exponent::Exact(Ratio { num, den });
    assert_eq!(exponent(563, 256), exponent(144128, 65536));
    assert_ne!(exponent(563, 256), exponent(144129, 65536));
    assert_eq!(Trc::power(exponent(563, 256)), Trc::power(exponent(144128, 65536)));
    // The same gamma, as a count and as a parameter.
    let count = parse_icc(&synthetic_profile(SRGB_PCS, TrcTag::Gamma(563.0 / 256.0)));
    let para = parse_icc(&synthetic_profile(SRGB_PCS, TrcTag::Para(563.0 / 256.0)));
    assert_eq!(count, para);
    assert_ne!(count, parse_icc(&synthetic_profile(P3_PCS, TrcTag::Para(563.0 / 256.0))));
    // Equal curves decode to equal light.
    let (a, b) = (count.expect("parses").trc[0], para.expect("parses").trc[0]);
    let x = Ratio { num: 1, den: 3 };
    assert_eq!(a.decode(x), b.decode(x));
    assert_ne!(a.decode(x), b.decode(Ratio { num: 1, den: 4 }));
    // A table on the diagonal is linear, and one at full light is constant.
    let fit = |samples: Vec<u16>| {
        parse_icc(&synthetic_profile(SRGB_PCS, TrcTag::Table(samples))).expect("parses").trc[0].g
    };
    assert_eq!(fit(vec![0, 21845, 43690, 65535]), exponent(1, 1));
    assert_eq!(fit(vec![0, 65535, 65535]), exponent(0, 1));
    assert_ne!(fit(vec![0, 21845, 43691, 65535]), exponent(1, 1));
    assert_eq!(fit(vec![0, 20000, 65535]), fit(vec![0, 1, 20000, 2, 65535]));
    assert_ne!(fit(vec![0, 20000, 65535]), fit(vec![0, 20001, 65535]));
}

#[test]
fn corrections_are_equal_as_numbers() {
    let profile = parse_icc(&synthetic_profile(SRGB_PCS, TrcTag::Gamma(2.2))).expect("parses");
    let correction = correct(&profile).expect("corrects");
    assert_eq!(correction, correction);
    // Both zeros are equal.
    let (mut plus, mut minus) = (correction, correction);
    plus.matrix[1][2] = 0;
    minus.matrix[1][2] = 0x8000_0000;
    plus.trc[2].b = 0x8000_0000;
    minus.trc[2].b = 0;
    assert_eq!(plus, minus);
    assert_ne!(plus.trc[0], TrcEncode { y_join: 1, ..plus.trc[0] });
    // What is not a number equals nothing.
    let mut nan = correction;
    nan.trc[0].g = f32::NAN.to_bits();
    assert_ne!(nan, nan);
    let mut other = correction;
    other.matrix[2][0] += 1;
    assert_ne!(other, correction);
}

#[test]
fn decode_follows_both_segments() {
    let t = srgb_curve();
    // Below the join: c·X + f.
    assert_eq!(t.decode(Ratio { num: 1, den: 100 }), Light::Exact(Ratio { num: 5072, den: 6553600 }));
    // At or above it: (a·X + b)^g + e.
    assert_eq!(
        t.decode(Ratio { num: 1, den: 1 }),
        Light::Power {
            base: Ratio { num: t.a.0 as i128 + t.b.0 as i128, den: 65536 },
            exponent: t.g,
            offset: Fixed(0),
        }
    );
    assert_eq!(t.decode(t.d), t.y_join());
    // A base that is not positive counts as zero.
    let p = [2.0, 1.0, -0.5, 0.0, 0.0, 0.25, 0.0].map(fixed);
    let t = Trc::from_para(4, &p).expect("type 4");
    assert_eq!(t.decode(Ratio { num: 1, den: 4 }), Light::Exact(Ratio { num: 0x4000, den: 65536 }));
}

#[test]
fn inverting_a_decoded_value_gives_the_drive_back() {
    let t = srgb_curve();
    let x = Ratio { num: 3, den: 4 };
    match t.decode(x) {
        Light::Power { base, .. } => {
            let left = (base.num * 65536 - t.b.0 as i128 * base.den) * x.den;
            assert_eq!(left, t.a.0 as i128 * x.num * base.den);
        }
        Light::Exact(_) => panic!("above the join"),
    }
}

#[test]
fn midpoint_fit_falls_back_on_unusable_samples() {
    let fit = |samples: Vec<u16>| {
        parse_icc(&synthetic_profile(SRGB_PCS, TrcTag::Table(samples)))
            .expect("parses")
            .trc[0]
            .g
    };
    let standard = Exponent::Exact(Ratio { num: 11, den: 5 });
    // Two samples have no point inside the range.
    assert_eq!(fit(vec![0, 65535]), standard);
    // A black midpoint has no logarithm.
    assert_eq!(fit(vec![0, 0, 65535]), standard);
    assert_eq!(
        fit(vec![0, 16384, 65535]),
        Exponent::Through {
            x: Ratio { num: 1, den: 2 },
            y: Ratio { num: 16384, den: 65535 },
        }
    );
    assert_eq!(
        fit(vec![0, 1, 2, 3, 4, 5]),
        Exponent::Through { x: Ratio { num: 3, den: 5 }, y: Ratio { num: 3, den: 65535 } }
    );
}

#[test]
fn bad_curves_are_told_apart() {
    let parse = |data: Vec<u8>| {
        let curves = [TrcTag::Gamma(2.2), TrcTag::Raw(data), TrcTag::Missing];
        parse_icc(&synthetic_profile_trcs(SRGB_PCS, curves))
    };
    // One sample short.
    let mut short = trc_bytes(&TrcTag::Table(vec![0, 1, 2]));
    short.truncate(short.len() - 1);
    assert_eq!(parse(short), Err(IccError::Truncated));
    let mut short = trc_bytes(&TrcTag::Gamma(2.2));
    short.truncate(13);
    assert_eq!(parse(short), Err(IccError::Truncated));
    // A count far beyond the data.
    let mut huge = trc_bytes(&TrcTag::Table(vec![]));
    huge[8..12].copy_from_slice(&u32::MAX.to_be_bytes());
    assert_eq!(parse(huge), Err(IccError::Truncated));
    // Parameters cut off, an unknown function, a curve without a slope.
    let mut short = para_tag(3, &SRGB_PARA);
    short.truncate(short.len() - 1);
    assert_eq!(parse(short), Err(IccError::Truncated));
    assert_eq!(parse(para_tag(5, &[1.0; 7])), Err(IccError::Truncated));
    assert_eq!(parse(para_tag(1, &[2.0, 0.0, 0.5])), Err(IccError::Truncated));
    // Another type, and too short for any.
    assert_eq!(parse(b"mft2\0\0\0\0\0\0\0\0".to_vec()), Err(IccError::BadTagType(*b"gTRC")));
    assert_eq!(parse(b"curv\0\0\0\0\0\0\0".to_vec()), Err(IccError::BadTagType(*b"gTRC")));
}

#[test]
fn bad_colorants_are_told_apart() {
    let mut tags = vec![
        (*b"rXYZ", xyz_tag(0, &SRGB_PCS)),
        (*b"gXYZ", xyz_tag(1, &SRGB_PCS)),
        (*b"bXYZ", xyz_tag(2, &SRGB_PCS)),
    ];
    assert!(parse_icc(&profile_of_tags(&tags)).is_ok());
    assert_eq!(
        parse_icc(&profile_of_tags(&tags[..2])),
        Err(IccError::MissingTag(*b"bXYZ"))
    );
    tags[1].1.truncate(19);
    assert_eq!(parse_icc(&profile_of_tags(&tags)), Err(IccError::BadTagType(*b"gXYZ")));
    tags[0].1[0..4].copy_from_slice(b"curv");
    assert_eq!(parse_icc(&profile_of_tags(&tags)), Err(IccError::BadTagType(*b"rXYZ")));
    // The red curve is looked at before the colorants.
    tags.push((*b"rTRC", b"none".to_vec()));
    assert_eq!(parse_icc(&profile_of_tags(&tags)), Err(IccError::BadTagType(*b"rTRC")));
}

#[test]
fn first_of_two_tags_counts() {
    let tags = vec![
        (*b"rXYZ", xyz_tag(0, &P3_PCS)),
        (*b"rXYZ", xyz_tag(0, &SRGB_PCS)),
        (*b"gXYZ", xyz_tag(1, &SRGB_PCS)),
        (*b"bXYZ", xyz_tag(2, &SRGB_PCS)),
    ];
    let profile = parse_icc(&profile_of_tags(&tags)).expect("parses");
    assert_eq!(profile.red.x, fixed(P3_PCS[0][0]));
    assert_eq!(profile.green.x, fixed(SRGB_PCS[0][1]));
    assert_eq!(profile.red.z, Fixed(-69));
}

#[test]
fn clipped_tag_is_refused_though_never_read() {
    let mut bytes = synthetic_profile(SRGB_PCS, TrcTag::Gamma(2.2));
    // An unknown tag in place of the blue curve, one byte beyond the end.
    let entry = 132 + 5 * 12;
    let size = be_u32(&bytes, entry + 8);
    bytes[entry..entry + 4].copy_from_slice(b"desc");
    assert!(parse_icc(&bytes).is_ok());
    bytes[entry + 8..entry + 12].copy_from_slice(&(size + 1).to_be_bytes());
    assert_eq!(parse_icc(&bytes), Err(IccError::Truncated));
    bytes[entry + 4..entry + 12].copy_from_slice(&[0xff; 8]);
    assert_eq!(parse_icc(&bytes), Err(IccError::Truncated));
    // A table that does not fit.
    bytes[128..132].copy_from_slice(&u32::MAX.to_be_bytes());
    assert_eq!(parse_icc(&bytes), Err(IccError::Truncated));
}

#[test]
fn gamma_range_is_inclusive() {
    let profile = parse_icc(&synthetic_profile(SRGB_PCS, TrcTag::Gamma(2.2))).expect("parses");
    let result = |gamma: f64| {
        let mut all = profile.trc.map(|curve| values(&curve));
        all[1].effective_gamma = gamma.to_bits();
        gamut_correction(&profile, &all)
    };
    for gamma in [0.5, 1.0, 2.2, 5.0] {
        assert!(result(gamma).is_ok(), "{gamma} is plausible");
    }
    let nearly = f64::from_bits(0.5f64.to_bits() - 1);
    let barely = f64::from_bits(5.0f64.to_bits() + 1);
    for gamma in [nearly, barely, 0.0, -2.2, f64::INFINITY, f64::NAN, -f64::NAN] {
        assert_eq!(result(gamma), Err(IccError::ImplausibleGamma(gamma.to_bits())));
    }
}

#[test]
fn curve_without_slope_is_implausible() {
    let mut profile = parse_icc(&synthetic_profile(SRGB_PCS, TrcTag::Gamma(2.2))).expect("parses");
    let all = profile.trc.map(|curve| values(&curve));
    profile.trc[2].a = Fixed(0);
    assert_eq!(
        gamut_correction(&profile, &all),
        Err(IccError::ImplausibleGamma(all[2].effective_gamma))
    );
}

#[test]
fn zero_exponent_is_refused_whatever_the_midpoint_shows() {
    // Type 3 with its midpoint on the linear segment: the gamma there is 1.
    let params = [Fixed(0), Fixed(0x1_0000), Fixed(0), Fixed(0x1_0000), Fixed(58982)];
    let curve = Trc::from_para(3, &params).expect("type 3");
    assert_eq!(effective_gamma(&curve), 1.0);
    let data = para_tag(3, &[0.0, 1.0, 0.0, 1.0, 58982.0 / 65536.0]);
    let refused = Err(IccError::ImplausibleGamma(1.0f64.to_bits()));
    let profile =
        parse_icc(&synthetic_profile(SRGB_PCS, TrcTag::Raw(data.clone()))).expect("parses");
    assert_eq!(profile.trc, [curve; 3]);
    assert_eq!(correct(&profile), refused);
    // One such channel is enough.
    for channel in 0..3 {
        let mut trcs = [TrcTag::Gamma(2.2), TrcTag::Gamma(2.2), TrcTag::Gamma(2.2)];
        trcs[channel] = TrcTag::Raw(data.clone());
        let profile = parse_icc(&synthetic_profile_trcs(SRGB_PCS, trcs)).expect("parses");
        assert_eq!(correct(&profile), refused);
    }
    // The least exponent above zero is still divided by.
    let mut profile = profile;
    for channel in 0..3 {
        profile.trc[channel].g = Exponent::Exact(Ratio { num: 1, den: 0x1_0000 });
    }
    let correction = correct(&profile).expect("corrects");
    assert_eq!(correction.trc[0].g, (1.0f32 / 65536.0).to_bits());
}

#[test]
fn fitted_exponent_that_narrows_to_zero_is_refused() {
    let bytes = synthetic_profile(SRGB_PCS, TrcTag::Table(vec![0, 16384, 65535]));
    let profile = parse_icc(&bytes).expect("parses");
    let result = |g: f64| {
        let mut all = profile.trc.map(|curve| values(&curve));
        all[2].g = g.to_bits();
        gamut_correction(&profile, &all)
    };
    let gamma = values(&profile.trc[2]).effective_gamma;
    let half_unit = 2.0f64.powi(-150);
    for g in [0.0, -0.0, half_unit, -half_unit, f64::from_bits(1)] {
        assert_eq!(result(g), Err(IccError::ImplausibleGamma(gamma)));
    }
    let above = f64::from_bits(half_unit.to_bits() + 1);
    assert_eq!(result(above).expect("corrects").trc[2].g, 1);
    assert_eq!(result(-above).expect("corrects").trc[2].g, 0x8000_0001);
}

#[test]
fn padding_does_not_change_a_curve() {
    let curves = [
        TrcTag::Gamma(2.2),
        TrcTag::Table(vec![]),
        TrcTag::Table(vec![0, 9000, 30000, 65535]),
        TrcTag::Para(2.4),
        TrcTag::Raw(para_tag(3, &SRGB_PARA)),
    ];
    for curve in curves {
        let plain = trc_bytes(&curve);
        let mut padded = plain.clone();
        padded[4..8].copy_from_slice(&[1, 2, 3, 4]);
        padded.extend_from_slice(&[0xff; 9]);
        let trcs = [TrcTag::Raw(plain), TrcTag::Raw(padded), TrcTag::Missing];
        let profile = parse_icc(&synthetic_profile_trcs(SRGB_PCS, trcs)).expect("parses");
        assert_eq!(profile.trc[0], profile.trc[1]);
    }
}

#[test]
fn table_fit_goes_by_the_middle_sample_alone() {
    let fit = |samples: Vec<u16>| {
        parse_icc(&synthetic_profile(SRGB_PCS, TrcTag::Table(samples))).expect("parses").trc[0]
    };
    let curve = fit(vec![0, 1, 20000, 3, 65535]);
    assert_eq!(curve, fit(vec![7, 65535, 20000, 0, 9]));
    assert_ne!(curve, fit(vec![0, 1, 20001, 3, 65535]));
    assert_ne!(curve, fit(vec![0, 1, 20000, 65535]));
    assert_close(decode(&curve, 2, 4), 20000.0 / 65535.0, 1e-12, "the fit passes through it");
}

#[test]
fn curves_of_numbers_are_told_from_others() {
    let mut profile = parse_icc(&synthetic_profile(SRGB_PCS, TrcTag::Gamma(2.2))).expect("parses");
    assert!(profile.is_wf());
    let good = profile.trc[1];
    profile.trc[1].g = Exponent::Exact(Ratio { num: 1, den: 0 });
    assert!(!profile.trc[1].is_wf() && !profile.is_wf());
    profile.trc[1] = good;
    profile.trc[1].g =
        Exponent::Through { x: Ratio { num: 1, den: 2 }, y: Ratio { num: 1, den: -2 } };
    assert!(!profile.is_wf());
    profile.trc[1] = good;
    profile.trc[1].d = Ratio { num: i64::MAX as i128 + 1, den: 1 };
    assert!(!profile.is_wf());
    assert!(Ratio { num: i64::MIN as i128, den: i64::MAX as i128 }.is_bounded());
}
