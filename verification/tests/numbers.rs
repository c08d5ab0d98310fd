//! Bit patterns, exact matrices and the search through candidates.
use icc::binary::{at_least, at_most_zero, narrow, to_binary32};
use icc::bytes::{be_u16, s15f16, same_signature, signature};
use icc::matrix::{invert3, mul3, RatioMatrix};
use icc::number::{is_at_least, on_line};
use icc::search::{config_dir, data_dir, first_step, next_step, Step};
use icc::trc::{linear_join, parameter_count};
use icc::{be_u32, profile_candidates, Fixed, Ratio};
use std::path::{Path, PathBuf};

/// A plain sequence of numbers that covers all bits.
fn words(count: usize) -> Vec<u64> {
    let mut state: u64 = 0x9e37_79b9_7f4a_7c15;
    (0..count)
        .map(|_| {
            state ^= state << 13;
            state ^= state >> 7;
            state ^= state << 17;
            state
        })
        .collect()
}

#[test]
fn rounding_matches_the_machine() {
    for word in words(20_000) {
        let raw = word as i32;
        let expected = (raw as f64 / 65536.0) as f32;
        assert_eq!(to_binary32(raw as i128, 65536), expected.to_bits());
        // Quotients of small integers: the wider division does not disturb the
        // narrower rounding.
        let (num, den) = ((word >> 32) as u16 as i128, (word >> 48) as u16 as i128 + 1);
        let expected = num as f32 / den as f32;
        assert_eq!(to_binary32(num, den), expected.to_bits());
        assert_eq!(to_binary32(word as i128, 1), (word as f32).to_bits());
        let large = -(word as i128) << 60;
        assert_eq!(to_binary32(large, 1), (large as f32).to_bits());
    }
}

#[test]
fn rounding_breaks_ties_to_even() {
    assert_eq!(to_binary32(0, 7), 0);
    assert_eq!(to_binary32(1, 1), 0x3f80_0000);
    assert_eq!(to_binary32(-1, 2), 0xbf00_0000);
    assert_eq!(to_binary32(1, 3), 0x3eaa_aaab);
    // 2^24 + 1 lies halfway between two numbers, 2^24 + 3 as well.
    assert_eq!(to_binary32(16777217, 1), 16777216f32.to_bits());
    assert_eq!(to_binary32(16777219, 1), 16777220f32.to_bits());
    // Far below one, down to where only the sign is left.
    assert_eq!(to_binary32(-1, 1 << 126), 0x8080_0000);
    assert_eq!(to_binary32(i128::MIN, 1), (i128::MIN as f32).to_bits());
    assert_eq!(to_binary32(i128::MAX, i128::MAX), 0x3f80_0000);
    assert_eq!(to_binary32(-1, i128::MAX), (-1.0f32 / i128::MAX as f32).to_bits());
}

#[test]
fn narrowing_matches_the_machine() {
    let agrees = |wide: f64| {
        let narrowed = f32::from_bits(narrow(wide.to_bits()));
        let expected = wide as f32;
        if expected.is_nan() {
            assert!(narrowed.is_nan());
        } else {
            assert_eq!(narrowed.to_bits(), expected.to_bits(), "{wide:e}");
        }
    };
    for word in words(20_000) {
        agrees(f64::from_bits(word));
        // Near the subnormal numbers, near the largest, and around one.
        agrees((word as f64 / 18446744073709551616.0) * 1e-38);
        agrees((word as f64 / 18446744073709551616.0) * 1e-44);
        agrees((word as f64 / 18446744073709551616.0) * 7e38);
        agrees(word as f64 / 9223372036854775808.0);
    }
    let top = f32::MAX as f64;
    let step = top - f32::from_bits(f32::MAX.to_bits() - 1) as f64;
    for wide in [
        0.0,
        -0.0,
        1.0,
        -2.2,
        top,
        top + step / 2.0,
        f64::from_bits((top + step / 2.0).to_bits() - 1),
        f64::MAX,
        f64::MIN_POSITIVE,
        f64::INFINITY,
        f64::NEG_INFINITY,
        f64::NAN,
    ] {
        agrees(wide);
    }
}

#[test]
fn order_matches_the_machine() {
    let numbers = [
        0.0,
        -0.0,
        1.0,
        -1.0,
        0.5,
        -0.5,
        f32::MIN_POSITIVE,
        f32::from_bits(1),
        f32::MAX,
        f32::MIN,
        f32::INFINITY,
        f32::NEG_INFINITY,
        f32::NAN,
    ];
    for a in numbers {
        for b in numbers {
            assert_eq!(at_least(a.to_bits(), b.to_bits()), a >= b, "{a} >= {b}");
        }
    }
    for y in [0.0, -0.0, 1.0, -1.0, 5e-324, -5e-324, f64::INFINITY, f64::NEG_INFINITY, f64::NAN] {
        assert_eq!(at_most_zero(y.to_bits()), y <= 0.0, "{y} <= 0");
    }
}

#[test]
fn bytes_are_big_endian() {
    let bytes = [0x01, 0x02, 0x03, 0x04, 0xff, 0xff, 0x80, 0x00];
    assert_eq!(be_u16(&bytes, 1), 0x0203);
    assert_eq!(be_u32(&bytes, 0), 0x0102_0304);
    assert_eq!(be_u32(&bytes, 4), 0xffff_8000);
    assert_eq!(s15f16(&bytes, 0), Fixed(0x0102_0304));
    assert_eq!(s15f16(&bytes, 4), Fixed(-0x8000));
    assert_eq!(signature(&bytes, 2), [0x03, 0x04, 0xff, 0xff]);
    assert!(same_signature(b"curv", b"curv"));
    assert!(!same_signature(b"curv", b"curb"));
}

#[test]
fn exact_numbers_compare_and_combine() {
    let third = Ratio { num: 1, den: 3 };
    let half = Ratio { num: 1, den: 2 };
    assert!(is_at_least(half, third));
    assert!(!is_at_least(third, half));
    assert!(is_at_least(third, Ratio { num: 2, den: 6 }));
    assert!(is_at_least(third, Ratio { num: -1, den: 1 }));
    assert_eq!(on_line(Fixed(3), Fixed(-2), third), Ratio { num: -3, den: 3 * 65536 });
    assert_eq!(Fixed(-5).ratio(), Ratio { num: -5, den: 65536 });
    assert_eq!(linear_join(Fixed(2), Fixed(3)), Some(Ratio { num: -3, den: 2 }));
    assert_eq!(linear_join(Fixed(-2), Fixed(3)), Some(Ratio { num: 3, den: 2 }));
    assert_eq!(
        linear_join(Fixed(i32::MIN), Fixed(i32::MIN)),
        Some(Ratio { num: i32::MIN as i128, den: -(i32::MIN as i128) })
    );
    assert_eq!(linear_join(Fixed(0), Fixed(3)), None);
}

#[test]
fn parametric_functions_have_their_parameters() {
    let counts: Vec<Option<usize>> = (0..6).map(parameter_count).collect();
    assert_eq!(counts, [Some(1), Some(3), Some(4), Some(5), Some(7), None]);
}

#[test]
fn matrix_times_inverse_is_identity() {
    let m = [[0x8000, 0x4000, 0x2000], [-0x1000, 0x9000, 0x0800], [0x0100, -0x0200, 0x7000]];
    let inverse = invert3(&m).expect("not singular");
    for row in 0..3 {
        for col in 0..3 {
            let sum: i128 = (0..3).map(|k| m[row][k] as i128 * inverse.num[k][col]).sum();
            let expected = if row == col { 65536 * inverse.den } else { 0 };
            assert_eq!(sum, expected);
        }
    }
    // The sign of the determinant goes into the numerators.
    let swapped = [m[1], m[0], m[2]];
    let other = invert3(&swapped).expect("not singular");
    assert_eq!(other.den, inverse.den);
    for row in 0..3 {
        assert_eq!(other.num[row][0], inverse.num[row][1]);
        assert_eq!(other.num[row][1], inverse.num[row][0]);
    }
}

#[test]
fn determinant_below_the_threshold_is_singular() {
    // 281474 units of 2^-48 are less than 10^-9, and one more unit is not.
    let diagonal = |d: i32| [[1, 0, 0], [0, 1, 0], [0, 0, d]];
    assert!(invert3(&diagonal(281474)).is_none());
    assert!(invert3(&diagonal(-281474)).is_none());
    assert!(invert3(&diagonal(281475)).is_some());
    assert!(invert3(&diagonal(-281475)).is_some());
    let lowest = [[i32::MIN, 0, 0], [0, i32::MIN, 0], [0, 0, i32::MIN]];
    assert_eq!(invert3(&lowest).expect("not singular").den, 1i128 << 93);
}

#[test]
fn products_of_matrices() {
    let a = RatioMatrix { num: [[1, 2, 3], [4, 5, 6], [7, 8, 9]], den: 2 };
    let b = RatioMatrix { num: [[0, 1, 0], [0, 0, 1], [1, 0, 0]], den: 5 };
    let product = mul3(&a, &b);
    assert_eq!(product.num, [[3, 1, 2], [6, 4, 5], [9, 7, 8]]);
    assert_eq!(product.den, 10);
}

#[test]
fn candidates_in_order() {
    let names = |config: Option<&str>, data: Option<&str>| {
        profile_candidates(config.map(Path::new), data.map(Path::new), "DP-2")
    };
    let expected: Vec<PathBuf> = [
        "/cfg/icc/DP-2.icc",
        "/cfg/icc/DP-2.icm",
        "/data/icc/DP-2.icc",
        "/data/icc/DP-2.icm",
        "/cfg/icc/profile.icc",
        "/cfg/icc/profile.icm",
        "/data/icc/profile.icc",
        "/data/icc/profile.icm",
    ]
    .iter()
    .map(PathBuf::from)
    .collect();
    assert_eq!(names(Some("/cfg"), Some("/data")), expected);
    let expected: Vec<PathBuf> = [
        "/data/icc/DP-2.icc",
        "/data/icc/DP-2.icm",
        "/data/icc/profile.icc",
        "/data/icc/profile.icm",
    ]
    .iter()
    .map(PathBuf::from)
    .collect();
    assert_eq!(names(None, Some("/data")), expected);
    assert!(names(None, None).is_empty());
}

#[test]
fn base_directories_fall_back_to_home() {
    let home = Some(Path::new("/home/me"));
    let set = Some(PathBuf::from("/xdg"));
    assert_eq!(config_dir(set.clone(), home), set);
    assert_eq!(data_dir(set.clone(), None), set);
    assert_eq!(config_dir(None, home), Some(PathBuf::from("/home/me/.config")));
    assert_eq!(data_dir(None, home), Some(PathBuf::from("/home/me/.local/share")));
    assert_eq!(config_dir(None, None), None);
    assert_eq!(data_dir(None, None), None);
}

#[test]
fn search_reads_the_first_existing_candidate() {
    let run = |existing: &[bool]| {
        let mut step = first_step(existing.len());
        let mut probed = Vec::new();
        while let Step::Probe(i) = step {
            probed.push(i);
            step = next_step(existing.len(), i, existing[i]);
        }
        (step, probed)
    };
    assert_eq!(run(&[]), (Step::GiveUp, vec![]));
    assert_eq!(run(&[false, false]), (Step::GiveUp, vec![0, 1]));
    assert_eq!(run(&[false, true, true]), (Step::Read(1), vec![0, 1]));
    assert_eq!(run(&[true]), (Step::Read(0), vec![0]));
}

#[test]
fn quotients_are_equal_as_numbers() {
    let ratio = |num: i128, den: i128| Ratio { num, den };
    assert_eq!(ratio(1, 2), ratio(0x8000, 0x1_0000));
    assert_eq!(ratio(-3, 7), ratio(-6, 14));
    assert_eq!(ratio(0, 5), ratio(0, 9));
    assert_ne!(ratio(1, 2), ratio(-1, 2));
    assert_ne!(ratio(0, 1), ratio(1, i128::MAX));
    assert_ne!(ratio(355, 113), ratio(22, 7));
    // Products beyond 128 bits.
    assert_eq!(ratio(i128::MIN, 2), ratio(i128::MIN / 2, 1));
    assert_eq!(ratio(i128::MAX, i128::MAX), ratio(1, 1));
    assert_ne!(ratio(i128::MAX - 1, i128::MAX), ratio(i128::MAX - 2, i128::MAX - 1));
    // What is not a number equals nothing.
    assert_ne!(ratio(1, 0), ratio(1, 0));
    assert_ne!(ratio(1, -2), ratio(1, -2));
}

#[test]
fn inverse_times_matrix_is_identity() {
    let m = [[3, -1, 70000], [65536, 2, 5], [-7, 9, 65536]];
    let inverse = invert3(&m).expect("not singular");
    for row in 0..3 {
        for col in 0..3 {
            let sum: i128 = (0..3).map(|k| inverse.num[row][k] * m[k][col] as i128).sum();
            assert_eq!(sum, if row == col { 0x1_0000 * inverse.den } else { 0 });
        }
    }
}
