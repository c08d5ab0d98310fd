//! Minimal ICC display-profile support for output gamut correction.
//!
//! Parses just enough of an ICC v2/v4 matrix/TRC display profile (the kind
//! vendors like X-Rite factory-calibrate laptop panels with) to derive an
//! sRGB → panel-native compression matrix for the postprocess shader.
//!
//! ICC colorant tags (rXYZ/gXYZ/bXYZ) are stored chromatically adapted to the
//! D50 PCS. The standard sRGB colorants are published in the same D50-adapted
//! form, so `inv(M_panel) * M_srgb` computed wholly in PCS space cancels the
//! adaptation: no Bradford transform is needed.
//!
//! LUT-based (cLUT) profiles are rejected; only matrix/TRC profiles are
//! supported, which covers factory panel profiles.
//!
//! A profile holds fixed-point numbers, so everything that is computed from
//! them without a power or a logarithm is computed exactly, and rounded to
//! binary32 once, for the shader. Powers and logarithms are told as formulas
//! and evaluated by the caller, who hands back binary64 patterns.
pub mod binary;
pub mod bytes;
pub mod correction;
pub mod encode;
pub mod laws;
pub mod matrix;
pub mod number;
pub mod profile;
pub mod search;
pub mod trc;

pub use bytes::be_u32;
pub use correction::{gamut_correction, GamutCorrection};
pub use encode::{CurveValues, Drive, TrcEncode};
pub use number::{Fixed, Ratio};
pub use profile::{parse_icc, IccError, IccProfile, Xyz};
pub use search::profile_candidates;
pub use trc::{Exponent, Light, Trc};
