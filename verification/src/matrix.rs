//! Exact 3 by 3 matrix algebra on colorants.
use vstd::prelude::*;

verus! {

/// sRGB colorants, D50-adapted, as found in the standard sRGB ICC profile
/// (columns: R, G, B; rows: X, Y, Z), in units of 10^-7.
pub const SRGB_PCS: [[i32; 3]; 3] = [
    [4360747, 3850649, 1430804],
    [2225045, 7168786, 606169],
    [139322, 971045, 7141733],
];

/// A matrix of exact numbers: each entry is its numerator over the common
/// denominator.
#[derive(Debug, Clone, Copy)]
pub struct RatioMatrix {
    pub num: [[i128; 3]; 3],
    pub den: i128,
}

/// An entry of a matrix, with the row and the column taken modulo three.
pub open spec fn entry(m: [[i32; 3]; 3], row: int, col: int) -> int {
    m[row % 3][col % 3] as int
}

/// The cofactor of an entry.
pub open spec fn cofactor(m: [[i32; 3]; 3], row: int, col: int) -> int {
    entry(m, row + 1, col + 1) * entry(m, row + 2, col + 2) - entry(m, row + 1, col + 2) * entry(
        m,
        row + 2,
        col + 1,
    )
}

/// The determinant, expanded along the first row.
pub open spec fn determinant(m: [[i32; 3]; 3]) -> int {
    entry(m, 0, 0) * cofactor(m, 0, 0) + entry(m, 0, 1) * cofactor(m, 0, 1) + entry(m, 0, 2)
        * cofactor(m, 0, 2)
}

/// Whether a matrix of 16.16 fixed-point numbers has a determinant below
/// 10^-9, either way: no colorant set that spans a gamut comes close.
pub open spec fn singular(m: [[i32; 3]; 3]) -> bool {
    -0x1_0000_0000_0000 < determinant(m) * 1_000_000_000 < 0x1_0000_0000_0000
}

fn cofactor_of(m: &[[i32; 3]; 3], row: usize, col: usize) -> (value: i128)
    requires
        row < 3,
        col < 3,
    ensures
        value == cofactor(*m, row as int, col as int),
        -0x8000_0000_0000_0000 <= value <= 0x8000_0000_0000_0000,
{
    let a: i128 = m[(row + 1) % 3][(col + 1) % 3] as i128;
    let b: i128 = m[(row + 2) % 3][(col + 2) % 3] as i128;
    let c: i128 = m[(row + 1) % 3][(col + 2) % 3] as i128;
    let d: i128 = m[(row + 2) % 3][(col + 1) % 3] as i128;
    proof {
        lemma_product_bound(a as int, b as int, 0x8000_0000, 0x8000_0000);
        lemma_product_bound(c as int, d as int, 0x8000_0000, 0x8000_0000);
    }
    a * b - c * d
}

/// A cofactor in units of 2^-16, negated on demand.
fn scaled_cofactor(m: &[[i32; 3]; 3], row: usize, col: usize, flip: bool) -> (value: i128)
    requires
        row < 3,
        col < 3,
    ensures
        value == (if flip {
            -0x1_0000 * cofactor(*m, row as int, col as int)
        } else {
            0x1_0000 * cofactor(*m, row as int, col as int)
        }),
        -0x8000_0000_0000_0000_0000 <= value <= 0x8000_0000_0000_0000_0000,
{
    let plain: i128 = cofactor_of(m, row, col);
    if flip {
        -0x1_0000 * plain
    } else {
        0x1_0000 * plain
    }
}

/// A product is bounded by the product of the bounds.
proof fn lemma_product_bound(x: int, y: int, x_bound: int, y_bound: int)
    by (nonlinear_arith)
    requires
        -x_bound <= x <= x_bound,
        -y_bound <= y <= y_bound,
    ensures
        -(x_bound * y_bound) <= x * y <= x_bound * y_bound,
{
}

/// The numerator of an entry of the inverse, over the size of the determinant.
/// A matrix of 16.16 fixed-point numbers has an inverse in units of 2^16.
pub open spec fn inverse_numerator(m: [[i32; 3]; 3], row: int, col: int) -> int {
    if determinant(m) < 0 {
        -0x1_0000 * cofactor(m, col, row)
    } else {
        0x1_0000 * cofactor(m, col, row)
    }
}

/// Inverts a matrix of 16.16 fixed-point numbers: the adjugate over the
/// determinant. There is no inverse of a singular matrix.
pub fn invert3(m: &[[i32; 3]; 3]) -> (inverse: Option<RatioMatrix>)
    ensures
        inverse is None <==> singular(*m),
        inverse matches Some(inv) ==> {
            &&& inv.den == crate::binary::absolute(determinant(*m))
            &&& 0 < inv.den < 0x1_0000_0000_0000_0000_0000_0000
            &&& forall|row: int, col: int|
                0 <= row < 3 && 0 <= col < 3 ==> #[trigger] inv.num[row][col] == inverse_numerator(
                    *m,
                    row,
                    col,
                )
            &&& inv.within(0x8000_0000_0000_0000_0000)
        },
{
    let c00: i128 = cofactor_of(m, 0, 0);
    let c01: i128 = cofactor_of(m, 0, 1);
    let c02: i128 = cofactor_of(m, 0, 2);
    proof {
        lemma_product_bound(m[0][0] as int, c00 as int, 0x8000_0000, 0x8000_0000_0000_0000);
        lemma_product_bound(m[0][1] as int, c01 as int, 0x8000_0000, 0x8000_0000_0000_0000);
        lemma_product_bound(m[0][2] as int, c02 as int, 0x8000_0000, 0x8000_0000_0000_0000);
    }
    let det: i128 = m[0][0] as i128 * c00 + m[0][1] as i128 * c01 + m[0][2] as i128 * c02;
    if -0x1_0000_0000_0000 < det * 1_000_000_000 && det * 1_000_000_000 < 0x1_0000_0000_0000 {
        return None;
    }
    let flip: bool = det < 0;
    let inv: RatioMatrix = RatioMatrix {
        num: [
            [
                scaled_cofactor(m, 0, 0, flip),
                scaled_cofactor(m, 1, 0, flip),
                scaled_cofactor(m, 2, 0, flip),
            ],
            [
                scaled_cofactor(m, 0, 1, flip),
                scaled_cofactor(m, 1, 1, flip),
                scaled_cofactor(m, 2, 1, flip),
            ],
            [
                scaled_cofactor(m, 0, 2, flip),
                scaled_cofactor(m, 1, 2, flip),
                scaled_cofactor(m, 2, 2, flip),
            ],
        ],
        den: if flip {
            -det
        } else {
            det
        },
    };
    Some(inv)
}

impl RatioMatrix {
    /// Whether no numerator exceeds a bound, either way.
    pub open spec fn within(self, bound: int) -> bool {
        forall|row: int, col: int|
            0 <= row < 3 && 0 <= col < 3 ==> -bound <= #[trigger] self.num[row][col] <= bound
    }
}

/// The numerator of an entry of a product.
pub open spec fn product_numerator(a: RatioMatrix, b: RatioMatrix, row: int, col: int) -> int {
    a.num[row][0] * b.num[0][col] + a.num[row][1] * b.num[1][col] + a.num[row][2] * b.num[2][col]
}

fn dot(a: &RatioMatrix, b: &RatioMatrix, row: usize, col: usize) -> (value: i128)
    requires
        row < 3,
        col < 3,
        a.within(0x8000_0000_0000_0000_0000),
        b.within(0x8000_0000),
    ensures
        value == product_numerator(*a, *b, row as int, col as int),
{
    proof {
        assert forall|k: int| 0 <= k < 3 implies -0x4000_0000_0000_0000_0000_0000_0000 <= (
        #[trigger] a.num[row as int][k]) * b.num[k][col as int]
            <= 0x4000_0000_0000_0000_0000_0000_0000 by {
            assert(-0x8000_0000 <= b.num[k][col as int] <= 0x8000_0000);
            lemma_product_bound(
                a.num[row as int][k] as int,
                b.num[k][col as int] as int,
                0x8000_0000_0000_0000_0000,
                0x8000_0000,
            );
        }
        assert(a.num[row as int][0] == a.num[row as int][0]);
        assert(a.num[row as int][1] == a.num[row as int][1]);
        assert(a.num[row as int][2] == a.num[row as int][2]);
    }
    a.num[row][0] * b.num[0][col] + a.num[row][1] * b.num[1][col] + a.num[row][2] * b.num[2][col]
}

/// Multiplies two matrices. Their numbers leave room for an exact product.
pub fn mul3(a: &RatioMatrix, b: &RatioMatrix) -> (product: RatioMatrix)
    requires
        a.within(0x8000_0000_0000_0000_0000),
        b.within(0x8000_0000),
        0 < a.den < 0x1_0000_0000_0000_0000_0000_0000,
        0 < b.den < 0x4000_0000,
    ensures
        product.den == a.den * b.den,
        product.den > 0,
        forall|row: int, col: int|
            0 <= row < 3 && 0 <= col < 3 ==> #[trigger] product.num[row][col] == product_numerator(
                *a,
                *b,
                row,
                col,
            ),
{
    proof {
        assert(0 < a.den * b.den < 0x4000_0000_0000_0000_0000_0000_0000_0000) by (nonlinear_arith)
            requires
                0 < a.den < 0x1_0000_0000_0000_0000_0000_0000,
                0 < b.den < 0x4000_0000,
        ;
    }
    RatioMatrix {
        num: [
            [dot(a, b, 0, 0), dot(a, b, 0, 1), dot(a, b, 0, 2)],
            [dot(a, b, 1, 0), dot(a, b, 1, 1), dot(a, b, 1, 2)],
            [dot(a, b, 2, 0), dot(a, b, 2, 1), dot(a, b, 2, 2)],
        ],
        den: a.den * b.den,
    }
}

/// A row is orthogonal to its cross product with another row, on either side.
proof fn lemma_own_row(x: int, y: int, z: int, u: int, v: int, w: int)
    ensures
        x * (y * w - z * v) + y * (z * u - x * w) + z * (x * v - y * u) == 0,
        x * (v * z - w * y) + y * (w * x - u * z) + z * (u * y - v * x) == 0,
{
    assert(x * (y * w - z * v) == x * y * w - x * z * v) by (nonlinear_arith);
    assert(y * (z * u - x * w) == y * z * u - x * y * w) by (nonlinear_arith);
    assert(z * (x * v - y * u) == x * z * v - y * z * u) by (nonlinear_arith);
    assert(x * (v * z - w * y) == x * z * v - x * y * w) by (nonlinear_arith);
    assert(y * (w * x - u * z) == x * y * w - y * z * u) by (nonlinear_arith);
    assert(z * (u * y - v * x) == y * z * u - x * z * v) by (nonlinear_arith);
}

/// The triple product of three rows does not change when they are rotated.
proof fn lemma_rotated_rows(
    a: int,
    b: int,
    c: int,
    d: int,
    e: int,
    f: int,
    g: int,
    h: int,
    i: int,
)
    ensures
        a * (e * i - f * h) + b * (f * g - d * i) + c * (d * h - e * g) == d * (h * c - i * b) + e
            * (i * a - g * c) + f * (g * b - h * a),
{
    assert(a * (e * i - f * h) == a * e * i - a * f * h) by (nonlinear_arith);
    assert(b * (f * g - d * i) == b * f * g - b * d * i) by (nonlinear_arith);
    assert(c * (d * h - e * g) == c * d * h - c * e * g) by (nonlinear_arith);
    assert(d * (h * c - i * b) == c * d * h - b * d * i) by (nonlinear_arith);
    assert(e * (i * a - g * c) == a * e * i - c * e * g) by (nonlinear_arith);
    assert(f * (g * b - h * a) == b * f * g - a * f * h) by (nonlinear_arith);
}

/// A matrix with its rows and columns swapped.
spec fn transposed(m: [[i32; 3]; 3]) -> [[i32; 3]; 3] {
    [[m[0][0], m[1][0], m[2][0]], [m[0][1], m[1][1], m[2][1]], [m[0][2], m[1][2], m[2][2]]]
}

/// Swapping rows and columns does not change the determinant.
proof fn lemma_transposed_determinant(m: [[i32; 3]; 3])
    ensures
        determinant(transposed(m)) == determinant(m),
{
    let (a, b, c): (int, int, int) = (entry(m, 0, 0), entry(m, 0, 1), entry(m, 0, 2));
    let (d, e, f): (int, int, int) = (entry(m, 1, 0), entry(m, 1, 1), entry(m, 1, 2));
    let (g, h, i): (int, int, int) = (entry(m, 2, 0), entry(m, 2, 1), entry(m, 2, 2));
    assert(determinant(m) == a * (e * i - f * h) + b * (f * g - d * i) + c * (d * h - e * g));
    assert(determinant(transposed(m)) == a * (e * i - h * f) + d * (h * c - b * i) + g * (b * f - e
        * c));
    assert(a * (e * i - f * h) == a * e * i - a * f * h) by (nonlinear_arith);
    assert(b * (f * g - d * i) == b * f * g - b * d * i) by (nonlinear_arith);
    assert(c * (d * h - e * g) == c * d * h - c * e * g) by (nonlinear_arith);
    assert(a * (e * i - h * f) == a * e * i - a * f * h) by (nonlinear_arith);
    assert(d * (h * c - b * i) == c * d * h - b * d * i) by (nonlinear_arith);
    assert(g * (b * f - e * c) == b * f * g - c * e * g) by (nonlinear_arith);
}

/// A matrix times its inverse is the identity, and so is the inverse times the
/// matrix.
pub proof fn lemma_inverse_cancels(m: [[i32; 3]; 3], row: int, col: int)
    requires
        0 <= row < 3,
        0 <= col < 3,
    ensures
        entry(m, row, 0) * inverse_numerator(m, 0, col) + entry(m, row, 1) * inverse_numerator(
            m,
            1,
            col,
        ) + entry(m, row, 2) * inverse_numerator(m, 2, col) == (if row == col {
            0x1_0000 * crate::binary::absolute(determinant(m))
        } else {
            0
        }),
        inverse_numerator(m, row, 0) * entry(m, 0, col) + inverse_numerator(m, row, 1) * entry(
            m,
            1,
            col,
        ) + inverse_numerator(m, row, 2) * entry(m, 2, col) == (if row == col {
            0x1_0000 * crate::binary::absolute(determinant(m))
        } else {
            0
        }),
{
    let t: [[i32; 3]; 3] = transposed(m);
    lemma_inverse_cancels_right(m, row, col);
    lemma_inverse_cancels_right(t, col, row);
    lemma_transposed_determinant(m);
    assert forall|k: int| 0 <= k < 3 implies #[trigger] inverse_numerator(t, k, row)
        == inverse_numerator(m, row, k) && entry(t, col, k) == entry(m, k, col) by {
        lemma_transposed_cofactor(m, k, row);
    }
    let (x, y, z): (int, int, int) = (entry(m, 0, col), entry(m, 1, col), entry(m, 2, col));
    let (p, q, r): (int, int, int) = (
        inverse_numerator(m, row, 0),
        inverse_numerator(m, row, 1),
        inverse_numerator(m, row, 2),
    );
    assert(inverse_numerator(t, 0, row) == p && entry(t, col, 0) == x);
    assert(inverse_numerator(t, 1, row) == q && entry(t, col, 1) == y);
    assert(inverse_numerator(t, 2, row) == r && entry(t, col, 2) == z);
    assert(x * p == p * x && y * q == q * y && z * r == r * z) by (nonlinear_arith);
}

/// Swapping rows and columns swaps those of the cofactors.
proof fn lemma_transposed_cofactor(m: [[i32; 3]; 3], row: int, col: int)
    requires
        0 <= row < 3,
        0 <= col < 3,
    ensures
        cofactor(transposed(m), col, row) == cofactor(m, row, col),
{
    let (a, b): (int, int) = (entry(m, row + 1, col + 2), entry(m, row + 2, col + 1));
    assert(a * b == b * a) by (nonlinear_arith);
}

/// A matrix times its inverse is the identity.
proof fn lemma_inverse_cancels_right(m: [[i32; 3]; 3], row: int, col: int)
    requires
        0 <= row < 3,
        0 <= col < 3,
    ensures
        entry(m, row, 0) * inverse_numerator(m, 0, col) + entry(m, row, 1) * inverse_numerator(
            m,
            1,
            col,
        ) + entry(m, row, 2) * inverse_numerator(m, 2, col) == (if row == col {
            0x1_0000 * crate::binary::absolute(determinant(m))
        } else {
            0
        }),
{
    let a: int = entry(m, 0, 0);
    let b: int = entry(m, 0, 1);
    let c: int = entry(m, 0, 2);
    let d: int = entry(m, 1, 0);
    let e: int = entry(m, 1, 1);
    let f: int = entry(m, 1, 2);
    let g: int = entry(m, 2, 0);
    let h: int = entry(m, 2, 1);
    let i: int = entry(m, 2, 2);
    lemma_rotated_rows(a, b, c, d, e, f, g, h, i);
    lemma_rotated_rows(d, e, f, g, h, i, a, b, c);
    lemma_own_row(a, b, c, d, e, f);
    lemma_own_row(a, b, c, g, h, i);
    lemma_own_row(d, e, f, a, b, c);
    lemma_own_row(d, e, f, g, h, i);
    lemma_own_row(g, h, i, a, b, c);
    lemma_own_row(g, h, i, d, e, f);
    let x: int = entry(m, row, 0);
    let y: int = entry(m, row, 1);
    let z: int = entry(m, row, 2);
    let p: int = cofactor(m, col, 0);
    let q: int = cofactor(m, col, 1);
    let r: int = cofactor(m, col, 2);
    assert(x * p + y * q + z * r == (if row == col {
        determinant(m)
    } else {
        0
    }));
    assert(x * (0x1_0000 * p) + y * (0x1_0000 * q) + z * (0x1_0000 * r) == 0x1_0000 * (x * p + y * q
        + z * r)) by (nonlinear_arith);
    assert(x * (-0x1_0000 * p) + y * (-0x1_0000 * q) + z * (-0x1_0000 * r) == -0x1_0000 * (x * p + y
        * q + z * r)) by (nonlinear_arith);
}

/// The denominator of the sRGB to panel matrix: the size of the determinant, and
/// what a unit of the sRGB colorants takes.
pub open spec fn correction_denominator(m: [[i32; 3]; 3]) -> int {
    crate::binary::absolute(determinant(m)) as int * 10_000_000
}

/// The numerator of an entry of the sRGB to panel matrix.
pub open spec fn correction_numerator(m: [[i32; 3]; 3], row: int, col: int) -> int {
    inverse_numerator(m, row, 0) * SRGB_PCS[0][col] + inverse_numerator(m, row, 1)
        * SRGB_PCS[1][col] + inverse_numerator(m, row, 2) * SRGB_PCS[2][col]
}

/// What the panel makes of a corrected sRGB primary is that primary: the panel
/// colorants times the correction are the sRGB colorants, exactly.
pub proof fn lemma_panel_shows_srgb(m: [[i32; 3]; 3], row: int, col: int)
    requires
        0 <= row < 3,
        0 <= col < 3,
    ensures
        entry(m, row, 0) * correction_numerator(m, 0, col) + entry(m, row, 1)
            * correction_numerator(m, 1, col) + entry(m, row, 2) * correction_numerator(m, 2, col)
            == 0x1_0000 * crate::binary::absolute(determinant(m)) * SRGB_PCS[row][col],
{
    lemma_inverse_cancels(m, row, 0);
    lemma_inverse_cancels(m, row, 1);
    lemma_inverse_cancels(m, row, 2);
    let x: int = entry(m, row, 0);
    let y: int = entry(m, row, 1);
    let z: int = entry(m, row, 2);
    let r: int = SRGB_PCS[0][col] as int;
    let g: int = SRGB_PCS[1][col] as int;
    let b: int = SRGB_PCS[2][col] as int;
    lemma_row_times_column(
        x,
        inverse_numerator(m, 0, 0),
        inverse_numerator(m, 0, 1),
        inverse_numerator(m, 0, 2),
        r,
        g,
        b,
    );
    lemma_row_times_column(
        y,
        inverse_numerator(m, 1, 0),
        inverse_numerator(m, 1, 1),
        inverse_numerator(m, 1, 2),
        r,
        g,
        b,
    );
    lemma_row_times_column(
        z,
        inverse_numerator(m, 2, 0),
        inverse_numerator(m, 2, 1),
        inverse_numerator(m, 2, 2),
        r,
        g,
        b,
    );
    lemma_sum_times(
        x * inverse_numerator(m, 0, 0),
        y * inverse_numerator(m, 1, 0),
        z * inverse_numerator(m, 2, 0),
        r,
    );
    lemma_sum_times(
        x * inverse_numerator(m, 0, 1),
        y * inverse_numerator(m, 1, 1),
        z * inverse_numerator(m, 2, 1),
        g,
    );
    lemma_sum_times(
        x * inverse_numerator(m, 0, 2),
        y * inverse_numerator(m, 1, 2),
        z * inverse_numerator(m, 2, 2),
        b,
    );
}

/// A factor distributes over the terms of a dot product.
proof fn lemma_row_times_column(x: int, p: int, q: int, s: int, r: int, g: int, b: int)
    ensures
        x * (p * r + q * g + s * b) == x * p * r + x * q * g + x * s * b,
{
    assert(x * (p * r) == x * p * r) by (nonlinear_arith);
    assert(x * (q * g) == x * q * g) by (nonlinear_arith);
    assert(x * (s * b) == x * s * b) by (nonlinear_arith);
    let u: int = p * r;
    let v: int = q * g;
    let w: int = s * b;
    assert(x * (u + v + w) == x * u + x * v + x * w) by (nonlinear_arith);
}

/// A sum of three times a factor.
proof fn lemma_sum_times(u: int, v: int, w: int, t: int)
    by (nonlinear_arith)
    ensures
        (u + v + w) * t == u * t + v * t + w * t,
{
}

} // verus!
