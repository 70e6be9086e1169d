//! The two-dimensional discrete cosine transform (DCT-II) in fixed-point
//! arithmetic, together with coefficient reduction, binarization, hash
//! packing and hash comparison.
//!
//! Cosine values are held in Q30 (30 fractional bits), basis entries — the
//! product of two cosines — in Q60, and final DCT coefficients in Q20. The
//! cosine is evaluated by quadrant reduction followed by an eight-term
//! Taylor expansion of `cos` on `[0, pi/2]`, all in integers, so every value
//! of the pipeline is an exact mathematical function of the inputs.

use vstd::prelude::*;

use crate::Error;
use crate::ErrorKind;
use crate::image::Image;
use crate::image::ImageView;

verus! {

/// One in Q30 fixed point.
pub const ONE_Q30: u64 = 0x4000_0000;

/// `pi` in Q60 fixed point, rounded to nearest.
pub const PI_Q60: u64 = 3622009729038561421;

/// `1 / sqrt(2)` in Q30 fixed point, rounded to nearest.
pub const INV_SQRT2_Q30: u64 = 759250125;

/// One in Q60 fixed point (the scale of basis entries).
pub const ONE_Q60: i64 = 0x1000_0000_0000_0000;

/// Coefficients are scaled by `2^20`.
pub const COEFF_SCALE: i64 = 0x10_0000;

/// Bound on the magnitude of a Q20 DCT coefficient of an image of dimension
/// at most 64: `dim^2 * 255 * 2^20 < 2^39`.
pub const COEFF_LIMIT: i64 = 0x80_0000_0000;

/// The Horner evaluation of the Taylor expansion of `cos`, `j` steps in,
/// over `u = y^2` in Q30: step `j` folds the term with denominator
/// `(2i - 1) * 2i` for `i = 9 - j`, clamped to `[0, 2^30]`.
pub open spec fn taylor_step(u: int, j: nat) -> int
    decreases j,
{
    if j == 0 {
        ONE_Q30 as int
    } else {
        let i = 9 - j;
        let t = u * taylor_step(u, (j - 1) as nat) / ((2 * i - 1) * (2 * i)) / (ONE_Q30 as int);
        if t >= ONE_Q30 as int {
            0
        } else {
            ONE_Q30 - t
        }
    }
}

/// `cos(pi * s / (2 * dim))` in Q30, for `0 <= 2 * s <= 2 * dim`: the
/// first-quadrant kernel of the cosine evaluation.
pub open spec fn cos_quarter_q30(dim: int, s: int) -> int {
    let d = 2 * dim;
    let y = PI_Q60 * s / d / (ONE_Q30 as int);
    let u = y * y / (ONE_Q30 as int);
    taylor_step(u, 8)
}

/// The Q30 fixed-point value of `cos(pi * (2 * pos + 1) * freq / (2 * dim))`,
/// by reduction of the angle to the first quadrant.
pub open spec fn cos_q30(dim: int, freq: int, pos: int) -> int {
    let d = 2 * dim;
    let a = (2 * pos + 1) * freq;
    let r = a % (2 * d);
    let r1 = if r > d {
        2 * d - r
    } else {
        r
    };
    if 2 * r1 > d {
        -cos_quarter_q30(dim, d - r1)
    } else {
        cos_quarter_q30(dim, r1)
    }
}

/// The Taylor evaluation stays within `[0, 2^30]` for non-negative `u`.
pub proof fn lemma_taylor_step_range(u: int, j: nat)
    requires
        u >= 0,
        j <= 8,
    ensures
        0 <= taylor_step(u, j) <= ONE_Q30 as int,
    decreases j,
{
    if j > 0 {
        let i = 9 - j;
        lemma_taylor_step_range(u, (j - 1) as nat);
        let prev = taylor_step(u, (j - 1) as nat);
        assert(u * prev >= 0) by (nonlinear_arith)
            requires u >= 0, prev >= 0;
        assert(u * prev / ((2 * i - 1) * (2 * i)) / (ONE_Q30 as int) >= 0) by (nonlinear_arith)
            requires u * prev >= 0, 1 <= i <= 8;
    }
}

/// A Q30 cosine value lies in `[-2^30, 2^30]`.
pub proof fn lemma_cos_q30_range(dim: int, freq: int, pos: int)
    requires
        dim >= 1,
        freq >= 0,
        pos >= 0,
    ensures
        -(ONE_Q30 as int) <= cos_q30(dim, freq, pos) <= ONE_Q30 as int,
{
    let d = 2 * dim;
    let a = (2 * pos + 1) * freq;
    let r = a % (2 * d);
    let r1 = if r > d {
        2 * d - r
    } else {
        r
    };
    let s = if 2 * r1 > d {
        d - r1
    } else {
        r1
    };
    lemma_cos_quarter_range(dim, s);
}

proof fn lemma_cos_quarter_range(dim: int, s: int)
    ensures
        0 <= cos_quarter_q30(dim, s) <= ONE_Q30 as int,
{
    let d = 2 * dim;
    let y = PI_Q60 * s / d / (ONE_Q30 as int);
    let u = y * y / (ONE_Q30 as int);
    assert(y * y >= 0) by (nonlinear_arith);
    assert(u >= 0) by (nonlinear_arith)
        requires u == y * y / (ONE_Q30 as int), y * y >= 0;
    lemma_taylor_step_range(u, 8);
}

/// Position of entry `(k, l, m, n)` in the flat basis array: `(k, l)` names
/// the basis matrix (vertical and horizontal frequency), `(m, n)` the cell
/// within it.
pub open spec fn basis_index(dim: int, k: int, l: int, m: int, n: int) -> int {
    ((k * dim + l) * dim + m) * dim + n
}

/// Entry `(m, n)` of basis matrix `(k, l)` in Q60: the product of the
/// vertical cosine `cos(pi * (2m + 1) * k / (2 * dim))` and the horizontal
/// cosine `cos(pi * (2n + 1) * l / (2 * dim))`, each in Q30.
pub open spec fn basis_at(dim: int, k: int, l: int, m: int, n: int) -> int {
    cos_q30(dim, k, m) * cos_q30(dim, l, n)
}

/// The flat Q60 basis array for dimension `dim`, in `basis_index` order.
pub open spec fn basis_seq(dim: int) -> Seq<int> {
    Seq::new(
        (dim * dim * dim * dim) as nat,
        |i: int|
            basis_at(
                dim,
                i / (dim * dim * dim),
                (i / (dim * dim)) % dim,
                (i / dim) % dim,
                i % dim,
            ),
    )
}

/// Encoding an in-range `(k, l, m, n)` with `basis_index` and decoding it
/// with division and remainder round-trips.
proof fn lemma_basis_index(dim: int, k: int, l: int, m: int, n: int)
    requires
        1 <= dim,
        0 <= k < dim,
        0 <= l < dim,
        0 <= m < dim,
        0 <= n < dim,
    ensures
        0 <= basis_index(dim, k, l, m, n) < dim * dim * dim * dim,
        basis_index(dim, k, l, m, n) / (dim * dim * dim) == k,
        (basis_index(dim, k, l, m, n) / (dim * dim)) % dim == l,
        (basis_index(dim, k, l, m, n) / dim) % dim == m,
        basis_index(dim, k, l, m, n) % dim == n,
{
    let i = basis_index(dim, k, l, m, n);
    let q2 = (k * dim + l) * dim + m;
    let q1 = k * dim + l;
    vstd::arithmetic::div_mod::lemma_fundamental_div_mod_converse(i, dim, q2, n);
    vstd::arithmetic::div_mod::lemma_fundamental_div_mod_converse(q2, dim, q1, m);
    vstd::arithmetic::div_mod::lemma_fundamental_div_mod_converse(q1, dim, k, l);
    assert(i == dim * q2 + n) by (nonlinear_arith)
        requires i == q2 * dim + n;
    assert(q2 == dim * q1 + m) by (nonlinear_arith)
        requires q2 == q1 * dim + m;
    assert(q1 == dim * k + l) by (nonlinear_arith)
        requires q1 == k * dim + l;
    assert(i / dim == q2 && i % dim == n);
    vstd::arithmetic::div_mod::lemma_div_denominator(i, dim, dim);
    assert(i / (dim * dim) == q2 / dim == q1);
    vstd::arithmetic::div_mod::lemma_div_denominator(i, dim * dim, dim);
    assert(dim * dim * dim == (dim * dim) * dim) by (nonlinear_arith);
    assert(i / (dim * dim * dim) == q1 / dim == k);
    assert(0 <= i) by (nonlinear_arith)
        requires k >= 0, l >= 0, m >= 0, n >= 0, dim >= 1, i == ((k * dim + l) * dim + m) * dim + n;
    assert(i < dim * dim * dim * dim) by (nonlinear_arith)
        requires
            i == ((k * dim + l) * dim + m) * dim + n,
            0 <= k < dim,
            0 <= l < dim,
            0 <= m < dim,
            0 <= n < dim,
            dim >= 1;
}

/// The mathematical model of a [`BasisCache`].
#[verifier::ext_equal]
pub struct BasisView {
    pub dim: int,
    pub values: Seq<int>,
}

/// Well-formedness of a basis cache: the dimension is bounded, the array
/// has `dim^4` entries and every entry lies within one in Q60.
pub open spec fn basis_wf(b: BasisView) -> bool {
    &&& 0 <= b.dim <= 64
    &&& b.values.len() == b.dim * b.dim * b.dim * b.dim
    &&& forall|i: int|
        0 <= i < b.values.len() ==> -ONE_Q60 <= #[trigger] b.values[i] <= ONE_Q60
}

/// The cached DCT basis for one dimension: for each pair of frequencies
/// `(k, l)` the `dim` by `dim` matrix of cosine products, flattened in
/// `basis_index` order, in Q60 fixed point.
pub struct BasisCache {
    dim: u32,
    values: Vec<i64>,
}

impl View for BasisCache {
    type V = BasisView;

    closed spec fn view(&self) -> BasisView {
        BasisView {
            dim: self.dim as int,
            values: Seq::new(self.values@.len(), |i: int| self.values@[i] as int),
        }
    }
}

impl BasisCache {
    /// The square dimension the basis was computed for.
    pub fn dim(&self) -> (d: u32)
        ensures
            d as int == self@.dim,
    {
        self.dim
    }
}

/// Calculate the DCT basis matrices for all vertical and horizontal
/// frequencies of the given square dimension.
pub fn calc_dct_basis(dim: u32) -> (b: BasisCache)
    requires
        dim <= 64,
    ensures
        b@.dim == dim as int,
        b@.values == basis_seq(dim as int),
        basis_wf(b@),
{
    let ghost d = dim as int;
    let ghost target = basis_seq(d);
    let mut values: Vec<i64> = Vec::new();
    let mut k: u32 = 0;
    while k < dim
        invariant
            k <= dim,
            values@.len() == k * (d * d * d),
            forall|j: int| 0 <= j < values@.len() ==> #[trigger] values@[j] as int == target[j],
        decreases dim - k,
    {
        proof {
            assert(k * (d * d * d) == (k * d + 0) * (d * d)) by (nonlinear_arith);
        }
        let mut l: u32 = 0;
        while l < dim
            invariant
                k < dim,
                l <= dim,
                values@.len() == (k * d + l) * (d * d),
                forall|j: int| 0 <= j < values@.len() ==> #[trigger] values@[j] as int == target[j],
            decreases dim - l,
        {
            proof {
                assert((k * d + l) * (d * d) == ((k * d + l) * d + 0) * d) by (nonlinear_arith);
            }
            let mut m: u32 = 0;
            while m < dim
                invariant
                    k < dim,
                    l < dim,
                    m <= dim,
                    values@.len() == ((k * d + l) * d + m) * d,
                    forall|j: int| 0 <= j < values@.len() ==> #[trigger] values@[j] as int == target[j],
                decreases dim - m,
            {
                let mut n: u32 = 0;
                while n < dim
                    invariant
                        k < dim,
                        l < dim,
                        m < dim,
                        n <= dim,
                        values@.len() == ((k * d + l) * d + m) * d + n,
                        forall|j: int|
                            0 <= j < values@.len() ==> #[trigger] values@[j] as int == target[j],
                    decreases dim - n,
                {
                    let vert_cos: i64 = cos_q30_exec(dim, k, m);
                    let horiz_cos: i64 = cos_q30_exec(dim, l, n);
                    proof {
                        assert(-ONE_Q60 <= (vert_cos as int) * (horiz_cos as int) <= ONE_Q60)
                            by (nonlinear_arith)
                            requires
                                -(ONE_Q30 as int) <= vert_cos <= ONE_Q30 as int,
                                -(ONE_Q30 as int) <= horiz_cos <= ONE_Q30 as int,
                                ONE_Q60 == (ONE_Q30 as int) * (ONE_Q30 as int);
                        lemma_basis_index(d, k as int, l as int, m as int, n as int);
                        assert(values@.len() == basis_index(d, k as int, l as int, m as int, n as int));
                        assert(target[values@.len() as int] == basis_at(
                            d,
                            k as int,
                            l as int,
                            m as int,
                            n as int,
                        ));
                    }
                    values.push(vert_cos * horiz_cos);
                    n = n + 1;
                }
                proof {
                    assert(((k * d + l) * d + m) * d + d == ((k * d + l) * d + (m + 1)) * d)
                        by (nonlinear_arith);
                }
                m = m + 1;
            }
            proof {
                assert(((k * d + l) * d + d) * d == ((k * d + l + 1)) * d * d) by (nonlinear_arith);
                assert(((k * d + l + 1)) * d * d == (k * d + (l + 1)) * (d * d)) by (nonlinear_arith);
            }
            l = l + 1;
        }
        proof {
            assert((k * d + d) * (d * d) == (k + 1) * (d * d * d)) by (nonlinear_arith);
        }
        k = k + 1;
    }
    proof {
        assert(values@.len() == dim * (d * d * d));
        assert(values@.len() == d * d * d * d) by (nonlinear_arith)
            requires values@.len() == d * (d * d * d);
    }
    let b = BasisCache { dim, values };
    proof {
        assert(b@.values.len() == target.len());
        assert forall|i: int| 0 <= i < target.len() implies b@.values[i] == target[i] by {
            assert(b@.values[i] == b.values@[i] as int);
        }
        assert(b@.values =~= target);
        assert forall|i: int| 0 <= i < b@.values.len() implies -ONE_Q60 <= #[trigger] b@.values[i]
            <= ONE_Q60 by {
            assert(d >= 1) by {
                if d == 0 {
                    assert(d * d * d * d == 0) by (nonlinear_arith)
                        requires d == 0;
                    assert(false);
                }
            }
            let dk = i / (d * d * d);
            let dl = (i / (d * d)) % d;
            let dm = (i / d) % d;
            let dn = i % d;
            assert(d * d * d >= 1 && d * d >= 1) by (nonlinear_arith)
                requires d >= 1;
            vstd::arithmetic::div_mod::lemma_div_pos_is_pos(i, d * d * d);
            vstd::arithmetic::div_mod::lemma_div_pos_is_pos(i, d * d);
            vstd::arithmetic::div_mod::lemma_div_pos_is_pos(i, d);
            vstd::arithmetic::div_mod::lemma_mod_division_less_than_divisor(i / (d * d), d);
            vstd::arithmetic::div_mod::lemma_mod_division_less_than_divisor(i / d, d);
            vstd::arithmetic::div_mod::lemma_mod_division_less_than_divisor(i, d);
            lemma_cos_q30_range(d, dk, dm);
            lemma_cos_q30_range(d, dl, dn);
            assert(-ONE_Q60 <= cos_q30(d, dk, dm) * cos_q30(d, dl, dn) <= ONE_Q60)
                by (nonlinear_arith)
                requires
                    -(ONE_Q30 as int) <= cos_q30(d, dk, dm) <= ONE_Q30 as int,
                    -(ONE_Q30 as int) <= cos_q30(d, dl, dn) <= ONE_Q30 as int,
                    ONE_Q60 == (ONE_Q30 as int) * (ONE_Q30 as int);
            assert(target[i] == basis_at(d, dk, dl, dm, dn));
        }
    }
    b
}

/// Sum over `n < nmax` of `pixel(m, n)[0] * basis[(k, l, m, n)]`: one row
/// of the projection sum for coefficient `(k, l)`.
pub open spec fn cell_sum(
    v: ImageView,
    b: Seq<int>,
    dim: int,
    k: int,
    l: int,
    m: int,
    nmax: nat,
) -> int
    decreases nmax,
{
    if nmax == 0 {
        0
    } else {
        cell_sum(v, b, dim, k, l, m, (nmax - 1) as nat) + v.pixel(m, nmax - 1)[0] * b[basis_index(
            dim,
            k,
            l,
            m,
            nmax - 1,
        )]
    }
}

/// Sum over `m < mmax` of `cell_sum(.., m, dim)`: the full projection sum
/// of the image against basis matrix `(k, l)`, in Q60.
pub open spec fn proj_sum(v: ImageView, b: Seq<int>, dim: int, k: int, l: int, mmax: nat) -> int
    decreases mmax,
{
    if mmax == 0 {
        0
    } else {
        proj_sum(v, b, dim, k, l, (mmax - 1) as nat) + cell_sum(
            v,
            b,
            dim,
            k,
            l,
            mmax - 1,
            dim as nat,
        )
    }
}

/// The DCT-II normalization factor in Q30: `1/sqrt(2)` for frequency zero,
/// one otherwise.
pub open spec fn alpha_q30(j: int) -> int {
    if j == 0 {
        INV_SQRT2_Q30 as int
    } else {
        ONE_Q30 as int
    }
}

/// DCT coefficient `(k, l)` in Q20: the projection sum scaled by
/// `alpha(k) * alpha(l) / 4`, computed on the magnitude and re-signed.
pub open spec fn coeff_at(v: ImageView, b: Seq<int>, dim: int, k: int, l: int) -> int {
    let s = proj_sum(v, b, dim, k, l, dim as nat);
    let mag = if s < 0 {
        -s
    } else {
        s
    };
    let c = mag / (ONE_Q30 as int) * alpha_q30(k) * alpha_q30(l) / 0x100_0000_0000_0000_0000;
    if s < 0 {
        -c
    } else {
        c
    }
}

/// The mathematical model of a [`Coefficients`] matrix.
#[verifier::ext_equal]
pub struct CoeffView {
    pub dim: int,
    pub values: Seq<int>,
}

/// Well-formedness of a coefficient matrix: bounded dimension, `dim^2`
/// entries in column-major order, every entry within `COEFF_LIMIT`.
pub open spec fn coeff_wf(c: CoeffView) -> bool {
    &&& 0 <= c.dim <= 64
    &&& c.values.len() == c.dim * c.dim
    &&& forall|i: int|
        0 <= i < c.values.len() ==> -COEFF_LIMIT <= #[trigger] c.values[i] <= COEFF_LIMIT
}

/// The full coefficient matrix of an image against a basis, entry `(k, l)`
/// at column-major position `l * dim + k`.
pub open spec fn project_view(v: ImageView, b: BasisView) -> CoeffView {
    CoeffView {
        dim: b.dim,
        values: Seq::new(
            (b.dim * b.dim) as nat,
            |i: int| coeff_at(v, b.values, b.dim, i % b.dim, i / b.dim),
        ),
    }
}

/// An N by N matrix of Q20 fixed-point DCT coefficients, stored
/// column-major.
pub struct Coefficients {
    dim: u32,
    values: Vec<i64>,
}

impl View for Coefficients {
    type V = CoeffView;

    closed spec fn view(&self) -> CoeffView {
        CoeffView {
            dim: self.dim as int,
            values: Seq::new(self.values@.len(), |i: int| self.values@[i] as int),
        }
    }
}

impl Coefficients {
    /// The square dimension of the matrix.
    pub fn dim(&self) -> (d: u32)
        ensures
            d as int == self@.dim,
    {
        self.dim
    }

    /// The Q20 coefficient at row `k` (vertical frequency) and column `l`
    /// (horizontal frequency).
    pub fn get(&self, k: u32, l: u32) -> (c: i64)
        requires
            coeff_wf(self@),
            k < self@.dim,
            l < self@.dim,
        ensures
            c as int == self@.values[l * self@.dim + k],
    {
        proof {
            assert(0 <= (l as int) * self@.dim + k < self@.dim * self@.dim <= 4096)
                by (nonlinear_arith)
                requires 0 <= k < self@.dim, 0 <= l < self@.dim, self@.dim <= 64;
        }
        let index: usize = (l as usize) * (self.dim as usize) + (k as usize);
        self.values[index]
    }
}

/// A row of the projection sum grows by at most `255 * 2^60` per term.
proof fn lemma_cell_sum_bound(
    v: ImageView,
    b: Seq<int>,
    dim: int,
    k: int,
    l: int,
    m: int,
    nmax: nat,
)
    requires
        v.wf(),
        v.width == dim,
        v.height == dim,
        0 <= k < dim,
        0 <= l < dim,
        0 <= m < dim,
        nmax <= dim,
        b.len() == dim * dim * dim * dim,
        forall|i: int| 0 <= i < b.len() ==> -ONE_Q60 <= #[trigger] b[i] <= ONE_Q60,
    ensures
        -(nmax as int) * 255 * ONE_Q60 <= cell_sum(v, b, dim, k, l, m, nmax) <= (nmax as int) * 255
            * ONE_Q60,
    decreases nmax,
{
    if nmax > 0 {
        let n = nmax - 1;
        lemma_cell_sum_bound(v, b, dim, k, l, m, (nmax - 1) as nat);
        lemma_basis_index(dim, k, l, m, n);
        let idx = basis_index(dim, k, l, m, n);
        let px = v.pixel(m, n)[0];
        assert(0 <= (n * dim + m) < v.pixels.len()) by (nonlinear_arith)
            requires
                0 <= m < dim,
                0 <= n < dim,
                v.pixels.len() == dim * dim;
        assert(-255 * ONE_Q60 <= px * b[idx] <= 255 * ONE_Q60) by (nonlinear_arith)
            requires
                0 <= px <= 255,
                -ONE_Q60 <= b[idx] <= ONE_Q60;
        assert((nmax as int) * 255 * ONE_Q60 == (n as int) * 255 * ONE_Q60 + 255 * ONE_Q60)
            by (nonlinear_arith)
            requires nmax == n + 1;
    }
}

/// The projection sum of one coefficient stays within
/// `mmax * dim * 255 * 2^60`.
proof fn lemma_proj_sum_bound(
    v: ImageView,
    b: Seq<int>,
    dim: int,
    k: int,
    l: int,
    mmax: nat,
)
    requires
        v.wf(),
        v.width == dim,
        v.height == dim,
        0 <= k < dim,
        0 <= l < dim,
        mmax <= dim,
        b.len() == dim * dim * dim * dim,
        forall|i: int| 0 <= i < b.len() ==> -ONE_Q60 <= #[trigger] b[i] <= ONE_Q60,
    ensures
        -(mmax as int) * dim * 255 * ONE_Q60 <= proj_sum(v, b, dim, k, l, mmax) <= (mmax as int)
            * dim * 255 * ONE_Q60,
    decreases mmax,
{
    if mmax > 0 {
        let m = mmax - 1;
        lemma_proj_sum_bound(v, b, dim, k, l, (mmax - 1) as nat);
        lemma_cell_sum_bound(v, b, dim, k, l, m, dim as nat);
        assert((mmax as int) * dim * 255 * ONE_Q60 == (m as int) * dim * 255 * ONE_Q60 + dim * 255
            * ONE_Q60) by (nonlinear_arith)
            requires mmax == m + 1;
        assert((dim as nat) as int * 255 * ONE_Q60 == dim * 255 * ONE_Q60) by (nonlinear_arith)
            requires dim >= 0;
        assert(-(mmax as int) * dim * 255 * ONE_Q60 <= proj_sum(v, b, dim, k, l, mmax) <= (
        mmax as int) * dim * 255 * ONE_Q60) by (nonlinear_arith)
            requires
                proj_sum(v, b, dim, k, l, mmax) == proj_sum(v, b, dim, k, l, (mmax - 1) as nat)
                    + cell_sum(v, b, dim, k, l, mmax - 1, dim as nat),
                -(m as int) * dim * 255 * ONE_Q60 <= proj_sum(v, b, dim, k, l, (mmax - 1) as nat)
                    <= (m as int) * dim * 255 * ONE_Q60,
                -(dim as nat) as int * 255 * ONE_Q60 <= cell_sum(v, b, dim, k, l, mmax - 1, dim as nat)
                    <= (dim as nat) as int * 255 * ONE_Q60,
                (dim as nat) as int == dim,
                mmax == m + 1,
                m >= 0,
                dim >= 1,
                ONE_Q60 > 0;
    }
}

/// Calculates the DCT coefficients for the passed image, which must be
/// square with the basis dimension.
pub fn calc_dct_coefficients(image: &Image, dct_basis: &BasisCache) -> (c: Coefficients)
    requires
        image@.wf(),
        basis_wf(dct_basis@),
        image@.width == dct_basis@.dim,
        image@.height == dct_basis@.dim,
    ensures
        c@ == project_view(image@, dct_basis@),
        coeff_wf(c@),
        c@.dim == dct_basis@.dim,
{
    let ghost v = image@;
    let ghost bv = dct_basis@.values;
    let ghost d = dct_basis@.dim;
    let ghost target = project_view(image@, dct_basis@);
    let dim: u32 = dct_basis.dim();

    let mut values: Vec<i64> = Vec::new();
    let mut l: u32 = 0;
    while l < dim
        invariant
            l <= dim,
            values@.len() == l * d,
            forall|j: int| 0 <= j < values@.len() ==> #[trigger] values@[j] as int == target.values[j],
        decreases dim - l,
    {
        let mut k: u32 = 0;
        while k < dim
            invariant
                l < dim,
                k <= dim,
                values@.len() == l * d + k,
                forall|j: int|
                    0 <= j < values@.len() ==> #[trigger] values@[j] as int == target.values[j],
            decreases dim - k,
        {
            let coefficient = project_one(image, dct_basis, k, l);
            proof {
                let j = l * d + k;
                assert(0 <= j < d * d) by (nonlinear_arith)
                    requires j == l * d + k, 0 <= k < d, 0 <= l < d;
                vstd::arithmetic::div_mod::lemma_fundamental_div_mod_converse(
                    j,
                    d,
                    l as int,
                    k as int,
                );
                assert(j == d * (l as int) + (k as int)) by (nonlinear_arith)
                    requires j == l * d + k;
                assert(target.values[j] == coeff_at(v, bv, d, k as int, l as int));
            }
            values.push(coefficient);
            k = k + 1;
        }
        proof {
            assert(l * d + d == (l + 1) * d) by (nonlinear_arith);
        }
        l = l + 1;
    }
    let c = Coefficients { dim, values };
    proof {
        assert(c@.values.len() == d * d) by (nonlinear_arith)
            requires c@.values.len() == d * d;
        assert forall|i: int| 0 <= i < target.values.len() implies c@.values[i]
            == target.values[i] by {
            assert(c@.values[i] == c.values@[i] as int);
        }
        assert(c@.values =~= target.values);
        assert(c@ =~= target);
        assert forall|i: int| 0 <= i < c@.values.len() implies -COEFF_LIMIT
            <= #[trigger] c@.values[i] <= COEFF_LIMIT by {
            let kk = i % d;
            let ll = i / d;
            assert(d >= 1) by {
                if d == 0 {
                    assert(d * d == 0) by (nonlinear_arith)
                        requires d == 0;
                    assert(false);
                }
            }
            vstd::arithmetic::div_mod::lemma_div_pos_is_pos(i, d);
            vstd::arithmetic::div_mod::lemma_mod_division_less_than_divisor(i, d);
            vstd::arithmetic::div_mod::lemma_fundamental_div_mod(i, d);
            assert(ll < d) by (nonlinear_arith)
                requires
                    i == d * ll + kk,
                    0 <= kk < d,
                    0 <= i < d * d,
                    ll >= 0;
            lemma_coeff_at_bound(v, bv, d, kk, ll);
            assert(c@.values[i] == coeff_at(v, bv, d, kk, ll));
        }
    }
    c
}

/// The magnitude of a Q20 coefficient is below `COEFF_LIMIT`.
proof fn lemma_coeff_at_bound(v: ImageView, b: Seq<int>, dim: int, k: int, l: int)
    requires
        v.wf(),
        v.width == dim,
        v.height == dim,
        0 <= k < dim,
        0 <= l < dim,
        dim <= 64,
        b.len() == dim * dim * dim * dim,
        forall|i: int| 0 <= i < b.len() ==> -ONE_Q60 <= #[trigger] b[i] <= ONE_Q60,
    ensures
        -COEFF_LIMIT <= coeff_at(v, b, dim, k, l) <= COEFF_LIMIT,
{
    lemma_proj_sum_bound(v, b, dim, k, l, dim as nat);
    let s = proj_sum(v, b, dim, k, l, dim as nat);
    let mag = if s < 0 {
        -s
    } else {
        s
    };
    assert(0 <= mag <= 64 * 64 * 255 * ONE_Q60) by (nonlinear_arith)
        requires
            -(dim as int) * dim * 255 * ONE_Q60 <= s <= (dim as int) * dim * 255 * ONE_Q60,
            mag == (if s < 0 { -s } else { s }),
            0 < dim <= 64,
            ONE_Q60 > 0;
    vstd::arithmetic::div_mod::lemma_div_is_ordered(
        mag,
        64 * 64 * 255 * ONE_Q60,
        ONE_Q30 as int,
    );
    vstd::arithmetic::div_mod::lemma_div_pos_is_pos(mag, ONE_Q30 as int);
    let mag30 = mag / (ONE_Q30 as int);
    assert(0 <= mag30 <= 64 * 64 * 255 * (ONE_Q30 as int));
    assert(0 <= alpha_q30(k) <= ONE_Q30 as int && 0 <= alpha_q30(l) <= ONE_Q30 as int);
    assert(0 <= mag30 * alpha_q30(k) * alpha_q30(l) <= 64 * 64 * 255 * (ONE_Q30 as int) * (
    ONE_Q30 as int) * (ONE_Q30 as int)) by (nonlinear_arith)
        requires
            0 <= mag30 <= 64 * 64 * 255 * (ONE_Q30 as int),
            0 <= alpha_q30(k) <= ONE_Q30 as int,
            0 <= alpha_q30(l) <= ONE_Q30 as int;
    vstd::arithmetic::div_mod::lemma_div_is_ordered(
        mag30 * alpha_q30(k) * alpha_q30(l),
        64 * 64 * 255 * (ONE_Q30 as int) * (ONE_Q30 as int) * (ONE_Q30 as int),
        0x100_0000_0000_0000_0000,
    );
    vstd::arithmetic::div_mod::lemma_div_pos_is_pos(
        mag30 * alpha_q30(k) * alpha_q30(l),
        0x100_0000_0000_0000_0000,
    );
}

/// One DCT coefficient: the Q60 projection sum of the image against basis
/// matrix `(k, l)`, scaled to Q20 with the DCT-II normalization.
fn project_one(image: &Image, dct_basis: &BasisCache, k: u32, l: u32) -> (c: i64)
    requires
        image@.wf(),
        basis_wf(dct_basis@),
        image@.width == dct_basis@.dim,
        image@.height == dct_basis@.dim,
        k < dct_basis@.dim,
        l < dct_basis@.dim,
    ensures
        c as int == coeff_at(image@, dct_basis@.values, dct_basis@.dim, k as int, l as int),
        -COEFF_LIMIT <= c <= COEFF_LIMIT,
{
    let ghost v = image@;
    let ghost bv = dct_basis@.values;
    let ghost d = dct_basis@.dim;
    let dim: u32 = dct_basis.dim();

    let mut sum: i128 = 0;
    let mut m: u32 = 0;
    while m < dim
        invariant
            m <= dim,
            k < dim,
            l < dim,
            sum == proj_sum(v, bv, d, k as int, l as int, m as nat),
            -(m as int) * d * 255 * ONE_Q60 <= sum <= (m as int) * d * 255 * ONE_Q60,
        decreases dim - m,
    {
        let mut n: u32 = 0;
        let ghost row_base = sum as int;
        while n < dim
            invariant
                n <= dim,
                m < dim,
                k < dim,
                l < dim,
                row_base == proj_sum(v, bv, d, k as int, l as int, m as nat),
                sum == row_base + cell_sum(v, bv, d, k as int, l as int, m as int, n as nat),
                -(m as int) * d * 255 * ONE_Q60 <= row_base <= (m as int) * d * 255 * ONE_Q60,
                -(n as int) * 255 * ONE_Q60 <= sum - row_base <= (n as int) * 255 * ONE_Q60,
            decreases dim - n,
        {
            proof {
                lemma_basis_index(d, k as int, l as int, m as int, n as int);
                assert(0 <= (k as int) * d && (k as int) * d + l < 4096 && 0 <= ((k as int) * d
                    + l) * d && ((k as int) * d + l) * d + m < 262144 && 0 <= (((k as int) * d + l)
                    * d + m) * d && (((k as int) * d + l) * d + m) * d + n < 16777216)
                    by (nonlinear_arith)
                    requires 0 <= k < d, 0 <= l < d, 0 <= m < d, 0 <= n < d, d <= 64;
            }
            let color: u8 = get_first_channel(image, m, n);
            let flat: usize = (((k as usize * dim as usize + l as usize) * dim as usize
                + m as usize) * dim as usize + n as usize);
            let bval: i64 = dct_basis.values[flat];
            proof {
                assert(bval == bv[basis_index(d, k as int, l as int, m as int, n as int)]);
                assert(-255 * ONE_Q60 <= (color as i128) * (bval as i128) <= 255 * ONE_Q60)
                    by (nonlinear_arith)
                    requires
                        0 <= color <= 255,
                        -ONE_Q60 <= bval <= ONE_Q60;
                assert(-(65 * 64 * 255 * (ONE_Q60 as int)) <= sum + (color as i128) * (
                bval as i128) <= 65 * 64 * 255 * (ONE_Q60 as int)) by (nonlinear_arith)
                    requires
                        -(m as int) * d * 255 * ONE_Q60 <= row_base <= (m as int) * d * 255
                            * ONE_Q60,
                        -(n as int) * 255 * ONE_Q60 <= sum - row_base <= (n as int) * 255
                            * ONE_Q60,
                        -255 * ONE_Q60 <= (color as i128) * (bval as i128) <= 255 * ONE_Q60,
                        0 <= m < d,
                        0 <= n < d,
                        d <= 64,
                        ONE_Q60 > 0;
            }
            sum = sum + (color as i128) * (bval as i128);
            n = n + 1;
        }
        proof {
            assert(cell_sum(v, bv, d, k as int, l as int, m as int, d as nat) == sum - row_base);
            assert(proj_sum(v, bv, d, k as int, l as int, (m + 1) as nat) == sum);
            assert(-((m + 1) as int) * d * 255 * ONE_Q60 <= sum <= ((m + 1) as int) * d * 255
                * ONE_Q60) by (nonlinear_arith)
                requires
                    -(m as int) * d * 255 * ONE_Q60 <= row_base <= (m as int) * d * 255 * ONE_Q60,
                    -(d as int) * 255 * ONE_Q60 <= sum - row_base <= (d as int) * 255 * ONE_Q60,
                    0 <= m < d,
                    ONE_Q60 > 0;
        }
        m = m + 1;
    }

    proof {
        assert(-(64 * 64 * 255 * (ONE_Q60 as int)) <= sum <= 64 * 64 * 255 * (ONE_Q60 as int))
            by (nonlinear_arith)
            requires
                -(dim as int) * d * 255 * ONE_Q60 <= sum <= (dim as int) * d * 255 * ONE_Q60,
                0 <= d <= 64,
                dim == d,
                ONE_Q60 > 0;
    }
    let negative: bool = sum < 0;
    let mag: u128 = if negative {
        (-sum) as u128
    } else {
        sum as u128
    };
    let mag30: u128 = mag / (ONE_Q30 as u128);
    proof {
        vstd::arithmetic::div_mod::lemma_div_is_ordered(
            mag as int,
            64 * 64 * 255 * (ONE_Q60 as int),
            ONE_Q30 as int,
        );
    }
    let ck: u128 = if k == 0 {
        INV_SQRT2_Q30 as u128
    } else {
        ONE_Q30 as u128
    };
    let cl: u128 = if l == 0 {
        INV_SQRT2_Q30 as u128
    } else {
        ONE_Q30 as u128
    };
    proof {
        assert(mag30 * ck * cl <= 64 * 64 * 255 * (ONE_Q30 as int) * (ONE_Q60 as int) * (
        ONE_Q30 as int)) by (nonlinear_arith)
            requires
                0 <= mag30 <= 64 * 64 * 255 * (ONE_Q60 as int) / (ONE_Q30 as int),
                64 * 64 * 255 * (ONE_Q60 as int) / (ONE_Q30 as int) == 64 * 64 * 255 * (
                ONE_Q30 as int),
                0 <= ck <= ONE_Q30,
                0 <= cl <= ONE_Q30;
        assert(ck == alpha_q30(k as int) && cl == alpha_q30(l as int));
    }
    let cq: u128 = mag30 * ck * cl / 0x100_0000_0000_0000_0000u128;
    proof {
        vstd::arithmetic::div_mod::lemma_div_is_ordered(
            (mag30 * ck * cl) as int,
            64 * 64 * 255 * (ONE_Q30 as int) * (ONE_Q60 as int) * (ONE_Q30 as int),
            0x100_0000_0000_0000_0000,
        );
        assert(cq <= COEFF_LIMIT);
        assert(cq == mag as int / (ONE_Q30 as int) * alpha_q30(k as int) * alpha_q30(l as int)
            / 0x100_0000_0000_0000_0000);
    }
    if negative {
        -(cq as i64)
    } else {
        cq as i64
    }
}

/// The first channel byte of the pixel at `(x, y)`.
fn get_first_channel(image: &Image, x: u32, y: u32) -> (c: u8)
    requires
        image@.wf(),
        x < image@.width,
        y < image@.height,
    ensures
        c == image@.pixel(x as int, y as int)[0],
{
    let pixel = image.get_pixel(x, y);
    proof {
        assert(0 <= (y as int) * image@.width + x < image@.pixels.len()) by (nonlinear_arith)
            requires
                0 <= x < image@.width,
                0 <= y < image@.height,
                image@.pixels.len() == image@.width * image@.height;
        assert(image@.pixel(x as int, y as int).len() == image@.channels_per_pixel);
    }
    pixel[0]
}

/// Cell `i` (column-major) of the top-left `r` by `r` block of `c`, with
/// the DC term zeroed and out-of-range cells padded with zero.
pub open spec fn reduced_cell(c: CoeffView, r: int, i: int) -> int {
    let row = i % r;
    let col = i / r;
    if row < c.dim && col < c.dim && !(row == 0 && col == 0) {
        c.values[col * c.dim + row]
    } else {
        0
    }
}

/// Sum of the first `j` reduced cells.
pub open spec fn reduced_total(c: CoeffView, r: int, j: nat) -> int
    decreases j,
{
    if j == 0 {
        0
    } else {
        reduced_total(c, r, (j - 1) as nat) + reduced_cell(c, r, j - 1)
    }
}

/// The mathematical model of a [`BitMatrix`].
#[verifier::ext_equal]
pub struct BitMatrixView {
    pub rows: int,
    pub cols: int,
    pub bits: Seq<u8>,
}

/// Well-formedness of a bit matrix: column-major storage of
/// `rows * cols` cells, each holding zero or one.
pub open spec fn bm_wf(b: BitMatrixView) -> bool {
    &&& 0 <= b.rows
    &&& 0 <= b.cols
    &&& b.bits.len() == b.rows * b.cols
    &&& forall|i: int| 0 <= i < b.bits.len() ==> #[trigger] b.bits[i] <= 1
}

/// The bit matrix produced by reducing and binarizing `c` to `r` by `r`:
/// cell `i` is one exactly when it is at least the mean of all `r * r`
/// reduced cells (the comparison `cell >= total / r^2` is taken exactly, by
/// cross-multiplication).
pub open spec fn reduce_view(c: CoeffView, r: int) -> BitMatrixView {
    BitMatrixView {
        rows: r,
        cols: r,
        bits: Seq::new(
            (r * r) as nat,
            |i: int|
                if reduced_cell(c, r, i) * (r * r) >= reduced_total(c, r, (r * r) as nat) {
                    1u8
                } else {
                    0u8
                },
        ),
    }
}

/// An `rows` by `cols` matrix of bits, stored column-major.
pub struct BitMatrix {
    rows: u32,
    cols: u32,
    bits: Vec<u8>,
}

impl View for BitMatrix {
    type V = BitMatrixView;

    closed spec fn view(&self) -> BitMatrixView {
        BitMatrixView { rows: self.rows as int, cols: self.cols as int, bits: self.bits@ }
    }
}

impl BitMatrix {
    /// Build a bit matrix from cell values given in row-major order.
    pub fn from_row_slice(rows: u32, cols: u32, values: &[u8]) -> (b: BitMatrix)
        requires
            values@.len() == (rows as int) * (cols as int),
            forall|i: int| 0 <= i < values@.len() ==> #[trigger] values@[i] <= 1,
        ensures
            b@.rows == rows as int,
            b@.cols == cols as int,
            bm_wf(b@),
            forall|j: int|
                0 <= j < b@.bits.len() ==> #[trigger] b@.bits[j] == values@[(j % (rows as int)) * (
                cols as int) + j / (rows as int)],
    {
        let total_len: usize = values.len();
        let mut bits: Vec<u8> = Vec::new();
        let mut c: u32 = 0;
        while c < cols
            invariant
                c <= cols,
                total_len == values@.len(),
                bits@.len() == c * rows,
                forall|j: int|
                    0 <= j < bits@.len() ==> #[trigger] bits@[j] == values@[(j % (rows as int)) * (
                    cols as int) + j / (rows as int)],
            decreases cols - c,
        {
            let mut r: u32 = 0;
            while r < rows
                invariant
                    c < cols,
                    r <= rows,
                    bits@.len() == c * rows + r,
                    forall|j: int|
                        0 <= j < bits@.len() ==> #[trigger] bits@[j] == values@[(j % (
                        rows as int)) * (cols as int) + j / (rows as int)],
                decreases rows - r,
            {
                proof {
                    assert(0 <= (r as int) * (cols as int) + c < (rows as int) * (cols as int))
                        by (nonlinear_arith)
                        requires 0 <= r < rows, 0 <= c < cols;
                    assert((r as int) * (cols as int) + c <= u64::MAX) by (nonlinear_arith)
                        requires 0 <= r < rows <= u32::MAX, 0 <= c < cols <= u32::MAX;
                    let j = (c as int) * (rows as int) + r;
                    vstd::arithmetic::div_mod::lemma_fundamental_div_mod_converse(
                        j,
                        rows as int,
                        c as int,
                        r as int,
                    );
                    assert(j == (rows as int) * (c as int) + (r as int)) by (nonlinear_arith)
                        requires j == (c as int) * (rows as int) + r;
                }
                let index: usize = (r as usize) * (cols as usize) + (c as usize);
                bits.push(values[index]);
                r = r + 1;
            }
            proof {
                assert((c as int) * rows + rows == (c + 1) * (rows as int)) by (nonlinear_arith);
            }
            c = c + 1;
        }
        let ghost gbits = bits@;
        let b = BitMatrix { rows, cols, bits };
        proof {
            assert((cols as int) * (rows as int) == (rows as int) * (cols as int))
                by (nonlinear_arith);
            assert(b@.bits == gbits);
            assert forall|j: int| 0 <= j < b@.bits.len() implies #[trigger] b@.bits[j] <= 1 by {
                assert(b@.bits[j] == gbits[j]);
                assert(rows >= 1) by {
                    if rows == 0 {
                        assert((rows as int) * (cols as int) == 0) by (nonlinear_arith)
                            requires rows == 0;
                        assert(false);
                    }
                }
                let row = j % (rows as int);
                let col = j / (rows as int);
                vstd::arithmetic::div_mod::lemma_mod_division_less_than_divisor(j, rows as int);
                vstd::arithmetic::div_mod::lemma_div_pos_is_pos(j, rows as int);
                vstd::arithmetic::div_mod::lemma_fundamental_div_mod(j, rows as int);
                assert(col < cols) by (nonlinear_arith)
                    requires
                        j == (rows as int) * col + row,
                        0 <= row < rows,
                        0 <= j < (rows as int) * (cols as int),
                        col >= 0;
                assert(0 <= row * (cols as int) + col < (rows as int) * (cols as int))
                    by (nonlinear_arith)
                    requires 0 <= row < rows, 0 <= col < cols;
            }
        }
        b
    }

    /// An all-zero bit matrix.
    pub fn zeros(rows: u32, cols: u32) -> (b: BitMatrix)
        ensures
            b@.rows == rows as int,
            b@.cols == cols as int,
            bm_wf(b@),
            forall|j: int| 0 <= j < b@.bits.len() ==> #[trigger] b@.bits[j] == 0,
    {
        let mut bits: Vec<u8> = Vec::new();
        let mut c: u32 = 0;
        while c < cols
            invariant
                c <= cols,
                bits@.len() == c * rows,
                forall|j: int| 0 <= j < bits@.len() ==> #[trigger] bits@[j] == 0,
            decreases cols - c,
        {
            let mut r: u32 = 0;
            while r < rows
                invariant
                    c < cols,
                    r <= rows,
                    bits@.len() == c * rows + r,
                    forall|j: int| 0 <= j < bits@.len() ==> #[trigger] bits@[j] == 0,
                decreases rows - r,
            {
                bits.push(0);
                r = r + 1;
            }
            proof {
                assert((c as int) * rows + rows == (c + 1) * (rows as int)) by (nonlinear_arith);
            }
            c = c + 1;
        }
        let b = BitMatrix { rows, cols, bits };
        proof {
            assert((cols as int) * (rows as int) == (rows as int) * (cols as int))
                by (nonlinear_arith);
        }
        b
    }

    /// The number of cells.
    pub fn len(&self) -> (n: usize)
        ensures
            n == self@.bits.len(),
    {
        self.bits.len()
    }
}

/// Every reduced cell is bounded by the coefficient bound.
proof fn lemma_reduced_cell_bound(c: CoeffView, r: int, i: int)
    requires
        coeff_wf(c),
        r >= 1,
        0 <= i,
    ensures
        -COEFF_LIMIT <= reduced_cell(c, r, i) <= COEFF_LIMIT,
{
    let row = i % r;
    let col = i / r;
    vstd::arithmetic::div_mod::lemma_mod_division_less_than_divisor(i, r);
    vstd::arithmetic::div_mod::lemma_div_pos_is_pos(i, r);
    if row < c.dim && col < c.dim && !(row == 0 && col == 0) {
        assert(0 <= col * c.dim + row < c.dim * c.dim) by (nonlinear_arith)
            requires 0 <= row < c.dim, 0 <= col < c.dim;
    }
}

/// The running total of reduced cells is bounded by `j * COEFF_LIMIT`.
proof fn lemma_reduced_total_bound(c: CoeffView, r: int, j: nat)
    requires
        coeff_wf(c),
        r >= 1,
    ensures
        -(j as int) * COEFF_LIMIT <= reduced_total(c, r, j) <= (j as int) * COEFF_LIMIT,
    decreases j,
{
    if j > 0 {
        lemma_reduced_total_bound(c, r, (j - 1) as nat);
        lemma_reduced_cell_bound(c, r, j - 1);
        assert((j as int) * COEFF_LIMIT == (j - 1) * COEFF_LIMIT + COEFF_LIMIT)
            by (nonlinear_arith);
    }
}

/// Takes the top left corner of the passed DCT coefficients, excludes the
/// DC term, computes the average and converts each cell to a single bit,
/// set exactly when the cell is at least the average.
pub fn reduce_dct_coefficients(coefficients: Coefficients, dct_reduced_dimension: u32) -> (b:
    BitMatrix)
    requires
        coeff_wf(coefficients@),
        1 <= dct_reduced_dimension <= 64,
    ensures
        b@ == reduce_view(coefficients@, dct_reduced_dimension as int),
        bm_wf(b@),
        b@.rows == dct_reduced_dimension as int,
        b@.cols == dct_reduced_dimension as int,
{
    let ghost cv = coefficients@;
    let r: u32 = dct_reduced_dimension;
    let ghost ri = r as int;
    proof {
        assert(1 <= (r as int) * (r as int) <= 4096) by (nonlinear_arith)
            requires 1 <= r <= 64;
    }
    let rr: u32 = r * r;
    let dim: u32 = coefficients.dim();

    // Gather the reduced cells (column-major), zero-padded, DC excluded.
    let mut cells: Vec<i64> = Vec::new();
    let mut i: u32 = 0;
    while i < rr
        invariant
            i <= rr,
            rr == ri * ri,
            cells@.len() == i,
            forall|j: int| 0 <= j < i ==> #[trigger] cells@[j] as int == reduced_cell(cv, ri, j),
            forall|j: int|
                0 <= j < i ==> -COEFF_LIMIT <= #[trigger] cells@[j] as int <= COEFF_LIMIT,
        decreases rr - i,
    {
        let row: u32 = i % r;
        let col: u32 = i / r;
        let value: i64 = if row < dim && col < dim && !(row == 0 && col == 0) {
            coefficients.get(row, col)
        } else {
            0
        };
        proof {
            lemma_reduced_cell_bound(cv, ri, i as int);
            assert(value as int == reduced_cell(cv, ri, i as int));
        }
        cells.push(value);
        i = i + 1;
    }

    // The exact total of all reduced cells.
    let mut total: i64 = 0;
    let mut t: usize = 0;
    while t < cells.len()
        invariant
            t <= cells@.len(),
            cells@.len() == ri * ri,
            total == reduced_total(cv, ri, t as nat),
            -(t as int) * COEFF_LIMIT <= total <= (t as int) * COEFF_LIMIT,
            forall|j: int|
                0 <= j < cells@.len() ==> #[trigger] cells@[j] as int == reduced_cell(cv, ri, j),
            forall|j: int|
                0 <= j < cells@.len() ==> -COEFF_LIMIT <= #[trigger] cells@[j] as int
                    <= COEFF_LIMIT,
        decreases cells@.len() - t,
    {
        proof {
            assert((t + 1) * COEFF_LIMIT == (t as int) * COEFF_LIMIT + COEFF_LIMIT)
                by (nonlinear_arith);
            assert((t as int) * COEFF_LIMIT + COEFF_LIMIT <= 4096 * COEFF_LIMIT)
                by (nonlinear_arith)
                requires t < cells@.len(), cells@.len() == ri * ri, 1 <= ri <= 64, COEFF_LIMIT > 0;
        }
        total = total + cells[t];
        t = t + 1;
    }

    // Binarize against the mean: `cell >= total / r^2`, exactly.
    let rr64: i64 = rr as i64;
    let mut bits: Vec<u8> = Vec::new();
    let mut p: usize = 0;
    while p < cells.len()
        invariant
            p <= cells@.len(),
            cells@.len() == ri * ri,
            rr64 == ri * ri,
            total == reduced_total(cv, ri, (ri * ri) as nat),
            -(ri * ri) * COEFF_LIMIT <= total <= (ri * ri) * COEFF_LIMIT,
            bits@.len() == p,
            forall|j: int|
                0 <= j < cells@.len() ==> #[trigger] cells@[j] as int == reduced_cell(cv, ri, j),
            forall|j: int|
                0 <= j < cells@.len() ==> -COEFF_LIMIT <= #[trigger] cells@[j] as int
                    <= COEFF_LIMIT,
            forall|j: int|
                0 <= j < p ==> #[trigger] bits@[j] == reduce_view(cv, ri).bits[j],
        decreases cells@.len() - p,
    {
        proof {
            assert(cells@[p as int] as int == reduced_cell(cv, ri, p as int));
            assert(-COEFF_LIMIT <= cells@[p as int] as int <= COEFF_LIMIT);
            assert(-(4096 * COEFF_LIMIT) <= (cells@[p as int] as int) * rr64 <= 4096 * COEFF_LIMIT)
                by (nonlinear_arith)
                requires
                    -COEFF_LIMIT <= cells@[p as int] as int <= COEFF_LIMIT,
                    0 <= rr64 <= 4096,
                    COEFF_LIMIT > 0;
            assert(-(4096 * COEFF_LIMIT) <= total <= 4096 * COEFF_LIMIT) by (nonlinear_arith)
                requires
                    -(ri * ri) * COEFF_LIMIT <= total <= (ri * ri) * COEFF_LIMIT,
                    1 <= ri <= 64,
                    COEFF_LIMIT > 0;
        }
        let bit: u8 = if cells[p] * rr64 >= total {
            1
        } else {
            0
        };
        bits.push(bit);
        p = p + 1;
    }

    let b = BitMatrix { rows: r, cols: r, bits };
    proof {
        assert(b@.bits =~= reduce_view(cv, ri).bits);
        assert(b@ =~= reduce_view(cv, ri));
    }
    b
}

/// The number of set bits of a natural number.
pub open spec fn popcount(x: nat) -> nat
    decreases x,
{
    if x == 0 {
        0
    } else {
        popcount(x / 2) + x % 2
    }
}

/// Sum of the first `n` cells of a bit sequence.
pub open spec fn count_ones_upto(bits: Seq<u8>, n: nat) -> int
    decreases n,
{
    if n == 0 {
        0
    } else {
        count_ones_upto(bits, (n - 1) as nat) + bits[n - 1]
    }
}

/// The number of one-cells of a bit sequence.
pub open spec fn count_ones(bits: Seq<u8>) -> int {
    count_ones_upto(bits, bits.len())
}

/// The 64-bit word whose bit `i` is the `i`-th cell of the sequence (cell
/// values are zero or one; at most 64 cells).
pub open spec fn pack_rec(bits: Seq<u8>, n: nat) -> int
    decreases n,
{
    if n == 0 {
        0
    } else {
        pack_rec(bits, (n - 1) as nat) + bits[n - 1] * vstd::arithmetic::power2::pow2(
            (n - 1) as nat,
        )
    }
}

/// The packed hash of a full bit sequence.
pub open spec fn pack_bits(bits: Seq<u8>) -> u64 {
    pack_rec(bits, bits.len()) as u64
}

/// The Hamming distance of two 64-bit hashes.
pub open spec fn hamming_distance(a: u64, b: u64) -> int {
    popcount((a ^ b) as nat) as int
}

/// A packed prefix of `n` bits is below `2^n`.
pub proof fn lemma_pack_rec_bound(bits: Seq<u8>, n: nat)
    requires
        n <= bits.len(),
        forall|i: int| 0 <= i < bits.len() ==> #[trigger] bits[i] <= 1,
    ensures
        0 <= pack_rec(bits, n) < vstd::arithmetic::power2::pow2(n),
    decreases n,
{
    vstd::arithmetic::power2::lemma_pow2_pos(n);
    if n > 0 {
        lemma_pack_rec_bound(bits, (n - 1) as nat);
        vstd::arithmetic::power2::lemma_pow2_unfold(n);
        let p = vstd::arithmetic::power2::pow2((n - 1) as nat) as int;
        assert(bits[n - 1] * p <= p) by (nonlinear_arith)
            requires 0 <= bits[n - 1] <= 1, p > 0;
        assert(bits[n - 1] * p >= 0) by (nonlinear_arith)
            requires 0 <= bits[n - 1], p > 0;
    }
}

/// Adding a power of two above every set bit raises the popcount by one.
proof fn lemma_popcount_add_pow2(x: nat, j: nat)
    requires
        x < vstd::arithmetic::power2::pow2(j),
    ensures
        popcount((x + vstd::arithmetic::power2::pow2(j)) as nat) == popcount(x) + 1,
    decreases j,
{
    let p = vstd::arithmetic::power2::pow2(j);
    vstd::arithmetic::power2::lemma_pow2_pos(j);
    if j == 0 {
        assert(p == 1) by {
            vstd::arithmetic::power2::lemma2_to64();
        }
        assert(x == 0);
        assert(popcount(1nat) == popcount(0nat) + 1);
    } else {
        let h = vstd::arithmetic::power2::pow2((j - 1) as nat);
        vstd::arithmetic::power2::lemma_pow2_unfold(j);
        vstd::arithmetic::power2::lemma_pow2_pos((j - 1) as nat);
        let y = (x + p) as nat;
        assert(y == x + 2 * h);
        assert(y / 2 == x / 2 + h && y % 2 == x % 2) by (nonlinear_arith)
            requires y == x + 2 * h, x >= 0, h >= 1;
        assert(x / 2 < h) by (nonlinear_arith)
            requires x < 2 * h, h >= 1, x >= 0;
        lemma_popcount_add_pow2((x / 2) as nat, (j - 1) as nat);
        assert(y > 0);
        assert(popcount(y) == popcount(y / 2) + y % 2);
        if x == 0 {
            assert(popcount(y) == popcount(x) + 1);
        } else {
            assert(popcount(x) == popcount(x / 2) + x % 2);
        }
    }
}

/// A number below `2^n` has at most `n` set bits.
pub proof fn lemma_popcount_bound(x: nat, n: nat)
    requires
        x < vstd::arithmetic::power2::pow2(n),
    ensures
        popcount(x) <= n,
    decreases n,
{
    if n == 0 {
        assert(vstd::arithmetic::power2::pow2(0) == 1) by {
            vstd::arithmetic::power2::lemma2_to64();
        }
        assert(x == 0);
    } else if x > 0 {
        vstd::arithmetic::power2::lemma_pow2_unfold(n);
        let h = vstd::arithmetic::power2::pow2((n - 1) as nat);
        vstd::arithmetic::power2::lemma_pow2_pos((n - 1) as nat);
        assert(x / 2 < h) by (nonlinear_arith)
            requires x < 2 * h, h >= 1, x >= 0;
        lemma_popcount_bound((x / 2) as nat, (n - 1) as nat);
    }
}

/// A positive number has at least one set bit.
proof fn lemma_popcount_pos(x: nat)
    requires
        x >= 1,
    ensures
        popcount(x) >= 1,
    decreases x,
{
    if x >= 2 {
        lemma_popcount_pos(x / 2);
    }
}

/// The popcount of a packed bit sequence is exactly its number of
/// one-cells: each cell lands on its own bit of the word.
pub proof fn lemma_pack_popcount(bits: Seq<u8>)
    requires
        bits.len() <= 64,
        forall|i: int| 0 <= i < bits.len() ==> #[trigger] bits[i] <= 1,
    ensures
        popcount(pack_bits(bits) as nat) == count_ones(bits),
{
    lemma_pack_rec_bound(bits, bits.len());
    vstd::arithmetic::power2::lemma2_to64();
    vstd::arithmetic::power2::lemma2_to64_rest();
    lemma_pack_popcount_rec(bits, bits.len());
}

proof fn lemma_pack_popcount_rec(bits: Seq<u8>, n: nat)
    requires
        n <= bits.len(),
        bits.len() <= 64,
        forall|i: int| 0 <= i < bits.len() ==> #[trigger] bits[i] <= 1,
    ensures
        popcount(pack_rec(bits, n) as nat) == count_ones_upto(bits, n),
    decreases n,
{
    if n > 0 {
        lemma_pack_popcount_rec(bits, (n - 1) as nat);
        lemma_pack_rec_bound(bits, (n - 1) as nat);
        let x = pack_rec(bits, (n - 1) as nat);
        let p = vstd::arithmetic::power2::pow2((n - 1) as nat);
        if bits[n - 1] == 0 {
            assert(pack_rec(bits, n) == x + 0 * p);
            assert(0 * p == 0) by (nonlinear_arith);
        } else {
            assert(pack_rec(bits, n) == x + 1 * p);
            assert(1 * p == p) by (nonlinear_arith);
            lemma_popcount_add_pow2(x as nat, (n - 1) as nat);
        }
    }
}

/// Extracting cell `i` of a packed prefix arithmetically: dividing the
/// word by `2^i` and taking the parity recovers the cell.
proof fn lemma_pack_rec_extract(bits: Seq<u8>, i: nat, n: nat)
    requires
        i < n,
        n <= bits.len() <= 64,
        forall|j: int| 0 <= j < bits.len() ==> #[trigger] bits[j] <= 1,
    ensures
        pack_rec(bits, n) / (vstd::arithmetic::power2::pow2(i) as int) % 2 == bits[i as int],
    decreases n,
{
    let p = vstd::arithmetic::power2::pow2(i) as int;
    vstd::arithmetic::power2::lemma_pow2_pos(i);
    if n == i + 1 {
        let x = pack_rec(bits, i);
        let b = bits[i as int] as int;
        lemma_pack_rec_bound(bits, i);
        assert(pack_rec(bits, n) == x + b * p);
        vstd::arithmetic::div_mod::lemma_hoist_over_denominator(
            x,
            b,
            vstd::arithmetic::power2::pow2(i),
        );
        vstd::arithmetic::div_mod::lemma_basic_div(x, p);
        assert(pack_rec(bits, n) / p == b);
        vstd::arithmetic::div_mod::lemma_small_mod(bits[i as int] as nat, 2);
    } else {
        lemma_pack_rec_extract(bits, i, (n - 1) as nat);
        let v = pack_rec(bits, (n - 1) as nat);
        let b = bits[n - 1] as int;
        let e = (n - 1 - i) as nat;
        let pe = vstd::arithmetic::power2::pow2(e) as int;
        let ph = vstd::arithmetic::power2::pow2((e - 1) as nat) as int;
        vstd::arithmetic::power2::lemma_pow2_pos(e);
        vstd::arithmetic::power2::lemma_pow2_pos((e - 1) as nat);
        vstd::arithmetic::power2::lemma_pow2_unfold(e);
        vstd::arithmetic::power2::lemma_pow2_adds(i, e);
        assert(p * pe == vstd::arithmetic::power2::pow2((n - 1) as nat));
        assert(pack_rec(bits, n) == v + b * vstd::arithmetic::power2::pow2((n - 1) as nat));
        assert((b * pe) * p == b * (p * pe)) by (nonlinear_arith);
        vstd::arithmetic::div_mod::lemma_hoist_over_denominator(
            v,
            b * pe,
            vstd::arithmetic::power2::pow2(i),
        );
        assert(pack_rec(bits, n) / p == v / p + b * pe);
        let q = v / p;
        assert(b * pe == 2 * (b * ph)) by (nonlinear_arith)
            requires pe == 2 * ph;
        vstd::arithmetic::div_mod::lemma_mod_multiples_vanish(b * ph, q, 2);
        assert((q + b * pe) % 2 == q % 2) by {
            assert(q + b * pe == 2 * (b * ph) + q) by (nonlinear_arith)
                requires b * pe == 2 * (b * ph);
        }
    }
}

/// The pack order is the external format of a hash: bit `i` of the packed
/// word — in the literal bitwise sense — is exactly the `i`-th visited cell
/// of the bit matrix.
pub proof fn lemma_pack_bit(bits: Seq<u8>, i: nat)
    requires
        i < bits.len(),
        bits.len() <= 64,
        forall|j: int| 0 <= j < bits.len() ==> #[trigger] bits[j] <= 1,
    ensures
        (pack_bits(bits) >> (i as u64)) & 1 == bits[i as int] as u64,
{
    lemma_pack_rec_extract(bits, i, bits.len());
    lemma_pack_rec_bound(bits, bits.len());
    vstd::arithmetic::power2::lemma2_to64();
    vstd::arithmetic::power2::lemma2_to64_rest();
    let h = pack_bits(bits);
    assert(h == pack_rec(bits, bits.len())) by {
        if bits.len() < 64 {
            vstd::arithmetic::power2::lemma_pow2_strictly_increases(bits.len(), 64);
        }
    }
    let ii = i as u64;
    vstd::bits::lemma_u64_shr_is_div(h, ii);
    let q = (h >> ii) as int;
    assert(q == h as int / (vstd::arithmetic::power2::pow2(i) as int));
    assert(q % 2 == bits[i as int]);
    assert((h >> ii) & 1 == (h >> ii) % 2) by (bit_vector);
    assert((h >> ii) % 2 == q % 2);
}

/// Packing the all-zeros bit sequence yields zero.
pub proof fn lemma_pack_zeros(bits: Seq<u8>)
    requires
        bits.len() <= 64,
        forall|i: int| 0 <= i < bits.len() ==> #[trigger] bits[i] == 0,
    ensures
        pack_bits(bits) == 0,
{
    lemma_pack_zeros_rec(bits, bits.len());
}

proof fn lemma_pack_zeros_rec(bits: Seq<u8>, n: nat)
    requires
        n <= bits.len(),
        forall|i: int| 0 <= i < bits.len() ==> #[trigger] bits[i] == 0,
    ensures
        pack_rec(bits, n) == 0,
    decreases n,
{
    if n > 0 {
        lemma_pack_zeros_rec(bits, (n - 1) as nat);
        assert(0 * vstd::arithmetic::power2::pow2((n - 1) as nat) == 0) by (nonlinear_arith);
    }
}

/// Packing the all-ones bit sequence of `n` cells yields `2^n - 1`.
pub proof fn lemma_pack_ones(bits: Seq<u8>)
    requires
        bits.len() <= 64,
        forall|i: int| 0 <= i < bits.len() ==> #[trigger] bits[i] == 1,
    ensures
        pack_bits(bits) as int == vstd::arithmetic::power2::pow2(bits.len()) - 1,
{
    lemma_pack_ones_rec(bits, bits.len());
    vstd::arithmetic::power2::lemma2_to64();
    vstd::arithmetic::power2::lemma2_to64_rest();
}

proof fn lemma_pack_ones_rec(bits: Seq<u8>, n: nat)
    requires
        n <= bits.len(),
        forall|i: int| 0 <= i < bits.len() ==> #[trigger] bits[i] == 1,
    ensures
        pack_rec(bits, n) == vstd::arithmetic::power2::pow2(n) - 1,
    decreases n,
{
    vstd::arithmetic::power2::lemma_pow2_pos(n);
    if n == 0 {
        assert(vstd::arithmetic::power2::pow2(0) == 1) by {
            vstd::arithmetic::power2::lemma2_to64();
        }
    } else {
        lemma_pack_ones_rec(bits, (n - 1) as nat);
        vstd::arithmetic::power2::lemma_pow2_unfold(n);
        let p = vstd::arithmetic::power2::pow2((n - 1) as nat) as int;
        assert(1 * p == p) by (nonlinear_arith);
    }
}

/// Convert the passed bit matrix to a 64-bit hash: the `i`-th visited cell
/// in column-major order becomes bit `i`. Matrices with more than 64 cells
/// are not allowed and fail with `HashOversize`.
pub fn hash_coefficients(coefficients: &BitMatrix) -> (r: Result<u64, Error>)
    requires
        bm_wf(coefficients@),
    ensures
        r is Err <==> coefficients@.bits.len() > 64,
        r matches Err(e) ==> e == (Error {
            kind: ErrorKind::HashOversize,
            stage: None,
            side: None,
        }),
        r matches Ok(h) ==> h == pack_bits(coefficients@.bits),
        r matches Ok(h) ==> forall|i: int|
            0 <= i < coefficients@.bits.len() ==> (h >> (i as u64)) & 1 == (
            #[trigger] coefficients@.bits[i]) as u64,
{
    let ghost bits = coefficients@.bits;
    let n: usize = coefficients.bits.len();
    if n > 64 {
        return Err(Error { kind: ErrorKind::HashOversize, stage: None, side: None });
    }

    let mut hash: u64 = 0;
    let mut index: usize = 0;
    proof {
        vstd::arithmetic::power2::lemma2_to64();
    }
    while index < n
        invariant
            index <= n <= 64,
            n == bits.len(),
            bits == coefficients@.bits,
            hash == pack_rec(bits, index as nat),
            hash < vstd::arithmetic::power2::pow2(index as nat),
        decreases n - index,
    {
        let c: u8 = coefficients.bits[index];
        proof {
            lemma_pack_rec_bound(bits, index as nat);
            vstd::arithmetic::power2::lemma2_to64();
            vstd::arithmetic::power2::lemma2_to64_rest();
            vstd::arithmetic::power2::lemma_pow2_strictly_increases(index as nat, 64);
            assert(vstd::arithmetic::power2::pow2(index as nat) <= u64::MAX);
            assert(1u64 * vstd::arithmetic::power2::pow2(index as nat) == vstd::arithmetic::power2::pow2(
                index as nat,
            )) by (nonlinear_arith);
            assert((c as u64) * vstd::arithmetic::power2::pow2(index as nat) <= u64::MAX)
                by (nonlinear_arith)
                requires
                    c <= 1,
                    vstd::arithmetic::power2::pow2(index as nat) <= u64::MAX;
            vstd::bits::lemma_u64_shl_is_mul(1u64, index as u64);
            vstd::bits::lemma_u64_shl_is_mul(c as u64, index as u64);
            assert(hash | ((c as u64) << (index as u64)) == hash + ((c as u64) << (
            index as u64))) by (bit_vector)
                requires
                    hash < (1u64 << (index as u64)),
                    c <= 1,
                    index < 64,
            ;
            vstd::arithmetic::power2::lemma_pow2_unfold((index + 1) as nat);
            assert((c as int) * vstd::arithmetic::power2::pow2(index as nat) <= vstd::arithmetic::power2::pow2(
                index as nat,
            )) by (nonlinear_arith)
                requires c <= 1, vstd::arithmetic::power2::pow2(index as nat) >= 1;
        }
        hash = hash | ((c as u64) << (index as u64));
        index = index + 1;
    }
    proof {
        assert forall|i: int| 0 <= i < bits.len() implies (hash >> (i as u64)) & 1 == (
        #[trigger] bits[i]) as u64 by {
            lemma_pack_bit(bits, i as nat);
        }
    }
    Ok(hash)
}

/// Computes the Hamming distance between the passed 64-bit hashes: the
/// number of bit positions at which they differ. The distance of a hash to
/// itself is zero, and no distance exceeds 64.
pub fn compare_hashes(hash1: u64, hash2: u64) -> (d: u8)
    ensures
        d as int == hamming_distance(hash1, hash2),
        d <= 64,
        hash1 == hash2 ==> d == 0,
{
    let xor: u64 = hash1 ^ hash2;
    proof {
        vstd::arithmetic::power2::lemma2_to64_rest();
        lemma_popcount_bound(xor as nat, 64);
        if hash1 == hash2 {
            assert(hash1 ^ hash2 == 0) by (bit_vector)
                requires hash1 == hash2;
        }
    }
    let mut rest: u64 = xor;
    let mut count: u8 = 0;
    while rest != 0
        invariant
            count + popcount(rest as nat) == popcount(xor as nat),
            popcount(xor as nat) <= 64,
        decreases rest,
    {
        proof {
            lemma_popcount_pos(rest as nat);
        }
        count = count + (rest % 2) as u8;
        rest = rest / 2;
    }
    count
}

/// Compute `cos(pi * (2 * pos + 1) * freq / (2 * dim))` in Q30 fixed point.
fn cos_q30_exec(dim: u32, freq: u32, pos: u32) -> (c: i64)
    requires
        1 <= dim <= 64,
        freq < dim,
        pos < dim,
    ensures
        c == cos_q30(dim as int, freq as int, pos as int),
        -(ONE_Q30 as int) <= c <= ONE_Q30 as int,
{
    let d: u64 = 2 * (dim as u64);
    proof {
        assert(0 <= (2 * (pos as int) + 1) * (freq as int) <= 127 * 64) by (nonlinear_arith)
            requires 0 <= pos <= 63, 0 <= freq <= 64;
    }
    let a: u64 = (2 * (pos as u64) + 1) * (freq as u64);
    let r: u64 = a % (2 * d);
    let r1: u64 = if r > d {
        2 * d - r
    } else {
        r
    };
    let (s, negate): (u64, bool) = if 2 * r1 > d {
        (d - r1, true)
    } else {
        (r1, false)
    };
    proof {
        assert(d as int % 2 == 0 && d as int / 2 == dim as int) by (nonlinear_arith)
            requires d == 2 * (dim as int), 1 <= dim;
    }
    let q: u64 = cos_quarter_exec(d, s);
    proof {
        lemma_cos_quarter_range(dim as int, s as int);
    }
    if negate {
        -(q as i64)
    } else {
        q as i64
    }
}

/// The first-quadrant cosine kernel: `cos(pi * s / d)` in Q30 for
/// `0 <= 2 * s <= d`.
fn cos_quarter_exec(d: u64, s: u64) -> (c: u64)
    requires
        2 <= d <= 128,
        d % 2 == 0,
        2 * s <= d,
    ensures
        c == cos_quarter_q30(d as int / 2, s as int),
        c <= ONE_Q30,
{
    proof {
        assert(0 <= (PI_Q60 as int) * (s as int) <= (PI_Q60 as int) * 64) by (nonlinear_arith)
            requires 0 <= s <= 64;
    }
    let num: u128 = (PI_Q60 as u128) * (s as u128);
    let yq60: u128 = num / (d as u128);
    proof {
        vstd::arithmetic::div_mod::lemma_fundamental_div_mod(num as int, d as int);
        vstd::arithmetic::div_mod::lemma_mod_division_less_than_divisor(num as int, d as int);
        assert(2 * (yq60 as int) <= PI_Q60) by (nonlinear_arith)
            requires
                num == (PI_Q60 as int) * (s as int),
                num == (d as int) * (yq60 as int) + num as int % (d as int),
                0 <= num as int % (d as int),
                2 * s <= d,
                2 <= d,
                yq60 >= 0;
    }
    let y: u64 = (yq60 / (ONE_Q30 as u128)) as u64;
    proof {
        vstd::arithmetic::div_mod::lemma_div_is_ordered(
            yq60 as int,
            (PI_Q60 as int) / 2,
            ONE_Q30 as int,
        );
        assert(y <= 1686629713);
        assert((y as int) * (y as int) <= 1686629713int * 1686629713int) by (nonlinear_arith)
            requires 0 <= y <= 1686629713;
    }
    let ysq: u64 = y * y;
    let u: u64 = ysq / ONE_Q30;
    proof {
        vstd::arithmetic::div_mod::lemma_div_is_ordered(
            ysq as int,
            1686629713int * 1686629713int,
            ONE_Q30 as int,
        );
        assert(u <= 1686629713int * 1686629713int / (ONE_Q30 as int));
        assert(u < 0x1_0000_0000);
    }
    let ghost ui = u as int;
    let mut acc: u64 = ONE_Q30;
    let mut i: u32 = 8;
    while i >= 1
        invariant
            i <= 8,
            acc == taylor_step(ui, (8 - i) as nat),
            acc <= ONE_Q30,
        decreases i,
    {
        proof {
            assert(2 <= (2 * (i as int) - 1) * (2 * (i as int)) <= 240) by (nonlinear_arith)
                requires 1 <= i <= 8;
        }
        let divisor: u64 = (2 * i - 1) as u64 * (2 * i) as u64;
        let ghost prev_acc = acc as int;
        let ghost prod = (u as int) * (acc as int);
        proof {
            assert(0 <= prod <= 0x1_0000_0000int * 0x4000_0000int) by (nonlinear_arith)
                requires prod == (u as int) * (acc as int), 0 <= u < 0x1_0000_0000, 0 <= acc
                    <= 0x4000_0000;
            vstd::arithmetic::div_mod::lemma_div_nonincreasing(prod, divisor as int);
            vstd::arithmetic::div_mod::lemma_div_pos_is_pos(prod, divisor as int);
            vstd::arithmetic::div_mod::lemma_div_nonincreasing(
                prod / (divisor as int),
                ONE_Q30 as int,
            );
            vstd::arithmetic::div_mod::lemma_div_pos_is_pos(
                prod / (divisor as int),
                ONE_Q30 as int,
            );
        }
        let t: u64 = ((u as u128) * (acc as u128) / (divisor as u128) / (ONE_Q30 as u128)) as u64;
        proof {
            assert(t == prod / (divisor as int) / (ONE_Q30 as int));
        }
        acc = if t >= ONE_Q30 {
            0
        } else {
            ONE_Q30 - t
        };
        proof {
            let j = (9 - i) as nat;
            assert(prev_acc == taylor_step(ui, (j - 1) as nat));
            assert(divisor == (2 * (9 - j) - 1) * (2 * (9 - j)));
            assert(taylor_step(ui, j) == acc);
        }
        i = i - 1;
    }
    proof {
        assert(yq60 == PI_Q60 * (s as int) / (d as int));
        assert(y == PI_Q60 * (s as int) / (d as int) / (ONE_Q30 as int));
        assert(ui == (y as int) * (y as int) / (ONE_Q30 as int));
        assert(2 * ((d as int) / 2) == d as int);
    }
    acc
}

} // verus!
