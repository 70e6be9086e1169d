//! Perceptual image comparison.
//!
//! Two decoded raster images are each reduced to a 64-bit fingerprint built
//! from the low-frequency part of a two-dimensional discrete cosine transform
//! (DCT), and the images are judged equal when the Hamming distance between
//! the fingerprints is at most a configured threshold.
//!
//! The DCT is computed in fixed-point integer arithmetic (Q30 cosine values,
//! Q20 coefficients) so that every stage of the pipeline is deterministic and
//! fully specified.

#![verifier::loop_isolation(false)]

use vstd::prelude::*;

mod image;
mod image_processing;
mod dct;

pub use crate::image::Image;
pub use crate::image::ImageView;
pub use crate::image::from_bytes_view;
pub use crate::image::from_rgb_view;
pub use crate::image::from_rgba_view;
pub use crate::image::lemma_from_bytes_pixel_count;
pub use crate::image_processing::scale_image;
pub use crate::image_processing::into_grayscale;
pub use crate::image_processing::scale_view;
pub use crate::image_processing::gray_view;
pub use crate::image_processing::gray_pixel;
pub use crate::image_processing::average_pixel;
pub use crate::image_processing::footprint;
pub use crate::image_processing::foot_lo;
pub use crate::image_processing::foot_hi;
pub use crate::image_processing::channel_sum;
pub use crate::image_processing::byte_sum;
pub use crate::image_processing::lemma_scale_identity;
pub use crate::image_processing::lemma_grayscale_idempotent;
pub use crate::image_processing::lemma_footprint_edges;
pub use crate::dct::BasisCache;
pub use crate::dct::BasisView;
pub use crate::dct::BitMatrix;
pub use crate::dct::BitMatrixView;
pub use crate::dct::Coefficients;
pub use crate::dct::CoeffView;
pub use crate::dct::calc_dct_basis;
pub use crate::dct::calc_dct_coefficients;
pub use crate::dct::reduce_dct_coefficients;
pub use crate::dct::hash_coefficients;
pub use crate::dct::compare_hashes;
pub use crate::dct::basis_seq;
pub use crate::dct::basis_wf;
pub use crate::dct::basis_at;
pub use crate::dct::basis_index;
pub use crate::dct::cos_q30;
pub use crate::dct::cos_quarter_q30;
pub use crate::dct::taylor_step;
pub use crate::dct::alpha_q30;
pub use crate::dct::coeff_at;
pub use crate::dct::coeff_wf;
pub use crate::dct::cell_sum;
pub use crate::dct::proj_sum;
pub use crate::dct::project_view;
pub use crate::dct::reduce_view;
pub use crate::dct::reduced_cell;
pub use crate::dct::reduced_total;
pub use crate::dct::bm_wf;
pub use crate::dct::pack_bits;
pub use crate::dct::pack_rec;
pub use crate::dct::popcount;
pub use crate::dct::count_ones;
pub use crate::dct::count_ones_upto;
pub use crate::dct::hamming_distance;
pub use crate::dct::ONE_Q30;
pub use crate::dct::ONE_Q60;
pub use crate::dct::PI_Q60;
pub use crate::dct::INV_SQRT2_Q30;
pub use crate::dct::COEFF_SCALE;
pub use crate::dct::COEFF_LIMIT;
pub use crate::dct::lemma_pack_popcount;
pub use crate::dct::lemma_pack_bit;
pub use crate::dct::lemma_pack_zeros;
pub use crate::dct::lemma_pack_ones;
pub use crate::dct::lemma_popcount_bound;

verus! {

/// The error kinds the library reports.
#[derive(Clone, Copy, Debug, PartialEq, Eq)]
pub enum ErrorKind {
    /// Zero dimensions, an empty buffer, or an out-of-range configuration.
    InvalidInput,
    /// An attempt to pack a bit matrix with more than 64 cells.
    HashOversize,
}

/// The pipeline stage an error is reported from.
#[derive(Clone, Copy, Debug, PartialEq, Eq)]
pub enum Stage {
    ScaleImage,
    CalculateHash,
    FirstImage,
    SecondImage,
}

/// An error of the comparison pipeline: a kind, plus context naming the
/// failing stage and, at the top level, which image failed.
#[derive(Clone, Copy, Debug, PartialEq, Eq)]
pub struct Error {
    pub kind: ErrorKind,
    pub stage: Option<Stage>,
    pub side: Option<Stage>,
}

impl Error {
    /// A fresh `InvalidInput` error with no context.
    pub open spec fn invalid_input() -> Error {
        Error { kind: ErrorKind::InvalidInput, stage: None, side: None }
    }
}

/// Parameters of a comparison.
#[derive(Clone, Copy, Debug, PartialEq, Eq)]
pub struct Config {
    /// Dimension of the DCT square, usually 32 by 32.
    pub dct_dimension: u32,
    /// Dimension of the reduced DCT block: with 8 only the top-left 8 by 8
    /// corner of the coefficients is kept.
    pub dct_reduced_dimension: u32,
    /// Maximum Hamming distance between two hashes at which two images are
    /// still considered equal.
    pub allowed_distance: u8,
}

impl Default for Config {
    /// The defaults: a 32 by 32 DCT, an 8 by 8 reduced block, and exact
    /// hash equality.
    fn default() -> (c: Config)
        ensures
            c.dct_dimension == 32,
            c.dct_reduced_dimension == 8,
            c.allowed_distance == 0,
    {
        Config { dct_dimension: 32, dct_reduced_dimension: 8, allowed_distance: 0 }
    }
}

/// A configuration is valid when `1 <= R <= N <= 64`, the reduced block
/// fits the 64-bit hash (`R * R <= 64`) and the threshold is a possible
/// distance (`T <= 64`). The bound `N <= 64` keeps the basis cache and the
/// projection sums within machine limits.
pub open spec fn valid_config(c: Config) -> bool {
    &&& 1 <= c.dct_reduced_dimension
    &&& c.dct_reduced_dimension <= c.dct_dimension
    &&& c.dct_dimension <= 64
    &&& c.dct_reduced_dimension * c.dct_reduced_dimension <= 64
    &&& c.allowed_distance <= 64
}

/// The 64-bit perceptual hash of an image: scale to `n` by `n`, reduce to
/// grayscale, project onto the DCT basis, keep the top-left `rdim` by
/// `rdim` block, binarize against its mean, and pack column-major.
pub open spec fn image_hash(v: ImageView, n: int, rdim: int) -> u64 {
    let basis = BasisView { dim: n, values: basis_seq(n) };
    let coeffs = project_view(gray_view(scale_view(v, n, n)), basis);
    pack_bits(reduce_view(coeffs, rdim).bits)
}

/// Compare two images perceptually: the result is `Ok(true)` exactly when
/// the Hamming distance between their hashes is at most the configured
/// threshold. An invalid configuration fails with `InvalidInput`.
pub fn compare_images(left_image: &Image, right_image: &Image, config: Config) -> (r: Result<
    bool,
    Error,
>)
    requires
        left_image@.wf(),
        left_image@.height >= 1,
        right_image@.wf(),
        right_image@.height >= 1,
    ensures
        r is Ok <==> valid_config(config),
        !valid_config(config) ==> r == Err::<bool, Error>(Error::invalid_input()),
        valid_config(config) ==> r == Ok::<bool, Error>(hamming_distance(
            image_hash(left_image@, config.dct_dimension as int, config.dct_reduced_dimension as int),
            image_hash(right_image@, config.dct_dimension as int, config.dct_reduced_dimension as int),
        ) <= config.allowed_distance),
{
    let n = config.dct_dimension;
    let rdim = config.dct_reduced_dimension;
    if rdim < 1 || rdim > n || n > 64 || rdim > 8 || config.allowed_distance > 64 {
        proof {
            if 1 <= rdim <= n <= 64 && config.allowed_distance <= 64 {
                assert(rdim > 8);
                assert(rdim * rdim > 64) by (nonlinear_arith)
                    requires rdim > 8;
            }
        }
        return Err(Error { kind: ErrorKind::InvalidInput, stage: None, side: None });
    }
    proof {
        assert(rdim * rdim <= 64) by (nonlinear_arith)
            requires 1 <= rdim <= 8;
    }

    let dct_basis_signals = calc_dct_basis(n);
    let left_hash = match hash_image(left_image, &dct_basis_signals, rdim) {
        Ok(h) => h,
        Err(e) => {
            return Err(Error { kind: e.kind, stage: e.stage, side: Some(Stage::FirstImage) });
        },
    };
    let right_hash = match hash_image(right_image, &dct_basis_signals, rdim) {
        Ok(h) => h,
        Err(e) => {
            return Err(Error { kind: e.kind, stage: e.stage, side: Some(Stage::SecondImage) });
        },
    };

    let distance = compare_hashes(left_hash, right_hash);
    Ok(distance <= config.allowed_distance)
}

/// One image's pass through the pipeline: scale to the basis dimension,
/// reduce to grayscale, project, binarize, pack. The error context names
/// the failing stage.
fn hash_image(image: &Image, dct_basis: &BasisCache, dct_reduced_dimension: u32) -> (r: Result<
    u64,
    Error,
>)
    requires
        image@.wf(),
        image@.height >= 1,
        basis_wf(dct_basis@),
        dct_basis@.values == basis_seq(dct_basis@.dim),
        1 <= dct_reduced_dimension <= 64,
    ensures
        dct_basis@.dim >= 1 && dct_reduced_dimension * dct_reduced_dimension <= 64 ==> r == Ok::<
            u64,
            Error,
        >(image_hash(image@, dct_basis@.dim, dct_reduced_dimension as int)),
        dct_basis@.dim == 0 ==> r == Err::<u64, Error>(Error {
            kind: ErrorKind::InvalidInput,
            stage: Some(Stage::ScaleImage),
            side: None,
        }),
        dct_basis@.dim >= 1 && dct_reduced_dimension * dct_reduced_dimension > 64 ==> r == Err::<
            u64,
            Error,
        >(Error { kind: ErrorKind::HashOversize, stage: Some(Stage::CalculateHash), side: None }),
{
    // Scale down to the DCT size.
    let dct_dimension: u32 = dct_basis.dim();
    let shrank_image = match scale_image(image, dct_dimension, dct_dimension) {
        Ok(img) => img,
        Err(e) => {
            return Err(Error { kind: e.kind, stage: Some(Stage::ScaleImage), side: None });
        },
    };

    // Convert to grayscale.
    let shrank_grayscale_image = into_grayscale(shrank_image);

    // Compute the DCT coefficients and keep the reduced block.
    let dct_coefficients = calc_dct_coefficients(&shrank_grayscale_image, dct_basis);
    let dct_reduced_coefficients = reduce_dct_coefficients(
        dct_coefficients,
        dct_reduced_dimension,
    );

    // Create the hash.
    proof {
        assert(dct_reduced_coefficients@.bits.len() == (dct_reduced_dimension as int) * (
        dct_reduced_dimension as int));
    }
    match hash_coefficients(&dct_reduced_coefficients) {
        Ok(hash) => Ok(hash),
        Err(e) => Err(Error { kind: e.kind, stage: Some(Stage::CalculateHash), side: None }),
    }
}

/// Two structurally identical images hash identically, so they compare
/// equal under every valid configuration and any threshold.
pub proof fn lemma_identical_images_compare_equal(v: ImageView, config: Config)
    requires
        valid_config(config),
    ensures
        hamming_distance(
            image_hash(v, config.dct_dimension as int, config.dct_reduced_dimension as int),
            image_hash(v, config.dct_dimension as int, config.dct_reduced_dimension as int),
        ) == 0,
        hamming_distance(
            image_hash(v, config.dct_dimension as int, config.dct_reduced_dimension as int),
            image_hash(v, config.dct_dimension as int, config.dct_reduced_dimension as int),
        ) <= config.allowed_distance,
{
    let h = image_hash(v, config.dct_dimension as int, config.dct_reduced_dimension as int);
    assert(h ^ h == 0) by (bit_vector);
    assert(popcount(0nat) == 0);
}

} // verus!
