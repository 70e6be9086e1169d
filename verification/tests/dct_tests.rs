use imgcmp::BitMatrix;
use imgcmp::ErrorKind;
use imgcmp::Image;
use imgcmp::calc_dct_basis;
use imgcmp::calc_dct_coefficients;
use imgcmp::compare_hashes;
use imgcmp::hash_coefficients;

/// Q20 fixed-point coefficients divided by the coefficient scale give
/// real values.
const COEFF_UNIT: f64 = imgcmp::COEFF_SCALE as f64;

#[test]
fn calculate_dct_example() {
    let image = Image::from(
        &[
            144, 139, 149, 155, 153, 155, 155, 155,
            151, 151, 151, 159, 156, 156, 156, 158,
            151, 156, 160, 162, 159, 151, 151, 151,
            158, 163, 161, 160, 160, 160, 160, 161,
            158, 160, 161, 162, 160, 155, 155, 156,
            161, 161, 161, 161, 160, 157, 157, 157,
            162, 162, 161, 160, 161, 157, 157, 157,
            162, 162, 161, 160, 163, 157, 158, 154,
        ],
        8,
        1,
    )
    .unwrap();

    let coefficients = calc_dct_coefficients(&image, &calc_dct_basis(8));

    // Expected values listed column by column: entry `(k, l)` of the
    // coefficient matrix is `expected[l * 8 + k]`.
    let expected: [f64; 64] = [
        1257.9, 2.3, -9.7, -4.1, 3.9, 0.6, -2.1, 0.7,
        -21.0, -15.3, -4.3, -2.7, 2.3, 3.5, 2.1, -3.1,
        -11.2, -7.6, -0.9, 4.1, 2.0, 3.4, 1.4, 0.9,
        -4.9, -5.8, 1.8, 1.1, 1.6, 2.7, 2.8, -0.7,
        0.1, -3.8, 0.5, 1.3, -1.4, 0.7, 1.0, 0.9,
        0.9, -1.6, 0.9, -0.3, -1.8, -0.3, 1.4, 0.8,
        -4.4, 2.7, -4.4, -1.5, -0.1, 1.1, 0.4, 1.9,
        -6.4, 3.8, -5.0, -2.6, 1.6, 0.6, 0.1, 1.5,
    ];

    let mut are_same = true;
    for l in 0..8u32 {
        for k in 0..8u32 {
            let value = coefficients.get(k, l) as f64 / COEFF_UNIT;
            let difference = expected[(l * 8 + k) as usize] - value;
            are_same = are_same && difference.abs() < 0.1;
        }
    }
    assert!(are_same);
}

#[test]
fn calculate_hash_from_matrix() {
    let coefficients = BitMatrix::from_row_slice(
        3,
        3,
        &[
            0, 1, 0,
            1, 1, 1,
            1, 0, 0,
        ],
    );

    let hash = hash_coefficients(&coefficients).unwrap();

    assert_eq!(hash, 0b010011110);
}

#[test]
fn do_not_calculate_hash_when_matrix_dimension_is_greater_than_allowed() {
    let coefficients = BitMatrix::zeros(9, 9);

    let result = hash_coefficients(&coefficients);

    assert!(result.is_err());
    assert_eq!(result.unwrap_err().kind, ErrorKind::HashOversize);
}

#[test]
fn return_zero_when_comparing_equal_hashes() {
    let result = compare_hashes(0b1011100100, 0b1011100100);

    assert_eq!(result, 0);
}

#[test]
fn return_non_zero_when_comparing_different_hashes() {
    let result = compare_hashes(0b1101101100, 0b1011100100);

    assert_eq!(result, 3);
}

#[test]
fn compare_hashes_boundary_values() {
    assert_eq!(compare_hashes(0, 0), 0);
    assert_eq!(compare_hashes(u64::MAX, 0), 64);
    assert_eq!(compare_hashes(u64::MAX, u64::MAX), 0);
}

#[test]
fn pack_all_zeros_matrix() {
    let matrix = BitMatrix::zeros(8, 8);
    assert_eq!(hash_coefficients(&matrix).unwrap(), 0);
}

#[test]
fn pack_all_ones_matrix() {
    let ones = [1u8; 64];
    let matrix = BitMatrix::from_row_slice(8, 8, &ones);
    assert_eq!(hash_coefficients(&matrix).unwrap(), u64::MAX);

    let small_ones = [1u8; 9];
    let small = BitMatrix::from_row_slice(3, 3, &small_ones);
    assert_eq!(hash_coefficients(&small).unwrap(), (1u64 << 9) - 1);
}

#[test]
fn packed_hash_has_one_bit_per_set_cell() {
    // The matrix of `calculate_hash_from_matrix` holds five ones, so its
    // hash is at distance five from zero.
    let coefficients = BitMatrix::from_row_slice(
        3,
        3,
        &[
            0, 1, 0,
            1, 1, 1,
            1, 0, 0,
        ],
    );
    let hash = hash_coefficients(&coefficients).unwrap();
    assert_eq!(compare_hashes(hash, 0), 5);
}

#[test]
fn sixty_four_cells_are_still_allowed() {
    let values = [0u8; 64];
    let matrix = BitMatrix::from_row_slice(8, 8, &values);
    assert!(hash_coefficients(&matrix).is_ok());
}
