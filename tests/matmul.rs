use hilbert_matmul::kernel::row_dot;
use hilbert_matmul::matrix::{Matrix, MatrixError};
use hilbert_matmul::multiply::matmul;
use hilbert_matmul::traversal::{lindenmayer_a, lindenmayer_b};

fn filled(side: usize, v: u32) -> Matrix<u32> {
    Matrix::new(side, side, vec![v; side * side]).unwrap()
}

fn pseudo_random(side: usize, seed: u32) -> Matrix<u32> {
    let mut x = seed;
    let mut data = Vec::new();
    for _ in 0..side * side {
        x = x.wrapping_mul(1_664_525).wrapping_add(1_013_904_223);
        data.push(x);
    }
    Matrix::new(side, side, data).unwrap()
}

fn cells(m: &Matrix<u32>) -> Vec<u32> {
    let mut out = Vec::new();
    for r in 0..m.height() {
        for c in 0..m.width() {
            out.push(*m.index(r, c));
        }
    }
    out
}

fn naive_product(a: &Matrix<u32>, b: &Matrix<u32>) -> Vec<u32> {
    let n = a.width();
    let mut out = Vec::new();
    for i in 0..a.height() {
        for j in 0..b.width() {
            let mut sum = 0u32;
            for k in 0..n {
                sum = sum.wrapping_add(a.index(i, k).wrapping_mul(*b.index(k, j)));
            }
            out.push(sum);
        }
    }
    out
}

fn identity(side: usize) -> Matrix<u32> {
    let mut data = vec![0u32; side * side];
    for k in 0..side {
        data[k * side + k] = 1;
    }
    Matrix::new(side, side, data).unwrap()
}

#[test]
fn all_ones_two_by_two() {
    let a = filled(2, 1);
    let mut b = filled(2, 1);
    let c = matmul(&a, &mut b, 1).unwrap();
    assert_eq!(c.width(), 2);
    assert_eq!(c.height(), 2);
    assert_eq!(cells(&c), vec![2, 2, 2, 2]);
}

#[test]
fn all_ones_four_by_four() {
    let a = filled(4, 1);
    let mut b = filled(4, 1);
    let c = matmul(&a, &mut b, 2).unwrap();
    assert_eq!(c.width(), 4);
    assert_eq!(cells(&c), vec![4u32; 16]);
}

#[test]
fn every_cell_is_written_up_to_level_six() {
    for level in 0u8..=6 {
        let side = 1usize << level;
        let a = filled(side, 1);
        let mut b = filled(side, 1);
        let c = matmul(&a, &mut b, level).unwrap();
        assert_eq!(cells(&c), vec![side as u32; side * side]);
    }
}

#[test]
fn matches_naive_product() {
    for (level, side) in [(0u8, 1usize), (1, 2), (2, 4), (4, 16), (5, 32)] {
        let a = pseudo_random(side, 7 + level as u32);
        let b0 = pseudo_random(side, 1000 + level as u32);
        let expected = naive_product(&a, &b0);
        let mut b = pseudo_random(side, 1000 + level as u32);
        let c = matmul(&a, &mut b, level).unwrap();
        assert_eq!(cells(&c), expected);
    }
}

#[test]
fn small_known_product() {
    let a = Matrix::new(2, 2, vec![1u32, 2, 3, 4]).unwrap();
    let mut b = Matrix::new(2, 2, vec![5u32, 6, 7, 8]).unwrap();
    let c = matmul(&a, &mut b, 1).unwrap();
    assert_eq!(cells(&c), vec![19, 22, 43, 50]);
    assert_eq!(cells(&b), vec![5, 7, 6, 8]);
}

#[test]
fn product_wraps_around() {
    let a = filled(2, 0xFFFF_FFFF);
    let mut b = filled(2, 2);
    let c = matmul(&a, &mut b, 1).unwrap();
    assert_eq!(cells(&c), vec![0xFFFF_FFFC; 4]);
}

#[test]
fn identity_leaves_matrix_unchanged() {
    for (level, side) in [(0u8, 1usize), (2, 4), (3, 8)] {
        let m = pseudo_random(side, 42);
        let mut id = identity(side);
        let c = matmul(&m, &mut id, level).unwrap();
        assert_eq!(c.width(), side);
        assert_eq!(c.height(), side);
        assert_eq!(cells(&c), cells(&m));

        let id = identity(side);
        let mut m2 = pseudo_random(side, 42);
        let c = matmul(&id, &mut m2, level).unwrap();
        assert_eq!(cells(&c), cells(&m));
    }
}

#[test]
fn width_mismatch_is_rejected() {
    let a = filled(2, 1);
    let mut b = Matrix::new(4, 2, vec![1u32; 8]).unwrap();
    assert_eq!(matmul(&a, &mut b, 1).err(), Some(MatrixError::WidthMismatch));
    assert_eq!(b.width(), 4);
    assert_eq!(b.height(), 2);
}

#[test]
fn side_other_than_power_of_level_is_rejected() {
    let a = filled(4, 1);
    let mut b = filled(4, 1);
    assert_eq!(matmul(&a, &mut b, 1).err(), Some(MatrixError::DimensionMismatch));
    assert_eq!(matmul(&a, &mut b, 3).err(), Some(MatrixError::DimensionMismatch));
    assert_eq!(matmul(&a, &mut b, 200).err(), Some(MatrixError::DimensionMismatch));

    let a = Matrix::new(2, 4, vec![1u32; 8]).unwrap();
    let mut b = filled(2, 1);
    assert_eq!(matmul(&a, &mut b, 1).err(), Some(MatrixError::DimensionMismatch));

    let a = Matrix::new(3, 3, vec![1u32; 9]).unwrap();
    let mut b = Matrix::new(3, 3, vec![1u32; 9]).unwrap();
    assert_eq!(matmul(&a, &mut b, 1).err(), Some(MatrixError::DimensionMismatch));
    assert_eq!(cells(&b), vec![1u32; 9]);
}

#[test]
fn data_of_wrong_length_is_rejected() {
    let r = Matrix::new(2, 3, vec![0u32; 5]);
    assert_eq!(r.err(), Some(MatrixError::DataLengthMismatch));
    let r = Matrix::new(usize::MAX, 2, vec![0u32; 2]);
    assert_eq!(r.err(), Some(MatrixError::DataLengthMismatch));
}

#[test]
fn transpose_swaps_sides_and_cells() {
    let mut m = Matrix::new(3, 2, vec![1u32, 2, 3, 4, 5, 6]).unwrap();
    m.transpose();
    assert_eq!(m.width(), 2);
    assert_eq!(m.height(), 3);
    assert_eq!(cells(&m), vec![1, 4, 2, 5, 3, 6]);
    assert_eq!(*m.index(2, 1), 6);
}

#[test]
fn transpose_twice_is_identity() {
    let original = vec![9u32, 8, 7, 6, 5, 4, 3, 2];
    let mut m = Matrix::new(4, 2, original.clone()).unwrap();
    m.transpose();
    m.transpose();
    assert_eq!(m.width(), 4);
    assert_eq!(m.height(), 2);
    assert_eq!(cells(&m), original);
}

#[test]
fn row_is_contiguous() {
    let m = Matrix::new(3, 2, vec![1u32, 2, 3, 4, 5, 6]).unwrap();
    assert_eq!(m.row(1), &[4, 5, 6]);
    assert_eq!(m.row(0), &[1, 2, 3]);
}

#[test]
fn set_overwrites_one_cell() {
    let mut m = Matrix::new_uninit(2, 2);
    assert_eq!(cells(&m), vec![0, 0, 0, 0]);
    m.set(1, 0, 7);
    assert_eq!(cells(&m), vec![0, 0, 7, 0]);
}

#[test]
fn row_dot_multiplies_rows() {
    let a = Matrix::new(3, 2, vec![1u32, 2, 3, 4, 5, 6]).unwrap();
    let bt = Matrix::new(3, 1, vec![7u32, 8, 9]).unwrap();
    assert_eq!(row_dot(&a, 0, &bt, 0), 7 + 16 + 27);
    assert_eq!(row_dot(&a, 1, &bt, 0), 28 + 40 + 54);
}

#[test]
fn traversal_ends_at_far_corner() {
    for level in 0u8..=4 {
        let side = 1usize << level;
        let a = filled(side, 1);
        let bt = filled(side, 1);
        let mut c = Matrix::new_uninit(side, side);
        let (mut i, mut j, mut d) = (0isize, 0isize, 3isize);
        lindenmayer_a(level, &mut i, &mut j, &mut d, &a, &bt, &mut c);
        assert_eq!((i, j, d), (side as isize - 1, 0, 3));
        assert_eq!(cells(&c), vec![side as u32; side * side]);
    }
}

#[test]
fn second_symbol_covers_its_square() {
    let a = filled(4, 1);
    let bt = filled(4, 1);
    let mut c = Matrix::new_uninit(4, 4);
    let (mut i, mut j, mut d) = (0isize, 0isize, 2isize);
    lindenmayer_b(2, &mut i, &mut j, &mut d, &a, &bt, &mut c);
    assert_eq!((i, j, d), (0, 3, 2));
    assert_eq!(cells(&c), vec![4u32; 16]);
}
