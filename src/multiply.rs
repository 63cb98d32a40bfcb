//! The product: checks the factors, transposes the right one and runs the traversal.
use vstd::prelude::*;
use crate::curve::{Symbol, grid_side, lemma_traversal_covers_grid, side, start, walk};
use crate::kernel::{lemma_row_sum_transposed, product_cell};
use crate::matrix::{Matrix, MatrixError};
use crate::traversal::{cursor, lindenmayer_a};

verus! {

/// The product `a·b` of two `2^level`-sided square matrices in wrapping `u32`
/// arithmetic, filled in the order of the space-filling curve. `b` is
/// transposed in place on the way. Fails, leaving `b` as it was, with
/// `WidthMismatch` where the widths differ and with `DimensionMismatch` where a
/// side of either factor is not `2^level`.
pub fn matmul(a: &Matrix<u32>, b: &mut Matrix<u32>, half_log_grid_size: u8) -> (r: Result<
    Matrix<u32>,
    MatrixError,
>)
    requires
        a@.wf(),
        old(b)@.wf(),
    ensures
        r is Ok <==> (a@.width == old(b)@.width && a@.width == side(half_log_grid_size as nat)
            && a@.height == side(half_log_grid_size as nat) && old(b)@.height == side(
            half_log_grid_size as nat,
        )),
        a@.width != old(b)@.width ==> r == Err::<Matrix<u32>, MatrixError>(
            MatrixError::WidthMismatch,
        ),
        a@.width == old(b)@.width && r is Err ==> r == Err::<Matrix<u32>, MatrixError>(
            MatrixError::DimensionMismatch,
        ),
        r is Err ==> final(b)@ == old(b)@,
        r matches Ok(c) ==> {
            &&& final(b)@.wf()
            &&& final(b)@.is_transpose_of(old(b)@)
            &&& c@.wf()
            &&& c@.width == a@.width
            &&& c@.height == a@.height
            &&& forall|i: int, j: int|
                c@.contains(i, j) ==> #[trigger] c@.at(i, j) == product_cell(a@, old(b)@, i, j)
        },
{
    if a.width() != b.width() {
        return Err(MatrixError::WidthMismatch);
    }
    let n = match grid_side(half_log_grid_size) {
        Some(n) => n,
        None => {
            return Err(MatrixError::DimensionMismatch);
        },
    };
    if a.width() != n || a.height() != n || b.height() != n {
        return Err(MatrixError::DimensionMismatch);
    }
    let ghost b_in = b@;
    b.transpose();
    proof {
        assert(n <= isize::MAX) by (nonlinear_arith)
            requires
                n * n <= usize::MAX,
        ;
    }
    let mut c = Matrix::new_uninit(b.width(), a.height());
    let ghost c_in = c@;
    let ghost l = half_log_grid_size as nat;
    proof {
        lemma_traversal_covers_grid(l);
        let v = walk(Symbol::A, l, start());
        assert forall|k: int| 0 <= k < v.0.len() implies c_in.contains(
            #[trigger] v.0[k].0,
            v.0[k].1,
        ) by {
            assert(v.0.contains((v.0[k].0, v.0[k].1)));
        }
        assert(cursor(0, 0, 3) == start());
    }
    let mut i: isize = 0;
    let mut j: isize = 0;
    let mut d: isize = 3;
    lindenmayer_a(half_log_grid_size, &mut i, &mut j, &mut d, a, b, &mut c);
    proof {
        assert forall|r: int, col: int| c@.contains(r, col) implies #[trigger] c@.at(r, col)
            == product_cell(a@, b_in, r, col) by {
            assert(walk(Symbol::A, l, start()).0.contains((r, col)));
            lemma_row_sum_transposed(a@, r, b_in, b@, col, a@.width);
        }
    }
    Ok(c)
}

} // verus!
