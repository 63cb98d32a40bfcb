//! The leaf kernel: one output cell as the dot product of two rows.
use vstd::prelude::*;
use vstd::arithmetic::div_mod::lemma_add_mod_noop;
use crate::matrix::{Matrix, MatrixView};

verus! {

/// `2^32`: `u32` arithmetic wraps modulo this.
pub open spec fn modulus() -> int {
    0x1_0000_0000
}

/// `x` reduced into `u32`, as wrapping arithmetic does.
pub open spec fn wrap(x: int) -> u32 {
    (x % modulus()) as u32
}

/// Exact sum over `k < n` of `a(r, k) * bt(c, k)`: row `r` of `a` dotted with row `c` of `bt`.
pub open spec fn row_sum(a: MatrixView<u32>, r: int, bt: MatrixView<u32>, c: int, n: nat) -> int
    decreases n,
{
    if n == 0 {
        0
    } else {
        row_sum(a, r, bt, c, (n - 1) as nat) + a.at(r, n - 1) * bt.at(c, n - 1)
    }
}

/// Exact sum over `k < n` of `a(r, k) * b(k, c)`: row `r` of `a` times column `c` of `b`.
pub open spec fn col_sum(a: MatrixView<u32>, r: int, b: MatrixView<u32>, c: int, n: nat) -> int
    decreases n,
{
    if n == 0 {
        0
    } else {
        col_sum(a, r, b, c, (n - 1) as nat) + a.at(r, n - 1) * b.at(n - 1, c)
    }
}

/// Cell `(r, c)` of the product `a·b` in wrapping `u32` arithmetic.
pub open spec fn product_cell(a: MatrixView<u32>, b: MatrixView<u32>, r: int, c: int) -> u32 {
    wrap(col_sum(a, r, b, c, a.width))
}

/// Dotting with a row of the transpose is multiplying by a column of the original.
pub proof fn lemma_row_sum_transposed(
    a: MatrixView<u32>,
    r: int,
    b: MatrixView<u32>,
    bt: MatrixView<u32>,
    c: int,
    n: nat,
)
    requires
        bt.is_transpose_of(b),
        0 <= c < b.width,
        n <= b.height,
    ensures
        row_sum(a, r, bt, c, n) == col_sum(a, r, b, c, n),
    decreases n,
{
    if n > 0 {
        lemma_row_sum_transposed(a, r, b, bt, c, (n - 1) as nat);
        assert(b.contains(n - 1, c));
    }
}

/// Row `i` of `a` dotted with row `j` of `bt`, in wrapping `u32` arithmetic.
/// Splitting the sum across parallel lanes and reducing them at the end gives
/// the same value modulo `2^32`, so one wrapping accumulator serves for any width.
pub fn row_dot(a: &Matrix<u32>, i: usize, bt: &Matrix<u32>, j: usize) -> (r: u32)
    requires
        a@.wf(),
        bt@.wf(),
        i < a@.height,
        j < bt@.height,
        a@.width == bt@.width,
    ensures
        r == wrap(row_sum(a@, i as int, bt@, j as int, a@.width)),
{
    let a_row = a.row(i);
    let b_row = bt.row(j);
    let n = a.width();
    let mut sum: u32 = 0;
    let mut k: usize = 0;
    while k < n
        invariant
            n == a@.width,
            a_row@.len() == n,
            b_row@.len() == n,
            forall|m: int| 0 <= m < n ==> a_row@[m] == #[trigger] a@.at(i as int, m),
            forall|m: int| 0 <= m < n ==> b_row@[m] == #[trigger] bt@.at(j as int, m),
            k <= n,
            sum == wrap(row_sum(a@, i as int, bt@, j as int, k as nat)),
        decreases n - k,
    {
        let x = a_row[k];
        let y = b_row[k];
        let prod = x.wrapping_mul(y);
        proof {
            let s = row_sum(a@, i as int, bt@, j as int, k as nat);
            assert(0 <= x * y) by (nonlinear_arith)
                requires
                    0 <= x,
                    0 <= y,
            ;
            lemma_add_mod_noop(s, x * y, modulus());
            assert(row_sum(a@, i as int, bt@, j as int, (k + 1) as nat) == s + x * y);
        }
        sum = sum.wrapping_add(prod);
        k = k + 1;
    }
    sum
}

/// `m` is the identity: ones on the diagonal, zeros elsewhere.
pub open spec fn is_identity(m: MatrixView<u32>) -> bool {
    forall|r: int, c: int| m.contains(r, c) ==> #[trigger] m.at(r, c) == if r == c {
        1u32
    } else {
        0u32
    }
}

proof fn lemma_sum_right_identity(m: MatrixView<u32>, id: MatrixView<u32>, i: int, j: int, n: nat)
    requires
        is_identity(id),
        n <= id.height,
        0 <= j < id.width,
    ensures
        col_sum(m, i, id, j, n) == if j < n {
            m.at(i, j) as int
        } else {
            0
        },
    decreases n,
{
    if n > 0 {
        lemma_sum_right_identity(m, id, i, j, (n - 1) as nat);
        assert(id.contains(n - 1, j));
        let x = m.at(i, n - 1) as int;
        if n - 1 == j {
            assert(id.at(n - 1, j) == 1u32);
            assert(x * 1 == x);
        } else {
            assert(id.at(n - 1, j) == 0u32);
            assert(x * 0 == 0);
        }
    }
}

proof fn lemma_sum_left_identity(id: MatrixView<u32>, m: MatrixView<u32>, i: int, j: int, n: nat)
    requires
        is_identity(id),
        n <= id.width,
        0 <= i < id.height,
    ensures
        col_sum(id, i, m, j, n) == if i < n {
            m.at(i, j) as int
        } else {
            0
        },
    decreases n,
{
    if n > 0 {
        lemma_sum_left_identity(id, m, i, j, (n - 1) as nat);
        assert(id.contains(i, n - 1));
        let x = m.at(n - 1, j) as int;
        if n - 1 == i {
            assert(id.at(i, n - 1) == 1u32);
            assert(1 * x == x);
        } else {
            assert(id.at(i, n - 1) == 0u32);
            assert(0 * x == 0);
        }
    }
}

/// Multiplying a square matrix by the identity of its size, on either side,
/// gives back the matrix.
pub proof fn lemma_identity_product(m: MatrixView<u32>, id: MatrixView<u32>)
    requires
        m.width == m.height,
        id.width == m.width,
        id.height == m.height,
        is_identity(id),
    ensures
        forall|i: int, j: int|
            m.contains(i, j) ==> #[trigger] product_cell(m, id, i, j) == m.at(i, j),
        forall|i: int, j: int|
            m.contains(i, j) ==> #[trigger] product_cell(id, m, i, j) == m.at(i, j),
{
    assert forall|i: int, j: int| m.contains(i, j) implies #[trigger] product_cell(m, id, i, j)
        == m.at(i, j) by {
        lemma_sum_right_identity(m, id, i, j, m.width);
    }
    assert forall|i: int, j: int| m.contains(i, j) implies #[trigger] product_cell(id, m, i, j)
        == m.at(i, j) by {
        lemma_sum_left_identity(id, m, i, j, id.width);
    }
}

} // verus!
