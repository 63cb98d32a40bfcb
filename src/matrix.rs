use vstd::prelude::*;
use vstd::arithmetic::div_mod::{lemma_fundamental_div_mod, lemma_multiply_divide_lt};

verus! {

/// Row-major index of `(row, col)` in a buffer with `width` columns.
pub open spec fn flat(width: int, row: int, col: int) -> int {
    width * row + col
}

/// A row of a `width`-column, `height`-row grid lies inside the buffer.
pub proof fn lemma_row_bound(width: int, height: int, row: int)
    requires
        0 <= row < height,
        0 <= width,
    ensures
        0 <= width * row,
        width * row + width <= width * height,
{
    assert(width * row + width <= width * height) by (nonlinear_arith)
        requires
            0 <= row < height,
            0 <= width,
    ;
    assert(0 <= width * row) by (nonlinear_arith)
        requires
            0 <= row,
            0 <= width,
    ;
}

/// A cell of a `width`-column, `height`-row grid has its flat index inside the buffer.
pub proof fn lemma_flat_bound(width: int, height: int, row: int, col: int)
    requires
        0 <= row < height,
        0 <= col < width,
    ensures
        0 <= flat(width, row, col) < width * height,
{
    lemma_row_bound(width, height, row);
}

/// Distinct cells of a grid have distinct flat indices.
pub proof fn lemma_flat_injective(width: int, r1: int, c1: int, r2: int, c2: int)
    requires
        0 <= c1 < width,
        0 <= c2 < width,
        flat(width, r1, c1) == flat(width, r2, c2),
    ensures
        r1 == r2,
        c1 == c2,
{
    if r1 < r2 {
        assert(width * r1 + width <= width * r2) by (nonlinear_arith)
            requires
                r1 < r2,
                0 < width,
        ;
    } else if r2 < r1 {
        assert(width * r2 + width <= width * r1) by (nonlinear_arith)
            requires
                r2 < r1,
                0 < width,
        ;
    }
}

/// A grid of `T` stored row-major in one buffer of exactly `width * height` elements
/// (see [`MatrixView::wf`]).
pub struct Matrix<T> {
    width: usize,
    height: usize,
    data: Vec<T>,
}

/// What a matrix holds: its sides and its cells in row-major order.
pub struct MatrixView<T> {
    pub width: nat,
    pub height: nat,
    pub cells: Seq<T>,
}

/// Why a matrix or a product could not be built.
#[derive(Debug, Clone, Copy, PartialEq, Eq, Structural)]
pub enum MatrixError {
    /// The buffer does not hold exactly `width * height` elements.
    DataLengthMismatch,
    /// The two factors of a product have different widths.
    WidthMismatch,
    /// A side of a factor differs from `2^level`.
    DimensionMismatch,
}

impl<T> MatrixView<T> {
    /// The buffer holds exactly one element per cell.
    pub open spec fn wf(&self) -> bool {
        &&& self.cells.len() == self.width * self.height
        &&& self.width * self.height <= usize::MAX
    }

    /// `(row, col)` lies inside the grid.
    pub open spec fn contains(&self, row: int, col: int) -> bool {
        0 <= row < self.height && 0 <= col < self.width
    }

    /// The element in row `row`, column `col`.
    pub open spec fn at(&self, row: int, col: int) -> T {
        self.cells[flat(self.width as int, row, col)]
    }

    /// `self` holds the transpose of `other`.
    pub open spec fn is_transpose_of(&self, other: MatrixView<T>) -> bool {
        &&& self.width == other.height
        &&& self.height == other.width
        &&& forall|r: int, c: int|
            other.contains(r, c) ==> #[trigger] self.at(c, r) == other.at(r, c)
    }
}

impl<T> View for Matrix<T> {
    type V = MatrixView<T>;

    closed spec fn view(&self) -> MatrixView<T> {
        MatrixView { width: self.width as nat, height: self.height as nat, cells: self.data@ }
    }
}

impl<T> Matrix<T> {
    /// Number of columns.
    pub fn width(&self) -> (r: usize)
        ensures
            r == self@.width,
    {
        self.width
    }

    /// Number of rows.
    pub fn height(&self) -> (r: usize)
        ensures
            r == self@.height,
    {
        self.height
    }

    /// Builds a `width`-column, `height`-row matrix over `data`, which must hold
    /// exactly `width * height` elements.
    pub fn new(width: usize, height: usize, data: Vec<T>) -> (r: Result<Self, MatrixError>)
        ensures
            data@.len() == width * height <==> r is Ok,
            r is Err ==> r == Err::<Self, MatrixError>(MatrixError::DataLengthMismatch),
            r matches Ok(m) ==> m@ == (MatrixView { width: width as nat, height: height as nat, cells: data@ }),
    {
        let len = data.len();
        match width.checked_mul(height) {
            Some(n) if n == len => Ok(Matrix { width, height, data }),
            _ => Err(MatrixError::DataLengthMismatch),
        }
    }

    /// The element in row `row`, column `col`.
    pub fn index(&self, row: usize, col: usize) -> (r: &T)
        requires
            self@.wf(),
            self@.contains(row as int, col as int),
        ensures
            *r == self@.at(row as int, col as int),
    {
        proof {
            lemma_flat_bound(self.width as int, self.height as int, row as int, col as int);
        }
        let _len = self.data.len();
        &self.data[self.width * row + col]
    }

    /// Row `row` as a contiguous slice of `width` elements.
    pub fn row(&self, row: usize) -> (r: &[T])
        requires
            self@.wf(),
            row < self@.height,
        ensures
            r@.len() == self@.width,
            forall|k: int| 0 <= k < self@.width ==> r@[k] == #[trigger] self@.at(row as int, k),
    {
        proof {
            lemma_row_bound(self.width as int, self.height as int, row as int);
        }
        let _len = self.data.len();
        let start = self.width * row;
        vstd::slice::slice_subrange(self.data.as_slice(), start, start + self.width)
    }

    /// Overwrites the element in row `row`, column `col` with `value`.
    pub fn set(&mut self, row: usize, col: usize, value: T)
        requires
            old(self)@.wf(),
            old(self)@.contains(row as int, col as int),
        ensures
            final(self)@.wf(),
            final(self)@.width == old(self)@.width,
            final(self)@.height == old(self)@.height,
            final(self)@.at(row as int, col as int) == value,
            forall|r: int, c: int|
                old(self)@.contains(r, c) && (r != row || c != col) ==> #[trigger] final(self)@.at(
                    r,
                    c,
                ) == old(self)@.at(r, c),
    {
        proof {
            lemma_flat_bound(self.width as int, self.height as int, row as int, col as int);
        }
        let _len = self.data.len();
        let k = self.width * row + col;
        self.data.set(k, value);
        proof {
            assert forall|r: int, c: int|
                old(self)@.contains(r, c) && (r != row || c != col) implies #[trigger] self@.at(
                r,
                c,
            ) == old(self)@.at(r, c) by {
                lemma_flat_bound(self.width as int, self.height as int, r, c);
                if flat(self.width as int, r, c) == k {
                    lemma_flat_injective(self.width as int, r, c, row as int, col as int);
                }
            }
        }
    }
}

impl<T: Copy> Matrix<T> {
    /// Replaces the matrix by its transpose: `width` and `height` trade places
    /// and the element at `(r, c)` moves to `(c, r)`.
    pub fn transpose(&mut self)
        requires
            old(self)@.wf(),
        ensures
            final(self)@.wf(),
            final(self)@.is_transpose_of(old(self)@),
    {
        let w = self.width;
        let h = self.height;
        let ghost src = self@;
        let mut out: Vec<T> = Vec::new();
        let mut c: usize = 0;
        while c < w
            invariant
                self@ == src,
                src.wf(),
                w == src.width,
                h == src.height,
                c <= w,
                out@.len() == h * c,
                forall|c2: int, r2: int|
                    0 <= c2 < c && 0 <= r2 < h ==> #[trigger] out@[flat(h as int, c2, r2)]
                        == src.at(r2, c2),
            decreases w - c,
        {
            let mut r: usize = 0;
            while r < h
                invariant
                    self@ == src,
                    src.wf(),
                    w == src.width,
                    h == src.height,
                    c < w,
                    r <= h,
                    out@.len() == h * c + r,
                    forall|c2: int, r2: int|
                        0 <= c2 < c && 0 <= r2 < h ==> #[trigger] out@[flat(h as int, c2, r2)]
                            == src.at(r2, c2),
                    forall|r2: int|
                        0 <= r2 < r ==> #[trigger] out@[flat(h as int, c as int, r2)] == src.at(
                            r2,
                            c as int,
                        ),
                decreases h - r,
            {
                let x = *self.index(r, c);
                let ghost before = out@;
                out.push(x);
                proof {
                    assert forall|c2: int, r2: int|
                        0 <= c2 < c && 0 <= r2 < h implies #[trigger] out@[flat(
                        h as int,
                        c2,
                        r2,
                    )] == src.at(r2, c2) by {
                        lemma_flat_bound(h as int, c as int, c2, r2);
                        assert(out@[flat(h as int, c2, r2)] == before[flat(h as int, c2, r2)]);
                    }
                }
                r = r + 1;
            }
            proof {
                assert(h * c + h == h * (c + 1)) by (nonlinear_arith);
            }
            c = c + 1;
        }
        proof {
            assert(h * w == w * h) by (nonlinear_arith);
        }
        self.data = out;
        self.width = h;
        self.height = w;
    }
}

impl Matrix<u32> {
    /// A `width`-column, `height`-row matrix whose cells all hold 0, to be
    /// overwritten by its producer.
    pub fn new_uninit(width: usize, height: usize) -> (r: Self)
        requires
            width * height <= usize::MAX,
        ensures
            r@.wf(),
            r@.width == width,
            r@.height == height,
            forall|row: int, col: int| r@.contains(row, col) ==> #[trigger] r@.at(row, col) == 0,
    {
        let n = width * height;
        let data: Vec<u32> = vec![0u32; n];
        let r = Matrix { width, height, data };
        proof {
            assert forall|row: int, col: int| r@.contains(row, col) implies #[trigger] r@.at(
                row,
                col,
            ) == 0 by {
                lemma_flat_bound(width as int, height as int, row, col);
            }
        }
        r
    }
}

/// Transposing twice gives back the same matrix: the same sides and the same cells.
pub proof fn lemma_transpose_involution<T>(m: MatrixView<T>, t: MatrixView<T>, tt: MatrixView<T>)
    requires
        m.wf(),
        t.wf(),
        tt.wf(),
        t.is_transpose_of(m),
        tt.is_transpose_of(t),
    ensures
        tt == m,
{
    let w = m.width as int;
    let h = m.height as int;
    assert(tt.cells.len() == m.cells.len()) by (nonlinear_arith)
        requires
            tt.cells.len() == tt.width * tt.height,
            m.cells.len() == m.width * m.height,
            tt.width == m.width,
            tt.height == m.height,
    ;
    assert forall|k: int| 0 <= k < m.cells.len() implies tt.cells[k] == m.cells[k] by {
        let r = k / w;
        let c = k % w;
        assert(w > 0) by (nonlinear_arith)
            requires
                0 <= k < w * h,
                0 <= w,
        ;
        lemma_fundamental_div_mod(k, w);
        lemma_multiply_divide_lt(k, w, h);
        assert(0 <= r) by (nonlinear_arith)
            requires
                0 <= k,
                0 < w,
                r == k / w,
        ;
        assert(tt.at(r, c) == t.at(c, r));
    }
    assert(tt.cells =~= m.cells);
}

} // verus!
