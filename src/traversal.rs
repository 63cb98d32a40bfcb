//! The traversal: each symbol of the curve's grammar as a recursive procedure
//! that fills the product cells in curve order.
use vstd::prelude::*;
use crate::curve::{
    Cursor, Symbol, advance, grid_side, hilbert, inner_turn, lemma_concat4_index,
    lemma_hilbert_basic, lemma_side_below_31, lemma_traversal_covers_grid, lemma_walk_shape, mirror,
    outer_turn, place, side, start, turn, walk,
};
use crate::kernel::{row_dot, row_sum, wrap};
use crate::matrix::{Matrix, MatrixView};

verus! {

/// The cursor held in three machine integers.
pub open spec fn cursor(i: isize, j: isize, d: isize) -> Cursor {
    Cursor { i: i as int, j: j as int, d: d as int }
}

/// Every cell of `v` lies inside the grid of `m`.
pub open spec fn fits(v: Seq<(int, int)>, m: MatrixView<u32>) -> bool {
    forall|k: int| 0 <= k < v.len() ==> m.contains(#[trigger] v[k].0, v[k].1)
}

/// `x` occurs in four joined sequences when it occurs in one of them.
proof fn lemma_contains4<A>(a: Seq<A>, b: Seq<A>, c: Seq<A>, d: Seq<A>, x: A)
    requires
        b.len() == a.len(),
        c.len() == a.len(),
        d.len() == a.len(),
    ensures
        (a + b + c + d).contains(x) <==> (a.contains(x) || b.contains(x) || c.contains(x)
            || d.contains(x)),
{
    let s = a + b + c + d;
    let q = a.len() as int;
    if s.contains(x) {
        let k = choose|k: int| 0 <= k < s.len() && s[k] == x;
        lemma_concat4_index(a, b, c, d, k);
        if k < q {
            assert(a[k] == x);
        } else if k < 2 * q {
            assert(b[k - q] == x);
        } else if k < 3 * q {
            assert(c[k - 2 * q] == x);
        } else {
            assert(d[k - 3 * q] == x);
        }
    }
    if a.contains(x) {
        let k = choose|k: int| 0 <= k < a.len() && a[k] == x;
        lemma_concat4_index(a, b, c, d, k);
    }
    if b.contains(x) {
        let k = choose|k: int| 0 <= k < b.len() && b[k] == x;
        lemma_concat4_index(a, b, c, d, q + k);
    }
    if c.contains(x) {
        let k = choose|k: int| 0 <= k < c.len() && c[k] == x;
        lemma_concat4_index(a, b, c, d, 2 * q + k);
    }
    if d.contains(x) {
        let k = choose|k: int| 0 <= k < d.len() && d[k] == x;
        lemma_concat4_index(a, b, c, d, 3 * q + k);
    }
}

/// A level-0 walk visits the cursor's cell and leaves the cursor as it was.
proof fn lemma_walk_base(s: Symbol, c: Cursor)
    ensures
        walk(s, 0, c).0 == seq![(c.i, c.j)],
        walk(s, 0, c).1 == c,
{
    reveal(walk);
}

/// A walk above level 0 splits into four sub-walks of one length, which fit
/// wherever the walk fits; each starts at its cursor's cell.
proof fn lemma_parts_fit(s: Symbol, l: nat, c: Cursor, m: MatrixView<u32>)
    requires
        l > 0,
        0 <= c.d < 4,
        fits(walk(s, l, c).0, m),
    ensures
        ({
            let w1 = walk(mirror(s), (l - 1) as nat, turn(c, outer_turn(s)));
            let c1 = turn(advance(w1.1), inner_turn(s));
            let w2 = walk(s, (l - 1) as nat, c1);
            let c2 = advance(w2.1);
            let w3 = walk(s, (l - 1) as nat, c2);
            let c3 = advance(turn(w3.1, inner_turn(s)));
            let w4 = walk(mirror(s), (l - 1) as nat, c3);
            &&& walk(s, l, c).0 == w1.0 + w2.0 + w3.0 + w4.0
            &&& walk(s, l, c).1 == turn(w4.1, outer_turn(s))
            &&& fits(w1.0, m) && fits(w2.0, m) && fits(w3.0, m) && fits(w4.0, m)
            &&& w1.1.d == (c.d + outer_turn(s)) % 4
            &&& w2.1.d == c1.d && w3.1.d == c2.d && w4.1.d == c3.d
            &&& m.contains(c1.i, c1.j) && m.contains(c2.i, c2.j) && m.contains(c3.i, c3.j)
            &&& w1.0.len() == w2.0.len() && w3.0.len() == w2.0.len() && w4.0.len() == w2.0.len()
        }),
{
    reveal(walk);
    let w1 = walk(mirror(s), (l - 1) as nat, turn(c, outer_turn(s)));
    let c1 = turn(advance(w1.1), inner_turn(s));
    let w2 = walk(s, (l - 1) as nat, c1);
    let c2 = advance(w2.1);
    let w3 = walk(s, (l - 1) as nat, c2);
    let c3 = advance(turn(w3.1, inner_turn(s)));
    let w4 = walk(mirror(s), (l - 1) as nat, c3);
    lemma_hilbert_basic((l - 1) as nat);
    lemma_walk_shape(mirror(s), (l - 1) as nat, turn(c, outer_turn(s)));
    lemma_walk_shape(s, (l - 1) as nat, c1);
    lemma_walk_shape(s, (l - 1) as nat, c2);
    lemma_walk_shape(mirror(s), (l - 1) as nat, c3);
    let n = side((l - 1) as nat) as int;
    assert(n * n >= 1) by (nonlinear_arith)
        requires
            n >= 1,
    ;
    let v = walk(s, l, c).0;
    assert(v == w1.0 + w2.0 + w3.0 + w4.0);
    let q = w1.0.len() as int;
    assert(w2.0[0] == place(s, c1, hilbert((l - 1) as nat)[0]));
    assert(w3.0[0] == place(s, c2, hilbert((l - 1) as nat)[0]));
    assert(w4.0[0] == place(mirror(s), c3, hilbert((l - 1) as nat)[0]));
    assert forall|k: int| 0 <= k < q implies m.contains(#[trigger] w1.0[k].0, w1.0[k].1) by {
        lemma_concat4_index(w1.0, w2.0, w3.0, w4.0, k);
        assert(m.contains(v[k].0, v[k].1));
    }
    assert forall|k: int| 0 <= k < q implies m.contains(#[trigger] w2.0[k].0, w2.0[k].1) by {
        lemma_concat4_index(w1.0, w2.0, w3.0, w4.0, q + k);
        assert(m.contains(v[q + k].0, v[q + k].1));
    }
    assert forall|k: int| 0 <= k < q implies m.contains(#[trigger] w3.0[k].0, w3.0[k].1) by {
        lemma_concat4_index(w1.0, w2.0, w3.0, w4.0, 2 * q + k);
        assert(m.contains(v[2 * q + k].0, v[2 * q + k].1));
    }
    assert forall|k: int| 0 <= k < q implies m.contains(#[trigger] w4.0[k].0, w4.0[k].1) by {
        lemma_concat4_index(w1.0, w2.0, w3.0, w4.0, 3 * q + k);
        assert(m.contains(v[3 * q + k].0, v[3 * q + k].1));
    }
    assert(m.contains(w2.0[0].0, w2.0[0].1));
    assert(m.contains(w3.0[0].0, w3.0[0].1));
    assert(m.contains(w4.0[0].0, w4.0[0].1));
}

/// What a traversal of `s` at level `l` from `c` leaves in cell `(r, col)`: the
/// kernel's value where the walk passes, the cell's old value elsewhere.
pub open spec fn filled(
    s: Symbol,
    l: nat,
    c: Cursor,
    a: MatrixView<u32>,
    bt: MatrixView<u32>,
    before: MatrixView<u32>,
    r: int,
    col: int,
) -> u32 {
    if walk(s, l, c).0.contains((r, col)) {
        wrap(row_sum(a, r, bt, col, a.width))
    } else {
        before.at(r, col)
    }
}

/// Moves the cursor one cell along heading `d`.
fn advance_cell(i: &mut isize, j: &mut isize, d: isize)
    requires
        0 <= d < 4,
        0 <= advance(cursor(*old(i), *old(j), d)).i <= isize::MAX,
        0 <= advance(cursor(*old(i), *old(j), d)).j <= isize::MAX,
    ensures
        cursor(*final(i), *final(j), d) == advance(cursor(*old(i), *old(j), d)),
{
    match d {
        0 => *j = *j - 1,
        1 => *i = *i - 1,
        2 => *j = *j + 1,
        _ => *i = *i + 1,
    }
}

/// Runs symbol `s` of the grammar at level `l` from the cursor `(i, j, d)`: at
/// level 0 it writes the kernel's value for the cursor's cell into `c`; above
/// that it turns, recurses and moves as the grammar's rule says. The cursor ends
/// where the walk ends, and `c` holds the kernel's value in every cell the walk
/// visits and its old value in every other cell. `bt` holds the right factor
/// transposed, so that each cell is a row-by-row dot product.
pub fn lindenmayer(
    s: Symbol,
    l: u8,
    i: &mut isize,
    j: &mut isize,
    d: &mut isize,
    a: &Matrix<u32>,
    bt: &Matrix<u32>,
    c: &mut Matrix<u32>,
)
    requires
        0 <= *old(d) < 4,
        a@.wf(),
        bt@.wf(),
        old(c)@.wf(),
        a@.width == bt@.width,
        a@.height == old(c)@.height,
        bt@.height == old(c)@.width,
        old(c)@.height <= isize::MAX,
        old(c)@.width <= isize::MAX,
        fits(walk(s, l as nat, cursor(*old(i), *old(j), *old(d))).0, old(c)@),
    ensures
        final(c)@.wf(),
        final(c)@.width == old(c)@.width,
        final(c)@.height == old(c)@.height,
        cursor(*final(i), *final(j), *final(d)) == walk(
            s,
            l as nat,
            cursor(*old(i), *old(j), *old(d)),
        ).1,
        forall|r: int, col: int|
            old(c)@.contains(r, col) ==> #[trigger] final(c)@.at(r, col) == filled(
                s,
                l as nat,
                cursor(*old(i), *old(j), *old(d)),
                a@,
                bt@,
                old(c)@,
                r,
                col,
            ),
    decreases l,
{
    let ghost c_in = cursor(*i, *j, *d);
    let ghost m_in = c@;
    if l == 0 {
        proof {
            lemma_walk_base(s, c_in);
            let v0 = walk(s, 0, c_in).0;
            assert(m_in.contains(v0[0].0, v0[0].1));
        }
        let r = *i as usize;
        let col = *j as usize;
        let v = row_dot(a, r, bt, col);
        c.set(r, col, v);
        proof {
            assert forall|r2: int, col2: int| m_in.contains(r2, col2) implies #[trigger] c@.at(
                r2,
                col2,
            ) == filled(s, 0, c_in, a@, bt@, m_in, r2, col2) by {
                let v0 = walk(s, 0, c_in).0;
                if v0.contains((r2, col2)) {
                    let k = choose|k: int| 0 <= k < v0.len() && v0[k] == (r2, col2);
                    assert(v0[k] == (c_in.i, c_in.j));
                } else {
                    assert(v0[0] == (c_in.i, c_in.j));
                }
            }
        }
    } else {
        let ghost lp = (l - 1) as nat;
        let (t_out, t_in, other): (isize, isize, Symbol) = match s {
            Symbol::A => (3, 1, Symbol::B),
            Symbol::B => (1, 3, Symbol::A),
        };
        proof {
            lemma_parts_fit(s, l as nat, c_in, m_in);
        }
        let ghost c0 = turn(c_in, outer_turn(s));
        let ghost w1 = walk(mirror(s), lp, c0);
        let ghost c1 = turn(advance(w1.1), inner_turn(s));
        let ghost w2 = walk(s, lp, c1);
        let ghost c2 = advance(w2.1);
        let ghost w3 = walk(s, lp, c2);
        let ghost c3 = advance(turn(w3.1, inner_turn(s)));
        let ghost w4 = walk(mirror(s), lp, c3);

        *d = (*d + t_out) % 4;
        assert(cursor(*i, *j, *d) == c0);
        lindenmayer(other, l - 1, i, j, d, a, bt, c);
        let ghost m1 = c@;
        advance_cell(i, j, *d);
        *d = (*d + t_in) % 4;
        assert(cursor(*i, *j, *d) == c1);
        lindenmayer(s, l - 1, i, j, d, a, bt, c);
        let ghost m2 = c@;
        advance_cell(i, j, *d);
        assert(cursor(*i, *j, *d) == c2);
        lindenmayer(s, l - 1, i, j, d, a, bt, c);
        let ghost m3 = c@;
        *d = (*d + t_in) % 4;
        advance_cell(i, j, *d);
        assert(cursor(*i, *j, *d) == c3);
        lindenmayer(other, l - 1, i, j, d, a, bt, c);
        *d = (*d + t_out) % 4;
        proof {
            lemma_combine(s, l as nat, c_in, a@, bt@, m_in, m1, m2, m3, c@);
        }
    }
}

/// Four sub-traversals in a row leave in each cell what the whole traversal
/// leaves there.
proof fn lemma_combine(
    s: Symbol,
    l: nat,
    c: Cursor,
    a: MatrixView<u32>,
    bt: MatrixView<u32>,
    m0: MatrixView<u32>,
    m1: MatrixView<u32>,
    m2: MatrixView<u32>,
    m3: MatrixView<u32>,
    m4: MatrixView<u32>,
)
    requires
        l > 0,
        0 <= c.d < 4,
        fits(walk(s, l, c).0, m0),
        m1.width == m0.width && m1.height == m0.height,
        m2.width == m0.width && m2.height == m0.height,
        m3.width == m0.width && m3.height == m0.height,
        ({
            let lp = (l - 1) as nat;
            let c0 = turn(c, outer_turn(s));
            let w1 = walk(mirror(s), lp, c0);
            let c1 = turn(advance(w1.1), inner_turn(s));
            let w2 = walk(s, lp, c1);
            let c2 = advance(w2.1);
            let w3 = walk(s, lp, c2);
            let c3 = advance(turn(w3.1, inner_turn(s)));
            &&& forall|r: int, col: int|
                m0.contains(r, col) ==> #[trigger] m1.at(r, col) == filled(
                    mirror(s), lp, c0, a, bt, m0, r, col)
            &&& forall|r: int, col: int|
                m0.contains(r, col) ==> #[trigger] m2.at(r, col) == filled(
                    s, lp, c1, a, bt, m1, r, col)
            &&& forall|r: int, col: int|
                m0.contains(r, col) ==> #[trigger] m3.at(r, col) == filled(
                    s, lp, c2, a, bt, m2, r, col)
            &&& forall|r: int, col: int|
                m0.contains(r, col) ==> #[trigger] m4.at(r, col) == filled(
                    mirror(s), lp, c3, a, bt, m3, r, col)
        }),
    ensures
        forall|r: int, col: int|
            m0.contains(r, col) ==> #[trigger] m4.at(r, col) == filled(
                s, l, c, a, bt, m0, r, col),
{
    lemma_parts_fit(s, l, c, m0);
    let lp = (l - 1) as nat;
    let c0 = turn(c, outer_turn(s));
    let w1 = walk(mirror(s), lp, c0);
    let c1 = turn(advance(w1.1), inner_turn(s));
    let w2 = walk(s, lp, c1);
    let c2 = advance(w2.1);
    let w3 = walk(s, lp, c2);
    let c3 = advance(turn(w3.1, inner_turn(s)));
    let w4 = walk(mirror(s), lp, c3);
    assert forall|r: int, col: int| m0.contains(r, col) implies #[trigger] m4.at(r, col)
        == filled(s, l, c, a, bt, m0, r, col) by {
        lemma_contains4(w1.0, w2.0, w3.0, w4.0, (r, col));
        assert(m1.at(r, col) == filled(mirror(s), lp, c0, a, bt, m0, r, col));
        assert(m2.at(r, col) == filled(s, lp, c1, a, bt, m1, r, col));
        assert(m3.at(r, col) == filled(s, lp, c2, a, bt, m2, r, col));
    }
}

/// Runs symbol `A` of the grammar; see [`lindenmayer`].
pub fn lindenmayer_a(
    l: u8,
    i: &mut isize,
    j: &mut isize,
    d: &mut isize,
    a: &Matrix<u32>,
    bt: &Matrix<u32>,
    c: &mut Matrix<u32>,
)
    requires
        0 <= *old(d) < 4,
        a@.wf(),
        bt@.wf(),
        old(c)@.wf(),
        a@.width == bt@.width,
        a@.height == old(c)@.height,
        bt@.height == old(c)@.width,
        old(c)@.height <= isize::MAX,
        old(c)@.width <= isize::MAX,
        fits(walk(Symbol::A, l as nat, cursor(*old(i), *old(j), *old(d))).0, old(c)@),
    ensures
        final(c)@.wf(),
        final(c)@.width == old(c)@.width,
        final(c)@.height == old(c)@.height,
        cursor(*final(i), *final(j), *final(d)) == walk(
            Symbol::A,
            l as nat,
            cursor(*old(i), *old(j), *old(d)),
        ).1,
        forall|r: int, col: int|
            old(c)@.contains(r, col) ==> #[trigger] final(c)@.at(r, col) == filled(
                Symbol::A,
                l as nat,
                cursor(*old(i), *old(j), *old(d)),
                a@,
                bt@,
                old(c)@,
                r,
                col,
            ),
    decreases l,
{
    lindenmayer(Symbol::A, l, i, j, d, a, bt, c)
}

/// Runs symbol `B` of the grammar; see [`lindenmayer`].
pub fn lindenmayer_b(
    l: u8,
    i: &mut isize,
    j: &mut isize,
    d: &mut isize,
    a: &Matrix<u32>,
    bt: &Matrix<u32>,
    c: &mut Matrix<u32>,
)
    requires
        0 <= *old(d) < 4,
        a@.wf(),
        bt@.wf(),
        old(c)@.wf(),
        a@.width == bt@.width,
        a@.height == old(c)@.height,
        bt@.height == old(c)@.width,
        old(c)@.height <= isize::MAX,
        old(c)@.width <= isize::MAX,
        fits(walk(Symbol::B, l as nat, cursor(*old(i), *old(j), *old(d))).0, old(c)@),
    ensures
        final(c)@.wf(),
        final(c)@.width == old(c)@.width,
        final(c)@.height == old(c)@.height,
        cursor(*final(i), *final(j), *final(d)) == walk(
            Symbol::B,
            l as nat,
            cursor(*old(i), *old(j), *old(d)),
        ).1,
        forall|r: int, col: int|
            old(c)@.contains(r, col) ==> #[trigger] final(c)@.at(r, col) == filled(
                Symbol::B,
                l as nat,
                cursor(*old(i), *old(j), *old(d)),
                a@,
                bt@,
                old(c)@,
                r,
                col,
            ),
    decreases l,
{
    lindenmayer(Symbol::B, l, i, j, d, a, bt, c)
}

/// A recorded cell as a pair of integers.
pub open spec fn cell_of(p: (isize, isize)) -> (int, int) {
    (p.0 as int, p.1 as int)
}

/// The cells of `v` as pairs of integers.
pub open spec fn cells_of(v: Seq<(isize, isize)>) -> Seq<(int, int)> {
    v.map_values(|p: (isize, isize)| cell_of(p))
}

/// The `n` by `n` grid, as the sides of a matrix.
pub open spec fn square(n: int) -> MatrixView<u32> {
    MatrixView { width: n as nat, height: n as nat, cells: Seq::empty() }
}

/// Runs symbol `s` of the grammar at level `l` from the cursor `(i, j, d)` as
/// [`lindenmayer`] does, appending each visited cell to `out` where the
/// product would compute it.
pub fn record_walk(
    s: Symbol,
    l: u8,
    i: &mut isize,
    j: &mut isize,
    d: &mut isize,
    n: usize,
    out: &mut Vec<(isize, isize)>,
)
    requires
        0 <= *old(d) < 4,
        n <= isize::MAX,
        fits(walk(s, l as nat, cursor(*old(i), *old(j), *old(d))).0, square(n as int)),
    ensures
        cursor(*final(i), *final(j), *final(d)) == walk(
            s,
            l as nat,
            cursor(*old(i), *old(j), *old(d)),
        ).1,
        cells_of(final(out)@) == cells_of(old(out)@) + walk(
            s,
            l as nat,
            cursor(*old(i), *old(j), *old(d)),
        ).0,
    decreases l,
{
    let ghost c_in = cursor(*i, *j, *d);
    let ghost out_in = out@;
    if l == 0 {
        proof {
            lemma_walk_base(s, c_in);
        }
        out.push((*i, *j));
        proof {
            assert(cells_of(out@) =~= cells_of(out_in) + walk(s, 0, c_in).0);
        }
    } else {
        let ghost lp = (l - 1) as nat;
        let (t_out, t_in, other): (isize, isize, Symbol) = match s {
            Symbol::A => (3, 1, Symbol::B),
            Symbol::B => (1, 3, Symbol::A),
        };
        proof {
            lemma_parts_fit(s, l as nat, c_in, square(n as int));
        }
        let ghost c0 = turn(c_in, outer_turn(s));
        let ghost w1 = walk(mirror(s), lp, c0);
        let ghost c1 = turn(advance(w1.1), inner_turn(s));
        let ghost w2 = walk(s, lp, c1);
        let ghost c2 = advance(w2.1);
        let ghost w3 = walk(s, lp, c2);
        let ghost c3 = advance(turn(w3.1, inner_turn(s)));
        let ghost w4 = walk(mirror(s), lp, c3);

        *d = (*d + t_out) % 4;
        assert(cursor(*i, *j, *d) == c0);
        record_walk(other, l - 1, i, j, d, n, out);
        advance_cell(i, j, *d);
        *d = (*d + t_in) % 4;
        assert(cursor(*i, *j, *d) == c1);
        record_walk(s, l - 1, i, j, d, n, out);
        advance_cell(i, j, *d);
        assert(cursor(*i, *j, *d) == c2);
        record_walk(s, l - 1, i, j, d, n, out);
        *d = (*d + t_in) % 4;
        advance_cell(i, j, *d);
        assert(cursor(*i, *j, *d) == c3);
        record_walk(other, l - 1, i, j, d, n, out);
        *d = (*d + t_out) % 4;
        proof {
            let w = cells_of(out_in);
            assert(w + w1.0 + w2.0 + w3.0 + w4.0 =~= w + (w1.0 + w2.0 + w3.0 + w4.0));
        }
    }
}

/// The cells of the `2^level` by `2^level` grid in the order the product visits
/// them. `level` stays below 31 so that every coordinate fits in `isize` on any target.
pub fn curve_order(level: u8) -> (r: Vec<(isize, isize)>)
    requires
        level < 31,
    ensures
        cells_of(r@) == walk(Symbol::A, level as nat, start()).0,
{
    proof {
        lemma_side_below_31(level as nat);
    }
    let n = match grid_side(level) {
        Some(n) => n,
        None => 0,
    };
    let mut out: Vec<(isize, isize)> = Vec::new();
    let ghost l = level as nat;
    proof {
        lemma_traversal_covers_grid(l);
        let v = walk(Symbol::A, l, start()).0;
        assert forall|k2: int| 0 <= k2 < v.len() implies square(n as int).contains(
            #[trigger] v[k2].0,
            v[k2].1,
        ) by {
            assert(v.contains((v[k2].0, v[k2].1)));
        }
        assert(cursor(0, 0, 3) == start());
    }
    let mut i: isize = 0;
    let mut j: isize = 0;
    let mut d: isize = 3;
    record_walk(Symbol::A, level, &mut i, &mut j, &mut d, n, &mut out);
    proof {
        assert(cells_of(Seq::<(isize, isize)>::empty()) =~= Seq::<(int, int)>::empty());
        assert(Seq::<(int, int)>::empty() + walk(Symbol::A, l, start()).0 =~= walk(
            Symbol::A,
            l,
            start(),
        ).0);
    }
    out
}

} // verus!
