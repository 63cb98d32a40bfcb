//! The space-filling curve that orders the product's cells: the two-symbol
//! grammar as it runs, its shape in a local frame, and what the shape gives.
use vstd::prelude::*;
use vstd::arithmetic::div_mod::lemma_fundamental_div_mod;

verus! {

/// The two symbols of the grammar that generates the curve.
#[derive(Debug, Clone, Copy, PartialEq, Eq, Structural)]
pub enum Symbol {
    A,
    B,
}

/// Position and heading of the traversal. Heading `d` is 0 for west (`j - 1`),
/// 1 for north (`i - 1`), 2 for east (`j + 1`) and 3 for south (`i + 1`).
pub struct Cursor {
    pub i: int,
    pub j: int,
    pub d: int,
}

/// The other symbol.
pub open spec fn mirror(s: Symbol) -> Symbol {
    match s {
        Symbol::A => Symbol::B,
        Symbol::B => Symbol::A,
    }
}

/// The quarter turn a symbol makes before its first and after its last sub-curve
/// (3 turns left, 1 turns right).
pub open spec fn outer_turn(s: Symbol) -> int {
    match s {
        Symbol::A => 3,
        Symbol::B => 1,
    }
}

/// The quarter turn a symbol makes between its sub-curves.
pub open spec fn inner_turn(s: Symbol) -> int {
    match s {
        Symbol::A => 1,
        Symbol::B => 3,
    }
}

/// Row step of heading `d`.
pub open spec fn step_i(d: int) -> int {
    if d == 1 {
        -1
    } else if d == 3 {
        1
    } else {
        0
    }
}

/// Column step of heading `d`.
pub open spec fn step_j(d: int) -> int {
    if d == 0 {
        -1
    } else if d == 2 {
        1
    } else {
        0
    }
}

/// Turns the cursor by `t` quarter turns.
pub open spec fn turn(c: Cursor, t: int) -> Cursor {
    Cursor { i: c.i, j: c.j, d: (c.d + t) % 4 }
}

/// Moves the cursor one cell along its heading.
pub open spec fn advance(c: Cursor) -> Cursor {
    Cursor { i: c.i + step_i(c.d), j: c.j + step_j(c.d), d: c.d }
}

/// The cells that symbol `s` at level `l` visits from cursor `c`, in order, and
/// the cursor it leaves behind. Level 0 visits the cursor's cell; a higher level
/// expands into four sub-curves joined by turns and single moves.
#[verifier::opaque]
pub open spec fn walk(s: Symbol, l: nat, c: Cursor) -> (Seq<(int, int)>, Cursor)
    decreases l,
{
    if l == 0 {
        (seq![(c.i, c.j)], c)
    } else {
        let w1 = walk(mirror(s), (l - 1) as nat, turn(c, outer_turn(s)));
        let w2 = walk(s, (l - 1) as nat, turn(advance(w1.1), inner_turn(s)));
        let w3 = walk(s, (l - 1) as nat, advance(w2.1));
        let w4 = walk(mirror(s), (l - 1) as nat, advance(turn(w3.1, inner_turn(s))));
        (w1.0 + w2.0 + w3.0 + w4.0, turn(w4.1, outer_turn(s)))
    }
}

/// The cursor the whole product starts from: the top-left cell, heading south.
pub open spec fn start() -> Cursor {
    Cursor { i: 0, j: 0, d: 3 }
}

/// `2^l`, the side of the square that a level-`l` curve covers.
pub open spec fn side(l: nat) -> nat
    decreases l,
{
    if l == 0 {
        1
    } else {
        2 * side((l - 1) as nat)
    }
}

/// Where quadrant `q` of a curve of side `2h` puts the point `p` of a sub-curve of side `h`.
pub open spec fn quadrant(q: int, h: int, p: (int, int)) -> (int, int) {
    if q == 0 {
        (p.1, p.0)
    } else if q == 1 {
        (p.0, h + p.1)
    } else if q == 2 {
        (h + p.0, h + p.1)
    } else {
        (2 * h - 1 - p.1, h - 1 - p.0)
    }
}

/// The level-`l` curve in its own frame: first coordinate along the heading,
/// second across it, starting at the origin.
pub open spec fn hilbert(l: nat) -> Seq<(int, int)>
    decreases l,
{
    if l == 0 {
        seq![(0int, 0int)]
    } else {
        let h = side((l - 1) as nat) as int;
        let prev = hilbert((l - 1) as nat);
        prev.map_values(|p: (int, int)| quadrant(0, h, p)) + prev.map_values(
            |p: (int, int)| quadrant(1, h, p),
        ) + prev.map_values(|p: (int, int)| quadrant(2, h, p)) + prev.map_values(
            |p: (int, int)| quadrant(3, h, p),
        )
    }
}

/// Row offset of `x` cells along heading `d`.
pub open spec fn along_i(d: int, x: int) -> int {
    if d == 1 {
        -x
    } else if d == 3 {
        x
    } else {
        0
    }
}

/// Column offset of `x` cells along heading `d`.
pub open spec fn along_j(d: int, x: int) -> int {
    if d == 0 {
        -x
    } else if d == 2 {
        x
    } else {
        0
    }
}

/// The grid cell of local point `p` for symbol `s` started at `c`: the first
/// coordinate runs along the heading, the second toward the side that `s` turns to first.
pub open spec fn place(s: Symbol, c: Cursor, p: (int, int)) -> (int, int) {
    let e = (c.d + outer_turn(s)) % 4;
    (c.i + along_i(c.d, p.0) + along_i(e, p.1), c.j + along_j(c.d, p.0) + along_j(e, p.1))
}

/// Two cells one step apart in exactly one coordinate.
pub open spec fn adjacent(p: (int, int), q: (int, int)) -> bool {
    ||| p.0 == q.0 && (p.1 == q.1 + 1 || q.1 == p.1 + 1)
    ||| p.1 == q.1 && (p.0 == q.0 + 1 || q.0 == p.0 + 1)
}

/// Indexing into four joined sequences of one length.
pub proof fn lemma_concat4_index<A>(a: Seq<A>, b: Seq<A>, c: Seq<A>, d: Seq<A>, k: int)
    requires
        b.len() == a.len(),
        c.len() == a.len(),
        d.len() == a.len(),
        0 <= k < 4 * a.len(),
    ensures
        (a + b + c + d).len() == 4 * a.len(),
        (a + b + c + d)[k] == if k < a.len() {
            a[k]
        } else if k < 2 * a.len() {
            b[k - a.len()]
        } else if k < 3 * a.len() {
            c[k - 2 * a.len()]
        } else {
            d[k - 3 * a.len()]
        },
{
    let q = a.len() as int;
    if k < q {
        assert((a + b)[k] == a[k]);
        assert((a + b + c)[k] == a[k]);
    } else if k < 2 * q {
        assert((a + b)[k] == b[k - q]);
        assert((a + b + c)[k] == b[k - q]);
    } else if k < 3 * q {
        assert((a + b + c)[k] == c[k - 2 * q]);
    }
}

proof fn lemma_side_positive(l: nat)
    ensures
        side(l) >= 1,
    decreases l,
{
    if l > 0 {
        lemma_side_positive((l - 1) as nat);
    }
}

/// Length, endpoints and extent of the local curve.
pub proof fn lemma_hilbert_basic(l: nat)
    ensures
        side(l) >= 1,
        hilbert(l).len() == side(l) * side(l),
        hilbert(l)[0] == (0int, 0int),
        hilbert(l)[hilbert(l).len() - 1] == (side(l) - 1, 0int),
        forall|k: int|
            0 <= k < hilbert(l).len() ==> 0 <= (#[trigger] hilbert(l)[k]).0 < side(l) && 0
                <= hilbert(l)[k].1 < side(l),
    decreases l,
{
    lemma_side_positive(l);
    if l > 0 {
        let h = side((l - 1) as nat) as int;
        let prev = hilbert((l - 1) as nat);
        lemma_hilbert_basic((l - 1) as nat);
        let q = prev.len() as int;
        let m0 = prev.map_values(|p: (int, int)| quadrant(0, h, p));
        let m1 = prev.map_values(|p: (int, int)| quadrant(1, h, p));
        let m2 = prev.map_values(|p: (int, int)| quadrant(2, h, p));
        let m3 = prev.map_values(|p: (int, int)| quadrant(3, h, p));
        let s = hilbert(l);
        assert(s == m0 + m1 + m2 + m3);
        assert(side(l) * side(l) == 4 * (h * h)) by (nonlinear_arith)
            requires
                side(l) == 2 * h,
        ;
        assert(q >= 1) by (nonlinear_arith)
            requires
                q == h * h,
                h >= 1,
        ;
        lemma_concat4_index(m0, m1, m2, m3, 0);
        lemma_concat4_index(m0, m1, m2, m3, 4 * q - 1);
        assert(s.len() == 4 * q);
        assert(q == h * h);
        assert forall|k: int| 0 <= k < s.len() implies 0 <= (#[trigger] s[k]).0 < side(l) && 0
            <= s[k].1 < side(l) by {
            lemma_concat4_index(m0, m1, m2, m3, k);
            if k < q {
                assert(s[k] == quadrant(0, h, prev[k]));
            } else if k < 2 * q {
                assert(s[k] == quadrant(1, h, prev[k - q]));
            } else if k < 3 * q {
                assert(s[k] == quadrant(2, h, prev[k - 2 * q]));
            } else {
                assert(s[k] == quadrant(3, h, prev[k - 3 * q]));
            }
        }
        assert(s.len() == side(l) * side(l));
    } else {
        assert(side(l) == 1);
        assert(hilbert(l).len() == 1);
    }
}

/// Point `k` of the level-`l` curve is point `k % q` of the level-`l - 1` curve
/// moved into quadrant `k / q`, where `q` is the length of the smaller curve.
proof fn lemma_hilbert_block(l: nat, k: int)
    requires
        l > 0,
        0 <= k < hilbert(l).len(),
    ensures
        ({
            let q = hilbert((l - 1) as nat).len() as int;
            &&& 0 <= k / q < 4
            &&& 0 <= k % q < q
            &&& k == q * (k / q) + k % q
            &&& hilbert(l)[k] == quadrant(
                k / q,
                side((l - 1) as nat) as int,
                hilbert((l - 1) as nat)[k % q],
            )
        }),
{
    let h = side((l - 1) as nat) as int;
    let prev = hilbert((l - 1) as nat);
    lemma_hilbert_basic((l - 1) as nat);
    let q = prev.len() as int;
    let m0 = prev.map_values(|p: (int, int)| quadrant(0, h, p));
    let m1 = prev.map_values(|p: (int, int)| quadrant(1, h, p));
    let m2 = prev.map_values(|p: (int, int)| quadrant(2, h, p));
    let m3 = prev.map_values(|p: (int, int)| quadrant(3, h, p));
    assert(hilbert(l) == m0 + m1 + m2 + m3);
    lemma_concat4_index(m0, m1, m2, m3, k);
    if k < q {
        assert(k / q == 0 && k % q == k) by (nonlinear_arith)
            requires
                0 <= k < q,
        ;
    } else if k < 2 * q {
        assert(k / q == 1 && k % q == k - q) by (nonlinear_arith)
            requires
                q <= k < 2 * q,
        ;
    } else if k < 3 * q {
        assert(k / q == 2 && k % q == k - 2 * q) by (nonlinear_arith)
            requires
                2 * q <= k < 3 * q,
        ;
    } else {
        assert(k / q == 3 && k % q == k - 3 * q) by (nonlinear_arith)
            requires
                3 * q <= k < 4 * q,
        ;
    }
}

/// The local curve visits no point twice.
proof fn lemma_hilbert_injective(l: nat)
    ensures
        forall|k1: int, k2: int|
            0 <= k1 < hilbert(l).len() && 0 <= k2 < hilbert(l).len() && k1 != k2
                ==> #[trigger] hilbert(l)[k1] != #[trigger] hilbert(l)[k2],
    decreases l,
{
    if l > 0 {
        let prev = hilbert((l - 1) as nat);
        lemma_hilbert_basic((l - 1) as nat);
        lemma_hilbert_injective((l - 1) as nat);
        let q = prev.len() as int;
        let s = hilbert(l);
        assert forall|k1: int, k2: int|
            0 <= k1 < s.len() && 0 <= k2 < s.len() && k1 != k2 implies #[trigger] s[k1]
            != #[trigger] s[k2] by {
            lemma_hilbert_block(l, k1);
            lemma_hilbert_block(l, k2);
            let p1 = prev[k1 % q];
            let p2 = prev[k2 % q];
            if k1 / q == k2 / q {
                assert(k1 % q != k2 % q);
            }
        }
    }
}

/// One step of the level-`l` curve, given that the level-`l - 1` curve steps to neighbours.
#[verifier::spinoff_prover]
proof fn lemma_hilbert_step(l: nat, k: int)
    requires
        l > 0,
        0 <= k < hilbert(l).len() - 1,
        forall|k2: int|
            0 <= k2 < hilbert((l - 1) as nat).len() - 1 ==> adjacent(
                #[trigger] hilbert((l - 1) as nat)[k2],
                hilbert((l - 1) as nat)[k2 + 1],
            ),
    ensures
        adjacent(hilbert(l)[k], hilbert(l)[k + 1]),
{
    let h = side((l - 1) as nat) as int;
    let prev = hilbert((l - 1) as nat);
    lemma_hilbert_basic((l - 1) as nat);
    let q = prev.len() as int;
    lemma_hilbert_block(l, k);
    lemma_hilbert_block(l, k + 1);
    let b = k / q;
    let b2 = (k + 1) / q;
    let r = k % q;
    let r2 = (k + 1) % q;
    if b == b2 {
        assert(r + 1 == r2);
        assert(adjacent(prev[r], prev[r + 1]));
    } else {
        assert(r == q - 1 && r2 == 0 && b2 == b + 1) by (nonlinear_arith)
            requires
                k == q * b + r,
                k + 1 == q * b2 + r2,
                0 <= r < q,
                0 <= r2 < q,
                b != b2,
        ;
        assert(prev[r] == (h - 1, 0int));
        assert(prev[r2] == (0int, 0int));
    }
}

/// The local curve steps to a neighbouring point each time.
proof fn lemma_hilbert_adjacent(l: nat)
    ensures
        forall|k: int|
            0 <= k < hilbert(l).len() - 1 ==> adjacent(
                #[trigger] hilbert(l)[k],
                hilbert(l)[k + 1],
            ),
    decreases l,
{
    if l > 0 {
        lemma_hilbert_adjacent((l - 1) as nat);
        assert forall|k: int| 0 <= k < hilbert(l).len() - 1 implies adjacent(
            #[trigger] hilbert(l)[k],
            hilbert(l)[k + 1],
        ) by {
            lemma_hilbert_step(l, k);
        }
    }
}

/// Every point of the square of side `2^l` lies on the local curve.
proof fn lemma_hilbert_covers(l: nat, x: int, y: int)
    requires
        0 <= x < side(l),
        0 <= y < side(l),
    ensures
        exists|k: int| 0 <= k < hilbert(l).len() && #[trigger] hilbert(l)[k] == (x, y),
    decreases l,
{
    lemma_hilbert_basic(l);
    if l == 0 {
        assert(hilbert(l)[0] == (x, y));
    } else {
        let h = side((l - 1) as nat) as int;
        let prev = hilbert((l - 1) as nat);
        lemma_hilbert_basic((l - 1) as nat);
        let q = prev.len() as int;
        let m0 = prev.map_values(|p: (int, int)| quadrant(0, h, p));
        let m1 = prev.map_values(|p: (int, int)| quadrant(1, h, p));
        let m2 = prev.map_values(|p: (int, int)| quadrant(2, h, p));
        let m3 = prev.map_values(|p: (int, int)| quadrant(3, h, p));
        let s = hilbert(l);
        assert(s == m0 + m1 + m2 + m3);
        let (off, px, py) = if x < h && y < h {
            (0int, y, x)
        } else if x < h {
            (q, x, y - h)
        } else if y >= h {
            (2 * q, x - h, y - h)
        } else {
            (3 * q, h - 1 - y, 2 * h - 1 - x)
        };
        lemma_hilbert_covers((l - 1) as nat, px, py);
        let k0 = choose|k0: int| 0 <= k0 < prev.len() && #[trigger] prev[k0] == (px, py);
        lemma_concat4_index(m0, m1, m2, m3, off + k0);
        assert(s[off + k0] == (x, y));
    }
}

/// The cursor at local point `p` of symbol `s` started at `c`, with `c`'s heading.
pub open spec fn cursor_at(s: Symbol, c: Cursor, p: (int, int)) -> Cursor {
    Cursor { i: place(s, c, p).0, j: place(s, c, p).1, d: c.d }
}

/// The four sub-curves of a curve of side `2h` lie where the quadrants of its frame say.
proof fn lemma_quadrant_frames(s: Symbol, c: Cursor, h: int)
    requires
        0 <= c.d < 4,
    ensures
        ({
            let c0 = turn(c, outer_turn(s));
            let c1 = turn(advance(cursor_at(mirror(s), c0, (h - 1, 0))), inner_turn(s));
            let c2 = advance(cursor_at(s, c1, (h - 1, 0)));
            let c3 = advance(turn(cursor_at(s, c2, (h - 1, 0)), inner_turn(s)));
            &&& 0 <= c0.d < 4 && 0 <= c1.d < 4 && 0 <= c2.d < 4 && 0 <= c3.d < 4
            &&& forall|p: (int, int)| #[trigger]
                place(mirror(s), c0, p) == place(s, c, quadrant(0, h, p))
            &&& forall|p: (int, int)| #[trigger] place(s, c1, p) == place(s, c, quadrant(1, h, p))
            &&& forall|p: (int, int)| #[trigger] place(s, c2, p) == place(s, c, quadrant(2, h, p))
            &&& forall|p: (int, int)| #[trigger]
                place(mirror(s), c3, p) == place(s, c, quadrant(3, h, p))
            &&& turn(cursor_at(mirror(s), c3, (h - 1, 0)), outer_turn(s)) == cursor_at(
                s,
                c,
                (2 * h - 1, 0),
            )
        }),
{
}

/// The walk of a symbol is the local curve carried into the grid by `place`,
/// and it ends at the far corner along its heading, heading as it began.
pub proof fn lemma_walk_shape(s: Symbol, l: nat, c: Cursor)
    requires
        0 <= c.d < 4,
    ensures
        walk(s, l, c).0.len() == hilbert(l).len(),
        forall|k: int|
            0 <= k < hilbert(l).len() ==> #[trigger] walk(s, l, c).0[k] == place(
                s,
                c,
                hilbert(l)[k],
            ),
        walk(s, l, c).1 == cursor_at(s, c, (side(l) - 1, 0)),
    decreases l,
{
    reveal(walk);
    if l == 0 {
        assert(walk(s, l, c).0[0] == place(s, c, hilbert(l)[0]));
    } else {
        let h = side((l - 1) as nat) as int;
        let prev = hilbert((l - 1) as nat);
        lemma_hilbert_basic((l - 1) as nat);
        let q = prev.len() as int;
        lemma_quadrant_frames(s, c, h);
        let c0 = turn(c, outer_turn(s));
        let w1 = walk(mirror(s), (l - 1) as nat, c0);
        lemma_walk_shape(mirror(s), (l - 1) as nat, c0);
        let c1 = turn(advance(w1.1), inner_turn(s));
        let w2 = walk(s, (l - 1) as nat, c1);
        lemma_walk_shape(s, (l - 1) as nat, c1);
        let c2 = advance(w2.1);
        let w3 = walk(s, (l - 1) as nat, c2);
        lemma_walk_shape(s, (l - 1) as nat, c2);
        let c3 = advance(turn(w3.1, inner_turn(s)));
        let w4 = walk(mirror(s), (l - 1) as nat, c3);
        lemma_walk_shape(mirror(s), (l - 1) as nat, c3);
        let m0 = prev.map_values(|p: (int, int)| quadrant(0, h, p));
        let m1 = prev.map_values(|p: (int, int)| quadrant(1, h, p));
        let m2 = prev.map_values(|p: (int, int)| quadrant(2, h, p));
        let m3 = prev.map_values(|p: (int, int)| quadrant(3, h, p));
        assert(hilbert(l) == m0 + m1 + m2 + m3);
        let v = walk(s, l, c).0;
        assert(v == w1.0 + w2.0 + w3.0 + w4.0);
        assert forall|k: int| 0 <= k < hilbert(l).len() implies #[trigger] v[k] == place(
            s,
            c,
            hilbert(l)[k],
        ) by {
            lemma_concat4_index(m0, m1, m2, m3, k);
            lemma_concat4_index(w1.0, w2.0, w3.0, w4.0, k);
            if k < q {
                assert(w1.0[k] == place(mirror(s), c0, prev[k]));
            } else if k < 2 * q {
                assert(w2.0[k - q] == place(s, c1, prev[k - q]));
            } else if k < 3 * q {
                assert(w3.0[k - 2 * q] == place(s, c2, prev[k - 2 * q]));
            } else {
                assert(w4.0[k - 3 * q] == place(mirror(s), c3, prev[k - 3 * q]));
            }
        }
        assert(q >= 1) by (nonlinear_arith)
            requires
                q == h * h,
                h >= 1,
        ;
        lemma_concat4_index(w1.0, w2.0, w3.0, w4.0, 0);
    }
}

/// From the start cursor the walk of `A` is the local curve itself.
proof fn lemma_walk_from_start(l: nat)
    ensures
        walk(Symbol::A, l, start()).0 == hilbert(l),
{
    lemma_walk_shape(Symbol::A, l, start());
    assert(walk(Symbol::A, l, start()).0 =~= hilbert(l));
}

/// Started from the top-left cell heading south, the level-`l` traversal visits
/// every cell of the `2^l` by `2^l` grid, each exactly once, and no other cell.
pub proof fn lemma_traversal_covers_grid(l: nat)
    ensures
        walk(Symbol::A, l, start()).0.len() == side(l) * side(l),
        walk(Symbol::A, l, start()).0.no_duplicates(),
        forall|r: int, c: int|
            #[trigger] walk(Symbol::A, l, start()).0.contains((r, c)) <==> (0 <= r < side(l) && 0
                <= c < side(l)),
{
    lemma_walk_from_start(l);
    lemma_hilbert_basic(l);
    lemma_hilbert_injective(l);
    let v = hilbert(l);
    assert forall|r: int, c: int| v.contains((r, c)) <==> (0 <= r < side(l) && 0 <= c < side(l)) by {
        if 0 <= r < side(l) && 0 <= c < side(l) {
            lemma_hilbert_covers(l, r, c);
        }
        if v.contains((r, c)) {
            let k = choose|k: int| 0 <= k < v.len() && v[k] == (r, c);
            assert(v[k] == (r, c));
        }
    }
}

/// Consecutive cells of the level-`l` traversal are neighbours: they differ by
/// one in exactly one coordinate.
pub proof fn lemma_traversal_adjacent(l: nat)
    ensures
        forall|k: int|
            0 <= k < walk(Symbol::A, l, start()).0.len() - 1 ==> adjacent(
                #[trigger] walk(Symbol::A, l, start()).0[k],
                walk(Symbol::A, l, start()).0[k + 1],
            ),
{
    lemma_walk_from_start(l);
    lemma_hilbert_adjacent(l);
}

/// `2^level`, or `None` where it does not fit in `usize`.
pub fn grid_side(level: u8) -> (r: Option<usize>)
    ensures
        r matches Some(n) ==> n == side(level as nat),
        r is None ==> side(level as nat) > usize::MAX,
{
    let mut n: usize = 1;
    let mut k: u8 = 0;
    while k < level
        invariant
            k <= level,
            n == side(k as nat),
        decreases level - k,
    {
        if n > usize::MAX / 2 {
            proof {
                lemma_side_grows(k as nat, level as nat);
            }
            return None;
        }
        n = n * 2;
        k = k + 1;
    }
    Some(n)
}

/// `side` grows with the level.
pub proof fn lemma_side_grows(k: nat, l: nat)
    requires
        k < l,
    ensures
        side(l) >= 2 * side(k),
    decreases l - k,
{
    if k + 1 < l {
        lemma_side_grows(k, (l - 1) as nat);
    }
}

/// `2^l` fits in a 32-bit `isize` for `l < 31`.
pub proof fn lemma_side_below_31(l: nat)
    requires
        l < 31,
    ensures
        side(l) <= 0x4000_0000,
{
    reveal_with_fuel(side, 31);
    assert(side(30) == 0x4000_0000);
    if l < 30 {
        lemma_side_grows(l, 30);
    }
}

} // verus!
