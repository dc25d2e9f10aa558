//! Tile grids stored row-major in a flat sequence of wall flags, and walks
//! between their open tiles.

use vstd::prelude::*;
use vstd::arithmetic::div_mod::lemma_fundamental_div_mod;
use vstd::arithmetic::div_mod::lemma_fundamental_div_mod_converse;

verus! {

/// A tile coordinate `(x, y)`.
pub type Cell = (int, int);

pub open spec fn in_grid(w: int, h: int, x: int, y: int) -> bool {
    0 <= x < w && 0 <= y < h
}

/// The wall flag stored for tile `(x, y)` in a row-major grid of width `w`.
pub open spec fn cell(tiles: Seq<bool>, w: int, x: int, y: int) -> bool {
    tiles[y * w + x]
}

/// A tile inside the grid that is not a wall.
pub open spec fn is_open(tiles: Seq<bool>, w: int, h: int, x: int, y: int) -> bool {
    in_grid(w, h, x, y) && !cell(tiles, w, x, y)
}

/// A flat sequence that holds exactly one flag per tile of a `w` by `h` grid.
pub open spec fn grid_shape(tiles: Seq<bool>, w: int, h: int) -> bool {
    0 < w && 0 < h && tiles.len() == w * h
}

/// The grid with every tile that satisfies `pred` made open.
pub open spec fn carve_cells(tiles: Seq<bool>, w: int, pred: spec_fn(int, int) -> bool) -> Seq<bool> {
    Seq::new(tiles.len(), |i: int| tiles[i] && !pred(i % w, i / w))
}

/// Row-major indexing is a bijection between grid tiles and flat indices.
pub proof fn lemma_index(w: int, h: int, x: int, y: int)
    requires
        in_grid(w, h, x, y),
    ensures
        0 <= y * w + x < w * h,
        (y * w + x) % w == x,
        (y * w + x) / w == y,
{
    assert(0 <= y * w) by (nonlinear_arith)
        requires
            0 <= y,
            0 < w,
    ;
    assert(y * w + x < w * h) by (nonlinear_arith)
        requires
            0 <= y < h,
            0 <= x < w,
    ;
    lemma_fundamental_div_mod_converse(y * w + x, w, y, x);
}

/// Every flat index names the tile `(i % w, i / w)`.
pub proof fn lemma_index_inverse(w: int, h: int, i: int)
    requires
        0 < w,
        0 <= i < w * h,
    ensures
        in_grid(w, h, i % w, i / w),
        (i / w) * w + (i % w) == i,
{
    lemma_fundamental_div_mod(i, w);
    assert(0 <= i % w < w) by {
        vstd::arithmetic::div_mod::lemma_mod_pos_bound(i, w);
    }
    assert(0 <= i / w) by {
        vstd::arithmetic::div_mod::lemma_div_pos_is_pos(i, w);
    }
    assert(w * (i / w) == (i / w) * w) by (nonlinear_arith);
    assert(i / w < h) by (nonlinear_arith)
        requires
            0 <= i < w * h,
            0 < w,
            w * (i / w) + (i % w) == i,
            0 <= i % w,
    ;
}

/// Carving changes exactly the tiles that satisfy the predicate.
pub proof fn lemma_carve_cells(tiles: Seq<bool>, w: int, h: int, pred: spec_fn(int, int) -> bool)
    requires
        grid_shape(tiles, w, h),
    ensures
        grid_shape(carve_cells(tiles, w, pred), w, h),
        forall|x: int, y: int|
            in_grid(w, h, x, y) ==> #[trigger] cell(carve_cells(tiles, w, pred), w, x, y) == (cell(
                tiles,
                w,
                x,
                y,
            ) && !pred(x, y)),
{
    assert forall|x: int, y: int| in_grid(w, h, x, y) implies #[trigger] cell(
        carve_cells(tiles, w, pred),
        w,
        x,
        y,
    ) == (cell(tiles, w, x, y) && !pred(x, y)) by {
        lemma_index(w, h, x, y);
    }
}

/// Two sequences of the grid's shape that agree on every tile are equal.
pub proof fn lemma_grid_ext(t1: Seq<bool>, t2: Seq<bool>, w: int, h: int)
    requires
        grid_shape(t1, w, h),
        grid_shape(t2, w, h),
        forall|x: int, y: int| in_grid(w, h, x, y) ==> #[trigger] cell(t1, w, x, y) == cell(t2, w, x, y),
    ensures
        t1 == t2,
{
    assert forall|i: int| 0 <= i < t1.len() implies t1[i] == t2[i] by {
        lemma_index_inverse(w, h, i);
        assert(cell(t1, w, i % w, i / w) == cell(t2, w, i % w, i / w));
    }
    assert(t1 =~= t2);
}

/// Writing one flag changes exactly that tile.
pub proof fn lemma_cell_update(tiles: Seq<bool>, w: int, h: int, x: int, y: int, v: bool)
    requires
        grid_shape(tiles, w, h),
        in_grid(w, h, x, y),
    ensures
        grid_shape(tiles.update(y * w + x, v), w, h),
        forall|x2: int, y2: int|
            in_grid(w, h, x2, y2) ==> #[trigger] cell(tiles.update(y * w + x, v), w, x2, y2) == if x2
                == x && y2 == y {
                v
            } else {
                cell(tiles, w, x2, y2)
            },
{
    lemma_index(w, h, x, y);
    assert forall|x2: int, y2: int| in_grid(w, h, x2, y2) implies #[trigger] cell(
        tiles.update(y * w + x, v),
        w,
        x2,
        y2,
    ) == if x2 == x && y2 == y {
        v
    } else {
        cell(tiles, w, x2, y2)
    } by {
        lemma_index(w, h, x2, y2);
    }
}

pub open spec fn adjacent(a: Cell, b: Cell) -> bool {
    ||| a.0 == b.0 && (a.1 == b.1 + 1 || b.1 == a.1 + 1)
    ||| a.1 == b.1 && (a.0 == b.0 + 1 || b.0 == a.0 + 1)
}

pub open spec fn step_ok(p: Seq<Cell>, i: int) -> bool {
    adjacent(p[i], p[i + 1])
}

/// A non-empty sequence of open tiles in which each tile neighbours the next.
pub open spec fn is_walk(tiles: Seq<bool>, w: int, h: int, p: Seq<Cell>) -> bool {
    &&& p.len() > 0
    &&& forall|i: int| 0 <= i < p.len() ==> is_open(tiles, w, h, #[trigger] p[i].0, p[i].1)
    &&& forall|i: int| 0 <= i < p.len() - 1 ==> #[trigger] step_ok(p, i)
}

/// Tile `b` can be reached from tile `a` through open tiles.
pub open spec fn reachable(tiles: Seq<bool>, w: int, h: int, a: Cell, b: Cell) -> bool {
    exists|p: Seq<Cell>| #[trigger] is_walk(tiles, w, h, p) && p[0] == a && p.last() == b
}

/// Every two open tiles of the grid are joined by a walk.
pub open spec fn connected(tiles: Seq<bool>, w: int, h: int) -> bool {
    forall|a: Cell, b: Cell|
        is_open(tiles, w, h, a.0, a.1) && is_open(tiles, w, h, b.0, b.1) ==> #[trigger] reachable(
            tiles,
            w,
            h,
            a,
            b,
        )
}

pub proof fn lemma_reach_refl(tiles: Seq<bool>, w: int, h: int, a: Cell)
    requires
        is_open(tiles, w, h, a.0, a.1),
    ensures
        reachable(tiles, w, h, a, a),
{
    let p = seq![a];
    assert(is_walk(tiles, w, h, p));
}

pub proof fn lemma_reach_trans(tiles: Seq<bool>, w: int, h: int, a: Cell, b: Cell, c: Cell)
    requires
        reachable(tiles, w, h, a, b),
        reachable(tiles, w, h, b, c),
    ensures
        reachable(tiles, w, h, a, c),
{
    let p1 = choose|p: Seq<Cell>| #[trigger] is_walk(tiles, w, h, p) && p[0] == a && p.last() == b;
    let p2 = choose|p: Seq<Cell>| #[trigger] is_walk(tiles, w, h, p) && p[0] == b && p.last() == c;
    let q = p1 + p2.drop_first();
    assert forall|i: int| 0 <= i < q.len() implies is_open(tiles, w, h, #[trigger] q[i].0, q[i].1) by {
        if i < p1.len() {
            assert(q[i] == p1[i]);
        } else {
            assert(q[i] == p2[i - p1.len() + 1]);
        }
    }
    assert forall|i: int| 0 <= i < q.len() - 1 implies #[trigger] step_ok(q, i) by {
        if i < p1.len() - 1 {
            assert(step_ok(p1, i));
        } else if i == p1.len() - 1 {
            assert(q[i] == p1.last());
            assert(q[i + 1] == p2[1]);
            assert(step_ok(p2, 0));
        } else {
            assert(step_ok(p2, i - p1.len() + 1));
        }
    }
    assert(is_walk(tiles, w, h, q));
    if p2.len() == 1 {
        assert(q.last() == p1.last());
    } else {
        assert(q.last() == p2.last());
    }
}

pub proof fn lemma_reach_sym(tiles: Seq<bool>, w: int, h: int, a: Cell, b: Cell)
    requires
        reachable(tiles, w, h, a, b),
    ensures
        reachable(tiles, w, h, b, a),
{
    let p = choose|p: Seq<Cell>| #[trigger] is_walk(tiles, w, h, p) && p[0] == a && p.last() == b;
    let n = p.len();
    let q = Seq::new(n, |i: int| p[n - 1 - i]);
    assert forall|i: int| 0 <= i < q.len() implies is_open(tiles, w, h, #[trigger] q[i].0, q[i].1) by {
        assert(q[i] == p[n - 1 - i]);
    }
    assert forall|i: int| 0 <= i < q.len() - 1 implies #[trigger] step_ok(q, i) by {
        assert(step_ok(p, n - 2 - i));
    }
    assert(is_walk(tiles, w, h, q));
}

/// Opening more tiles keeps every walk.
pub proof fn lemma_reach_mono(t1: Seq<bool>, t2: Seq<bool>, w: int, h: int, a: Cell, b: Cell)
    requires
        reachable(t1, w, h, a, b),
        forall|x: int, y: int| is_open(t1, w, h, x, y) ==> #[trigger] is_open(t2, w, h, x, y),
    ensures
        reachable(t2, w, h, a, b),
{
    let p = choose|p: Seq<Cell>| #[trigger] is_walk(t1, w, h, p) && p[0] == a && p.last() == b;
    assert forall|i: int| 0 <= i < p.len() implies is_open(t2, w, h, #[trigger] p[i].0, p[i].1) by {
        assert(is_open(t1, w, h, p[i].0, p[i].1));
    }
    assert(is_walk(t2, w, h, p));
}

/// A straight open run along row `y` joins its two ends.
pub proof fn lemma_reach_row(tiles: Seq<bool>, w: int, h: int, y: int, x1: int, x2: int)
    requires
        forall|x: int|
            (x1 <= x <= x2 || x2 <= x <= x1) ==> #[trigger] is_open(tiles, w, h, x, y),
    ensures
        reachable(tiles, w, h, (x1, y), (x2, y)),
    decreases (if x1 <= x2 { 0int } else { 1int }),
{
    if x1 <= x2 {
        let p = Seq::new((x2 - x1 + 1) as nat, |i: int| (x1 + i, y));
        assert forall|i: int| 0 <= i < p.len() implies is_open(tiles, w, h, #[trigger] p[i].0, p[i].1) by {
            assert(is_open(tiles, w, h, x1 + i, y));
        }
        assert forall|i: int| 0 <= i < p.len() - 1 implies #[trigger] step_ok(p, i) by {
        }
        assert(is_walk(tiles, w, h, p));
    } else {
        lemma_reach_row(tiles, w, h, y, x2, x1);
        lemma_reach_sym(tiles, w, h, (x2, y), (x1, y));
    }
}

/// A straight open run along column `x` joins its two ends.
pub proof fn lemma_reach_col(tiles: Seq<bool>, w: int, h: int, x: int, y1: int, y2: int)
    requires
        forall|y: int|
            (y1 <= y <= y2 || y2 <= y <= y1) ==> #[trigger] is_open(tiles, w, h, x, y),
    ensures
        reachable(tiles, w, h, (x, y1), (x, y2)),
{
    if y1 <= y2 {
        let p = Seq::new((y2 - y1 + 1) as nat, |i: int| (x, y1 + i));
        assert forall|i: int| 0 <= i < p.len() implies is_open(tiles, w, h, #[trigger] p[i].0, p[i].1) by {
            assert(is_open(tiles, w, h, x, y1 + i));
        }
        assert forall|i: int| 0 <= i < p.len() - 1 implies #[trigger] step_ok(p, i) by {
        }
        assert(is_walk(tiles, w, h, p));
    } else {
        let p = Seq::new((y1 - y2 + 1) as nat, |i: int| (x, y1 - i));
        assert forall|i: int| 0 <= i < p.len() implies is_open(tiles, w, h, #[trigger] p[i].0, p[i].1) by {
            assert(is_open(tiles, w, h, x, y1 - i));
        }
        assert forall|i: int| 0 <= i < p.len() - 1 implies #[trigger] step_ok(p, i) by {
        }
        assert(is_walk(tiles, w, h, p));
    }
}

/// In a fully open rectangle every two tiles are joined.
pub proof fn lemma_reach_rect(
    tiles: Seq<bool>,
    w: int,
    h: int,
    left: int,
    top: int,
    width: int,
    height: int,
    a: Cell,
    b: Cell,
)
    requires
        forall|x: int, y: int|
            left <= x < left + width && top <= y < top + height ==> #[trigger] is_open(
                tiles,
                w,
                h,
                x,
                y,
            ),
        left <= a.0 < left + width && top <= a.1 < top + height,
        left <= b.0 < left + width && top <= b.1 < top + height,
    ensures
        reachable(tiles, w, h, a, b),
{
    assert forall|x: int| (a.0 <= x <= b.0 || b.0 <= x <= a.0) implies #[trigger] is_open(
        tiles,
        w,
        h,
        x,
        a.1,
    ) by {}
    lemma_reach_row(tiles, w, h, a.1, a.0, b.0);
    assert forall|y: int| (a.1 <= y <= b.1 || b.1 <= y <= a.1) implies #[trigger] is_open(
        tiles,
        w,
        h,
        b.0,
        y,
    ) by {}
    lemma_reach_col(tiles, w, h, b.0, a.1, b.1);
    lemma_reach_trans(tiles, w, h, a, (b.0, a.1), b);
}

} // verus!
