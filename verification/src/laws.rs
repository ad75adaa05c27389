//! Global laws of the engine, proved over the same spec functions its
//! contracts use.

use vstd::prelude::*;
use vstd::set_lib::{lemma_int_range, lemma_len_subset, set_int_range};
use crate::color::ColorDraw;
use crate::engine::{
    all_in_grid, distinct_coords, in_grid, is_neighbor, seq_has_coord, spec_step_frontier,
    spec_step_placed, Cell, Coord, Engine,
};

verus! {

/// Chebyshev distance between two coordinates: the number of king moves
/// between them.
pub open spec fn chebyshev(a: Coord, b: Coord) -> int {
    let dx = if a.x >= b.x {
        a.x - b.x
    } else {
        b.x - a.x
    };
    let dy = if a.y >= b.y {
        a.y - b.y
    } else {
        b.y - a.y
    };
    if dx >= dy {
        dx
    } else {
        dy
    }
}

/// Whether every in-grid neighbor of a visited coordinate is itself
/// visited.
pub open spec fn seq_neighbor_closed(visited: Seq<Cell>, width: u16, height: u16) -> bool {
    forall|i: int, c: Coord|
        0 <= i < visited.len() && #[trigger] is_neighbor(visited[i].coord, c) && in_grid(
            c,
            width,
            height,
        ) ==> seq_has_coord(visited, c)
}

/// Once the visited set is closed under in-grid neighbors, every grid
/// coordinate within a given Chebyshev distance of a visited coordinate
/// is visited.
proof fn lemma_reach(visited: Seq<Cell>, width: u16, height: u16, a: Coord, b: Coord, d: int)
    requires
        seq_neighbor_closed(visited, width, height),
        seq_has_coord(visited, a),
        in_grid(a, width, height),
        in_grid(b, width, height),
        0 <= d,
        chebyshev(a, b) <= d,
    ensures
        seq_has_coord(visited, b),
    decreases d,
{
    if a.x == b.x && a.y == b.y {
        assert(b == a);
    } else {
        let a2 = Coord {
            x: if a.x < b.x {
                (a.x + 1) as u16
            } else if a.x > b.x {
                (a.x - 1) as u16
            } else {
                a.x
            },
            y: if a.y < b.y {
                (a.y + 1) as u16
            } else if a.y > b.y {
                (a.y - 1) as u16
            } else {
                a.y
            },
        };
        assert(is_neighbor(a, a2));
        assert(in_grid(a2, width, height));
        assert(chebyshev(a2, b) <= d - 1);
        let i = choose|i: int| 0 <= i < visited.len() && (#[trigger] visited[i]).coord == a;
        assert(is_neighbor(visited[i].coord, a2));
        lemma_reach(visited, width, height, a2, b, d - 1);
    }
}

/// Coverage law: when a cycle has run to completion — the frontier is
/// empty and at least one cell was placed — the visited set holds every
/// coordinate of the grid, each exactly once: every grid coordinate is
/// visited, every visited cell lies on the grid, and no coordinate is
/// visited twice.
pub proof fn lemma_cycle_coverage(e: &Engine)
    requires
        e.wf(),
        e.frontier().len() == 0,
        e.visited().len() >= 1,
    ensures
        forall|c: Coord|
            in_grid(c, e.spec_width(), e.spec_height()) ==> #[trigger] seq_has_coord(
                e.visited(),
                c,
            ),
        forall|i: int|
            0 <= i < e.visited().len() ==> in_grid(
                (#[trigger] e.visited()[i]).coord,
                e.spec_width(),
                e.spec_height(),
            ),
        distinct_coords(e.visited()),
{
    let w = e.spec_width();
    let h = e.spec_height();
    let vis = e.visited();
    assert forall|i: int, c: Coord|
        0 <= i < vis.len() && #[trigger] is_neighbor(vis[i].coord, c) && in_grid(
            c,
            w,
            h,
        ) implies seq_has_coord(vis, c) by {
        assert(is_neighbor(e.visited()[i].coord, c));
        assert(seq_has_coord(e.frontier(), c) || seq_has_coord(e.visited(), c));
    };
    let a = vis[0].coord;
    assert(seq_has_coord(vis, a));
    assert forall|c: Coord| in_grid(c, w, h) implies #[trigger] seq_has_coord(vis, c) by {
        lemma_reach(vis, w, h, a, c, chebyshev(a, c));
    };
}

/// The row-major position of a cell on a grid of the given height.
spec fn coord_key(cell: Cell, height: u16) -> int {
    cell.coord.x as int * height as int + cell.coord.y as int
}

/// The row-major positions of a sequence of cells.
spec fn keys_of(s: Seq<Cell>, height: u16) -> Seq<int> {
    s.map_values(|cell: Cell| coord_key(cell, height))
}

/// Distinct in-grid coordinates have distinct row-major positions, all
/// within the grid's area.
proof fn lemma_keys_unique_in_range(s: Seq<Cell>, width: u16, height: u16)
    requires
        distinct_coords(s),
        all_in_grid(s, width, height),
    ensures
        keys_of(s, height).len() == s.len(),
        keys_of(s, height).to_set().subset_of(
            set_int_range(0, width as int * height as int),
        ),
        keys_of(s, height).to_set().len() == s.len(),
{
    let h = height as int;
    let area = width as int * h;
    let keys = keys_of(s, height);
    assert forall|i: int, j: int|
        0 <= i < keys.len() && 0 <= j < keys.len() && i != j implies keys[i] != keys[j] by {
        let a = (if i < j {
            s[i]
        } else {
            s[j]
        }).coord;
        let b = (if i < j {
            s[j]
        } else {
            s[i]
        }).coord;
        assert(a != b);
        assert(a.x as int * h + a.y != b.x as int * h + b.y) by (nonlinear_arith)
            requires
                a.y < h,
                b.y < h,
                0 <= a.y,
                0 <= b.y,
                !(a.x == b.x && a.y == b.y),
        ;
    };
    keys.unique_seq_to_set();
    assert forall|k: int| keys.to_set().contains(k) implies set_int_range(0, area).contains(k) by {
        let i = choose|i: int| 0 <= i < keys.len() && keys[i] == k;
        let c = s[i].coord;
        assert(0 <= c.x as int * h + c.y < area) by (nonlinear_arith)
            requires
                0 <= c.x,
                0 <= c.y,
                c.x < width,
                c.y < h,
                area == width as int * h,
        ;
    };
}

/// A sequence of cells at distinct in-grid coordinates cannot hold more
/// cells than the grid has coordinates: the pigeonhole bound that also
/// bounds how long a cycle can run.
pub proof fn lemma_distinct_in_grid_len(s: Seq<Cell>, width: u16, height: u16)
    requires
        distinct_coords(s),
        all_in_grid(s, width, height),
    ensures
        s.len() <= width as int * height as int,
{
    let area = width as int * height as int;
    lemma_keys_unique_in_range(s, width, height);
    lemma_int_range(0, area);
    lemma_len_subset(keys_of(s, height).to_set(), set_int_range(0, area));
}

/// A sequence of cells at distinct coordinates that lies on the grid
/// and covers it holds exactly one cell per grid coordinate.
pub proof fn lemma_cover_exact_len(s: Seq<Cell>, width: u16, height: u16)
    requires
        width >= 1,
        height >= 1,
        distinct_coords(s),
        all_in_grid(s, width, height),
        forall|c: Coord| in_grid(c, width, height) ==> #[trigger] seq_has_coord(s, c),
    ensures
        s.len() == width as int * height as int,
{
    let h = height as int;
    let area = width as int * h;
    lemma_keys_unique_in_range(s, width, height);
    let keys = keys_of(s, height);
    assert forall|k: int| set_int_range(0, area).contains(k) implies keys.to_set().contains(k) by {
        let q = k / h;
        let r = k % h;
        vstd::arithmetic::div_mod::lemma_fundamental_div_mod(k, h);
        vstd::arithmetic::div_mod::lemma_mod_bound(k, h);
        vstd::arithmetic::div_mod::lemma_div_pos_is_pos(k, h);
        assert(q < width) by (nonlinear_arith)
            requires
                k == h * q + r,
                0 <= r < h,
                0 <= k < area,
                area == width as int * h,
                0 <= q,
        ;
        let c = Coord { x: q as u16, y: r as u16 };
        assert(c.x as int == q && c.y as int == r);
        assert(in_grid(c, width, height));
        assert(seq_has_coord(s, c));
        let i = choose|i: int| 0 <= i < s.len() && (#[trigger] s[i]).coord == c;
        assert(keys[i] == coord_key(s[i], height));
        assert(keys[i] == q * h + r);
        assert(k == h * q + r);
        assert(q * h == h * q) by (nonlinear_arith);
        assert(keys[i] == k);
        assert(keys.contains(k));
    };
    assert(keys.to_set() =~= set_int_range(0, area));
    lemma_int_range(0, area);
}

/// Exclusivity law: in a well-formed engine no coordinate is pending and
/// visited at the same time.
pub proof fn lemma_exclusivity(e: &Engine, c: Coord)
    requires
        e.wf(),
    ensures
        !(seq_has_coord(e.frontier(), c) && seq_has_coord(e.visited(), c)),
{
}

/// Determinism law: the step transition is a function of the pre-state
/// and the raw draws alone, so any two outcomes the step contract admits
/// for the same pre-state and the same draws are identical. A fixed
/// sequence of draws therefore reproduces an exact sequence of
/// placements.
pub proof fn lemma_step_deterministic(
    pre_frontier: Seq<Cell>,
    pre_visited: Seq<Cell>,
    index_raw: usize,
    draws: Seq<ColorDraw>,
    width: u16,
    height: u16,
    factor: u8,
    placed1: Cell,
    frontier1: Seq<Cell>,
    placed2: Cell,
    frontier2: Seq<Cell>,
)
    requires
        placed1 == spec_step_placed(pre_frontier, index_raw),
        frontier1 == spec_step_frontier(
            pre_frontier,
            pre_visited,
            index_raw,
            draws,
            width,
            height,
            factor,
        ),
        placed2 == spec_step_placed(pre_frontier, index_raw),
        frontier2 == spec_step_frontier(
            pre_frontier,
            pre_visited,
            index_raw,
            draws,
            width,
            height,
            factor,
        ),
    ensures
        placed1 == placed2,
        frontier1 == frontier2,
        pre_visited.push(placed1) == pre_visited.push(placed2),
{
}

} // verus!

