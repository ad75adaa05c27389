//! The frontier-expansion engine: the state of one fill cycle and the
//! operations that drive it, with the raw random values each operation
//! consumes passed in as explicit arguments.

use vstd::prelude::*;
use crate::color::{Color, ColorDraw, mutate, spec_mutate};

verus! {

/// Default width of the random color mutation band; bigger means more
/// randomness in the colors.
pub const RANDOM_FACTOR: u8 = 19;

/// Default upper bound on the number of randomly chosen starting points.
pub const MAX_STARTING_POINTS: usize = 3;

/// Default pause after each pixel placement, in milliseconds.
pub const PER_PIXEL_DELAY_MS: u64 = 1;

/// Default pause after completing a picture, in milliseconds.
pub const PAUSE_DELAY_MS: u64 = 5000;

/// Default key that quits the program.
pub const QUIT_KEY: char = 'q';

/// A grid coordinate: column and row, bounded by the terminal size.
#[derive(Clone, Copy, Debug, PartialEq, Eq, Structural)]
pub struct Coord {
    pub x: u16,
    pub y: u16,
}

/// A placed or pending pixel: a coordinate with its color.
#[derive(Clone, Copy, Debug, PartialEq, Eq, Structural)]
pub struct Cell {
    pub coord: Coord,
    pub color: Color,
}

/// The raw random values one seed consumes: a position, reduced modulo
/// the grid size, and a color taken verbatim.
#[derive(Clone, Copy, Debug, PartialEq, Eq, Structural)]
pub struct SeedDraw {
    pub x_raw: u16,
    pub y_raw: u16,
    pub r: u8,
    pub g: u8,
    pub b: u8,
}

/// The fixed configuration of the engine, passed in at construction so
/// that extreme values stay testable.
#[derive(Clone, Copy, Debug)]
pub struct Config {
    pub random_factor: u8,
    pub max_starting_points: usize,
    pub per_pixel_delay_ms: u64,
    pub pause_delay_ms: u64,
    pub quit_key: char,
}

impl Config {
    /// A configuration is usable when at least one starting point is
    /// allowed.
    pub open spec fn wf(&self) -> bool {
        self.max_starting_points >= 1
    }

    /// The quit decision: a key event quits exactly when it is a press
    /// of the configured quit key, whatever the modifier state.
    pub fn is_quit_event(&self, key: char, is_press: bool) -> (r: bool)
        ensures
            r == (is_press && key == self.quit_key),
    {
        is_press && key == self.quit_key
    }

    /// The configuration the animation ships with.
    pub fn standard() -> (r: Config)
        ensures
            r.wf(),
            r.random_factor == RANDOM_FACTOR,
            r.max_starting_points == MAX_STARTING_POINTS,
            r.per_pixel_delay_ms == PER_PIXEL_DELAY_MS,
            r.pause_delay_ms == PAUSE_DELAY_MS,
            r.quit_key == QUIT_KEY,
    {
        Config {
            random_factor: RANDOM_FACTOR,
            max_starting_points: MAX_STARTING_POINTS,
            per_pixel_delay_ms: PER_PIXEL_DELAY_MS,
            pause_delay_ms: PAUSE_DELAY_MS,
            quit_key: QUIT_KEY,
        }
    }
}

/// Whether a coordinate lies on the grid.
pub open spec fn in_grid(c: Coord, width: u16, height: u16) -> bool {
    c.x < width && c.y < height
}

/// Whether some cell of the sequence sits at the given coordinate.
pub open spec fn seq_has_coord(s: Seq<Cell>, c: Coord) -> bool {
    exists|i: int| 0 <= i < s.len() && (#[trigger] s[i]).coord == c
}

/// Whether the cells of the sequence all sit at distinct coordinates.
pub open spec fn distinct_coords(s: Seq<Cell>) -> bool {
    forall|i: int, j: int|
        0 <= i < j < s.len() ==> (#[trigger] s[i]).coord != (#[trigger] s[j]).coord
}

/// Whether no coordinate occurs in both sequences.
pub open spec fn disjoint_coords(a: Seq<Cell>, b: Seq<Cell>) -> bool {
    forall|c: Coord| #[trigger] seq_has_coord(a, c) ==> !seq_has_coord(b, c)
}

/// Whether every cell of the sequence lies on the grid.
pub open spec fn all_in_grid(s: Seq<Cell>, width: u16, height: u16) -> bool {
    forall|i: int| 0 <= i < s.len() ==> in_grid((#[trigger] s[i]).coord, width, height)
}

/// Whether two coordinates are distinct and adjacent, diagonals included.
pub open spec fn is_neighbor(a: Coord, b: Coord) -> bool {
    &&& !(a.x == b.x && a.y == b.y)
    &&& -1 <= b.x - a.x <= 1
    &&& -1 <= b.y - a.y <= 1
}

/// The eight neighbor offsets, in the order the engine considers them:
/// row above, own row, row below, each left to right.
pub open spec fn offsets() -> Seq<(int, int)> {
    seq![
        (-1int, -1int),
        (0int, -1int),
        (1int, -1int),
        (-1int, 0int),
        (1int, 0int),
        (-1int, 1int),
        (0int, 1int),
        (1int, 1int),
    ]
}

/// Whether the neighbor of `c` at the given offset lies on the grid.
pub open spec fn offset_in_grid(c: Coord, off: (int, int), width: u16, height: u16) -> bool {
    &&& 0 <= c.x + off.0 < width
    &&& 0 <= c.y + off.1 < height
}

/// The neighbor of `c` at the given offset.
pub open spec fn offset_coord(c: Coord, off: (int, int)) -> Coord {
    Coord { x: (c.x + off.0) as u16, y: (c.y + off.1) as u16 }
}

/// The cell a seed draw denotes on a grid of the given size.
pub open spec fn seed_cell(d: SeedDraw, width: u16, height: u16) -> Cell {
    Cell {
        coord: Coord {
            x: (d.x_raw as int % width as int) as u16,
            y: (d.y_raw as int % height as int) as u16,
        },
        color: Color { r: d.r, g: d.g, b: d.b },
    }
}

/// The frontier after inserting the first `k` seed draws in order; a draw
/// whose coordinate repeats an earlier one is skipped, so coordinates
/// stay distinct.
pub open spec fn spec_seed(
    todo: Seq<Cell>,
    draws: Seq<SeedDraw>,
    k: int,
    width: u16,
    height: u16,
) -> Seq<Cell>
    decreases k,
{
    if k <= 0 {
        todo
    } else {
        let prev = spec_seed(todo, draws, k - 1, width, height);
        let c = seed_cell(draws[k - 1], width, height);
        if seq_has_coord(prev, c.coord) {
            prev
        } else {
            prev.push(c)
        }
    }
}

/// The frontier after considering one neighbor offset of the parent
/// cell: an in-grid neighbor missing from both sets is enqueued with a
/// color mutated from the parent's; anything else leaves the frontier
/// unchanged.
pub open spec fn spec_consider(
    todo: Seq<Cell>,
    visited: Seq<Cell>,
    parent: Cell,
    off: (int, int),
    draw: ColorDraw,
    width: u16,
    height: u16,
    factor: u8,
) -> Seq<Cell> {
    let c = offset_coord(parent.coord, off);
    if offset_in_grid(parent.coord, off, width, height) && !seq_has_coord(visited, c)
        && !seq_has_coord(todo, c) {
        todo.push(Cell { coord: c, color: spec_mutate(parent.color, draw, factor) })
    } else {
        todo
    }
}

/// The frontier after considering the first `k` neighbor offsets of the
/// parent cell in order, the offset at index `j` consuming the draw at
/// index `j`.
pub open spec fn spec_expand(
    todo: Seq<Cell>,
    visited: Seq<Cell>,
    parent: Cell,
    draws: Seq<ColorDraw>,
    k: int,
    width: u16,
    height: u16,
    factor: u8,
) -> Seq<Cell>
    decreases k,
{
    if k <= 0 {
        todo
    } else {
        spec_consider(
            spec_expand(todo, visited, parent, draws, k - 1, width, height, factor),
            visited,
            parent,
            offsets()[k - 1],
            draws[k - 1],
            width,
            height,
            factor,
        )
    }
}

/// The cell a step places: the pending cell selected by the raw index,
/// reduced modulo the frontier's size.
pub open spec fn spec_step_placed(pre_frontier: Seq<Cell>, index_raw: usize) -> Cell {
    pre_frontier[index_raw as int % pre_frontier.len() as int]
}

/// The frontier a step leaves behind: the selected cell swap-removed,
/// then each of its eight neighbor offsets considered in order.
pub open spec fn spec_step_frontier(
    pre_frontier: Seq<Cell>,
    pre_visited: Seq<Cell>,
    index_raw: usize,
    draws: Seq<ColorDraw>,
    width: u16,
    height: u16,
    factor: u8,
) -> Seq<Cell> {
    let idx = index_raw as int % pre_frontier.len() as int;
    let parent = pre_frontier[idx];
    let removed = pre_frontier.update(idx, pre_frontier.last()).drop_last();
    spec_expand(removed, pre_visited.push(parent), parent, draws, 8, width, height, factor)
}

/// Whether any cell in `points` sits at the given coordinate.
pub fn has_coordinates(coords: Coord, points: &Vec<Cell>) -> (r: bool)
    ensures
        r == seq_has_coord(points@, coords),
{
    let mut i: usize = 0;
    while i < points.len()
        invariant
            i <= points@.len(),
            forall|j: int| 0 <= j < i ==> (#[trigger] points@[j]).coord != coords,
        decreases points@.len() - i,
    {
        if points[i].coord == coords {
            return true;
        }
        i += 1;
    }
    false
}

/// The engine that runs one fill cycle: the frontier of pending cells
/// (`todo`), the cells already rendered this cycle (`already_did`), the
/// grid it fills, and its configuration.
pub struct Engine {
    config: Config,
    width: u16,
    height: u16,
    todo: Vec<Cell>,
    already_did: Vec<Cell>,
}

impl Engine {
    /// The frontier: cells pending rendering, in selection storage order.
    pub closed spec fn frontier(&self) -> Seq<Cell> {
        self.todo@
    }

    /// The visited set: cells already placed this cycle, in placement
    /// order.
    pub closed spec fn visited(&self) -> Seq<Cell> {
        self.already_did@
    }

    /// The grid width this cycle fills.
    pub closed spec fn spec_width(&self) -> u16 {
        self.width
    }

    /// The grid height this cycle fills.
    pub closed spec fn spec_height(&self) -> u16 {
        self.height
    }

    /// The engine's configuration.
    pub closed spec fn spec_config(&self) -> Config {
        self.config
    }

    /// Every in-grid neighbor of a visited cell is pending or visited:
    /// nothing reachable is ever forgotten.
    pub open spec fn neighbor_closed(&self) -> bool {
        forall|i: int, c: Coord|
            0 <= i < self.visited().len() && #[trigger] is_neighbor(self.visited()[i].coord, c)
                && in_grid(c, self.spec_width(), self.spec_height())
                ==> seq_has_coord(self.frontier(), c) || seq_has_coord(self.visited(), c)
    }

    /// The engine invariant: a usable configuration, a nonempty grid, all
    /// cells on the grid, distinct coordinates within each set, no
    /// coordinate in both sets at once, and the visited set closed under
    /// in-grid neighbors up to the frontier.
    pub open spec fn wf(&self) -> bool {
        &&& self.spec_config().wf()
        &&& self.spec_width() >= 1
        &&& self.spec_height() >= 1
        &&& all_in_grid(self.frontier(), self.spec_width(), self.spec_height())
        &&& all_in_grid(self.visited(), self.spec_width(), self.spec_height())
        &&& distinct_coords(self.frontier())
        &&& distinct_coords(self.visited())
        &&& disjoint_coords(self.frontier(), self.visited())
        &&& self.neighbor_closed()
    }

    /// A fresh engine with both sets empty.
    pub fn new(config: Config, width: u16, height: u16) -> (r: Engine)
        requires
            config.wf(),
            width >= 1,
            height >= 1,
        ensures
            r.wf(),
            r.spec_config() == config,
            r.spec_width() == width,
            r.spec_height() == height,
            r.frontier().len() == 0,
            r.visited().len() == 0,
    {
        Engine { config, width, height, todo: Vec::new(), already_did: Vec::new() }
    }

    /// Whether the current cycle is complete: nothing is pending.
    pub fn cycle_done(&self) -> (r: bool)
        ensures
            r == (self.frontier().len() == 0),
    {
        self.todo.len() == 0
    }

    /// The engine's configuration.
    pub fn config(&self) -> (r: Config)
        ensures
            r == self.spec_config(),
    {
        self.config
    }

    /// The grid width this cycle fills.
    pub fn width(&self) -> (r: u16)
        ensures
            r == self.spec_width(),
    {
        self.width
    }

    /// The grid height this cycle fills.
    pub fn height(&self) -> (r: u16)
        ensures
            r == self.spec_height(),
    {
        self.height
    }

    /// How many cells are pending.
    pub fn frontier_len(&self) -> (r: usize)
        ensures
            r == self.frontier().len(),
    {
        self.todo.len()
    }

    /// How many cells have been placed this cycle.
    pub fn visited_len(&self) -> (r: usize)
        ensures
            r == self.visited().len(),
    {
        self.already_did.len()
    }

    /// The pending cell at the given storage index.
    pub fn frontier_cell(&self, i: usize) -> (r: Cell)
        requires
            i < self.frontier().len(),
        ensures
            r == self.frontier()[i as int],
    {
        self.todo[i]
    }

    /// The placed cell at the given placement index.
    pub fn visited_cell(&self, i: usize) -> (r: Cell)
        requires
            i < self.visited().len(),
        ensures
            r == self.visited()[i as int],
    {
        self.already_did[i]
    }

    /// Begin a new fill cycle: adopt fresh grid dimensions, clear both
    /// sets, and insert one seed per draw, skipping a draw whose
    /// coordinate repeats an earlier seed's.
    pub fn start_cycle(&mut self, width: u16, height: u16, draws: &Vec<SeedDraw>)
        requires
            old(self).spec_config().wf(),
            width >= 1,
            height >= 1,
            draws@.len() >= 1,
        ensures
            final(self).wf(),
            final(self).spec_config() == old(self).spec_config(),
            final(self).spec_width() == width,
            final(self).spec_height() == height,
            final(self).visited().len() == 0,
            final(self).frontier() == spec_seed(
                Seq::<Cell>::empty(),
                draws@,
                draws@.len() as int,
                width,
                height,
            ),
            1 <= final(self).frontier().len() <= draws@.len(),
    {
        self.width = width;
        self.height = height;
        self.todo = Vec::new();
        self.already_did = Vec::new();
        let ghost cfg = self.config;
        let mut k: usize = 0;
        while k < draws.len()
            invariant
                k <= draws@.len(),
                width >= 1,
                height >= 1,
                self.config == cfg,
                self.width == width,
                self.height == height,
                self.already_did@.len() == 0,
                self.todo@ == spec_seed(Seq::<Cell>::empty(), draws@, k as int, width, height),
            decreases draws@.len() - k,
        {
            let d = draws[k];
            let cell = Cell {
                coord: Coord { x: d.x_raw % width, y: d.y_raw % height },
                color: Color { r: d.r, g: d.g, b: d.b },
            };
            assert(cell == seed_cell(draws@[k as int], width, height));
            if !has_coordinates(cell.coord, &self.todo) {
                self.todo.push(cell);
            }
            k += 1;
        }
        proof {
            lemma_seed_props(Seq::<Cell>::empty(), draws@, draws@.len() as int, width, height);
        }
    }

    /// One fill step. If a quit signal is pending at this step boundary,
    /// nothing changes and nothing is placed. Otherwise the raw index
    /// selects a pending cell (reduced modulo the frontier's size), that
    /// cell is swap-removed from the frontier and appended to the
    /// visited set, each of its eight neighbors still absent from both
    /// sets is enqueued with a color mutated from the placed cell's,
    /// and the placed cell is returned for rendering.
    pub fn step(&mut self, quit_pending: bool, index_raw: usize, draws: &Vec<ColorDraw>) -> (r:
        Option<Cell>)
        requires
            old(self).wf(),
            old(self).frontier().len() >= 1,
            draws@.len() == 8,
        ensures
            final(self).wf(),
            final(self).spec_config() == old(self).spec_config(),
            final(self).spec_width() == old(self).spec_width(),
            final(self).spec_height() == old(self).spec_height(),
            quit_pending ==> r is None && *final(self) == *old(self),
            !quit_pending ==> ({
                let placed = spec_step_placed(old(self).frontier(), index_raw);
                &&& r == Some(placed)
                &&& final(self).visited() == old(self).visited().push(placed)
                &&& final(self).frontier() == spec_step_frontier(
                    old(self).frontier(),
                    old(self).visited(),
                    index_raw,
                    draws@,
                    old(self).spec_width(),
                    old(self).spec_height(),
                    old(self).spec_config().random_factor,
                )
            }),
            !quit_pending ==> final(self).visited().len() == old(self).visited().len() + 1,
    {
        if quit_pending {
            return None;
        }
        let ghost pre = *old(self);
        let index = index_raw % self.todo.len();
        let ghost idx = index as int;
        let parent = self.todo.swap_remove(index);
        proof {
            lemma_swap_removed(pre.frontier(), idx);
            assert(seq_has_coord(pre.frontier(), parent.coord));
            lemma_push_coord(pre.visited(), parent);
            lemma_distinct_push(pre.visited(), parent);
        }
        self.already_did.push(parent);
        let ghost todo0 = self.todo@;
        let ghost vis = self.already_did@;
        let ghost w0 = self.width;
        let ghost h0 = self.height;
        let ghost cfg = self.config;
        let factor = self.config.random_factor;
        let mut k: usize = 0;
        while k < 8
            invariant
                k <= 8,
                draws@.len() == 8,
                self.config == cfg,
                self.width == w0,
                self.height == h0,
                self.already_did@ == vis,
                factor == cfg.random_factor,
                in_grid(parent.coord, w0, h0),
                self.todo@ == spec_expand(todo0, vis, parent, draws@, k as int, w0, h0, factor),
            decreases 8 - k,
        {
            let (dx, dy) = offset_at(k);
            let ghost off = offsets()[k as int];
            let nx = parent.coord.x as i32 + dx;
            let ny = parent.coord.y as i32 + dy;
            if nx >= 0 && ny >= 0 && nx < self.width as i32 && ny < self.height as i32 {
                let nc = Coord { x: nx as u16, y: ny as u16 };
                proof {
                    assert(offset_in_grid(parent.coord, off, w0, h0));
                    assert(nc == offset_coord(parent.coord, off));
                }
                if !has_coordinates(nc, &self.already_did) && !has_coordinates(nc, &self.todo) {
                    let child = mutate(parent.color, draws[k], factor);
                    self.todo.push(Cell { coord: nc, color: child });
                }
            } else {
                proof {
                    assert(!offset_in_grid(parent.coord, off, w0, h0));
                }
            }
            k += 1;
        }
        proof {
            lemma_expand_props(todo0, vis, parent, draws@, 8, w0, h0, factor);
            let e = self.todo@;
            assert forall|i: int, c: Coord|
                0 <= i < vis.len() && #[trigger] is_neighbor(vis[i].coord, c) && in_grid(
                    c,
                    w0,
                    h0,
                ) implies seq_has_coord(e, c) || seq_has_coord(vis, c) by {
                if i < pre.visited().len() {
                    assert(vis[i] == pre.visited()[i]);
                    assert(is_neighbor(pre.visited()[i].coord, c));
                    assert(seq_has_coord(pre.frontier(), c) || seq_has_coord(pre.visited(), c));
                    if seq_has_coord(pre.visited(), c) {
                        assert(seq_has_coord(vis, c));
                    } else {
                        assert(seq_has_coord(pre.frontier(), c));
                        if c == parent.coord {
                            assert(seq_has_coord(vis, c));
                        } else {
                            assert(seq_has_coord(todo0, c));
                            assert(seq_has_coord(e, c));
                        }
                    }
                } else {
                    assert(vis[i] == parent);
                    lemma_neighbor_is_offset(parent.coord, c);
                    let j = choose|j: int|
                        0 <= j < 8 && offset_coord(parent.coord, #[trigger] offsets()[j]) == c
                            && offsets()[j].0 == c.x - parent.coord.x && offsets()[j].1 == c.y
                            - parent.coord.y;
                    assert(offset_in_grid(parent.coord, offsets()[j], w0, h0));
                    assert(seq_has_coord(e, offset_coord(parent.coord, offsets()[j]))
                        || seq_has_coord(vis, offset_coord(parent.coord, offsets()[j])));
                }
            };
        }
        Some(parent)
    }
}

/// The neighbor offset at the given index, as machine integers.
fn offset_at(k: usize) -> (r: (i32, i32))
    requires
        k < 8,
    ensures
        r.0 as int == offsets()[k as int].0,
        r.1 as int == offsets()[k as int].1,
{
    proof {
        assert(offsets()[0] == (-1int, -1int));
        assert(offsets()[1] == (0int, -1int));
        assert(offsets()[2] == (1int, -1int));
        assert(offsets()[3] == (-1int, 0int));
        assert(offsets()[4] == (1int, 0int));
        assert(offsets()[5] == (-1int, 1int));
        assert(offsets()[6] == (0int, 1int));
        assert(offsets()[7] == (1int, 1int));
    }
    if k == 0 {
        (-1, -1)
    } else if k == 1 {
        (0, -1)
    } else if k == 2 {
        (1, -1)
    } else if k == 3 {
        (-1, 0)
    } else if k == 4 {
        (1, 0)
    } else if k == 5 {
        (-1, 1)
    } else if k == 6 {
        (0, 1)
    } else {
        (1, 1)
    }
}

/// Pushing a cell extends coordinate membership by exactly that cell's
/// coordinate.
proof fn lemma_push_coord(s: Seq<Cell>, x: Cell)
    ensures
        forall|c: Coord|
            #[trigger] seq_has_coord(s.push(x), c) <==> (seq_has_coord(s, c) || x.coord == c),
{
    assert forall|c: Coord| #[trigger] seq_has_coord(s.push(x), c) implies (seq_has_coord(s, c)
        || x.coord == c) by {
        let i = choose|i: int| 0 <= i < s.push(x).len() && (#[trigger] s.push(x)[i]).coord == c;
        if i < s.len() {
            assert(s[i] == s.push(x)[i]);
            assert(seq_has_coord(s, c));
        }
    };
    assert forall|c: Coord| (seq_has_coord(s, c) || x.coord == c) implies #[trigger] seq_has_coord(
        s.push(x),
        c,
    ) by {
        if x.coord == c {
            assert((s.push(x)[s.len() as int]).coord == c);
        } else {
            let i = choose|i: int| 0 <= i < s.len() && (#[trigger] s[i]).coord == c;
            assert((s.push(x)[i]).coord == c);
        }
    };
}

/// Pushing a cell at a fresh coordinate keeps coordinates distinct.
proof fn lemma_distinct_push(s: Seq<Cell>, x: Cell)
    requires
        distinct_coords(s),
        !seq_has_coord(s, x.coord),
    ensures
        distinct_coords(s.push(x)),
{
    assert forall|i: int, j: int| 0 <= i < j < s.push(x).len() implies (#[trigger] s.push(
        x,
    )[i]).coord != (#[trigger] s.push(x)[j]).coord by {
        if j == s.len() {
            assert(s.push(x)[i] == s[i]);
            assert(seq_has_coord(s, s[i].coord));
        }
    };
}

/// What swap-removal leaves behind, when coordinates are distinct: every
/// cell but the selected one, each keeping its identity, and the
/// selected coordinate gone.
proof fn lemma_swap_removed(s: Seq<Cell>, idx: int)
    requires
        0 <= idx < s.len(),
        distinct_coords(s),
    ensures
        ({
            let r = s.update(idx, s.last()).drop_last();
            &&& r.len() == s.len() - 1
            &&& distinct_coords(r)
            &&& (forall|j: int|
                0 <= j < r.len() ==> #[trigger] r[j] == (if j == idx {
                    s[s.len() - 1]
                } else {
                    s[j]
                }))
            &&& (forall|c: Coord|
                #[trigger] seq_has_coord(r, c) ==> seq_has_coord(s, c) && c != s[idx].coord)
            &&& (forall|c: Coord|
                seq_has_coord(s, c) && c != s[idx].coord ==> #[trigger] seq_has_coord(r, c))
        }),
{
    let r = s.update(idx, s.last()).drop_last();
    assert forall|c: Coord| #[trigger] seq_has_coord(r, c) implies seq_has_coord(s, c) && c
        != s[idx].coord by {
        let i = choose|i: int| 0 <= i < r.len() && (#[trigger] r[i]).coord == c;
        if i == idx {
            assert((s[s.len() - 1]).coord == c);
            assert(seq_has_coord(s, c));
            assert(idx < s.len() - 1);
        } else {
            assert(s[i].coord == c);
            assert(seq_has_coord(s, c));
        }
    };
    assert forall|c: Coord| seq_has_coord(s, c) && c != s[idx].coord implies #[trigger] seq_has_coord(
        r,
        c,
    ) by {
        let i = choose|i: int| 0 <= i < s.len() && (#[trigger] s[i]).coord == c;
        if i < s.len() - 1 {
            assert(r[i].coord == c);
        } else {
            assert(r[idx].coord == c);
        }
    };
}

/// The eight offsets are the eight nonzero king moves.
proof fn lemma_offsets_facts()
    ensures
        offsets().len() == 8,
        forall|j: int|
            0 <= j < 8 ==> -1 <= (#[trigger] offsets()[j]).0 <= 1 && -1 <= offsets()[j].1 <= 1 && !(
            offsets()[j].0 == 0 && offsets()[j].1 == 0),
{
    assert(offsets()[0] == (-1int, -1int));
    assert(offsets()[1] == (0int, -1int));
    assert(offsets()[2] == (1int, -1int));
    assert(offsets()[3] == (-1int, 0int));
    assert(offsets()[4] == (1int, 0int));
    assert(offsets()[5] == (-1int, 1int));
    assert(offsets()[6] == (0int, 1int));
    assert(offsets()[7] == (1int, 1int));
}

/// Every neighbor of a coordinate is reached by one of the eight
/// offsets.
proof fn lemma_neighbor_is_offset(p: Coord, c: Coord)
    requires
        is_neighbor(p, c),
    ensures
        exists|j: int|
            0 <= j < 8 && offset_coord(p, #[trigger] offsets()[j]) == c && offsets()[j].0 == c.x
                - p.x && offsets()[j].1 == c.y - p.y,
{
    lemma_offsets_facts();
    let dx: int = c.x - p.x;
    let dy: int = c.y - p.y;
    let j: int = if dy == -1 {
        dx + 1
    } else if dy == 0 {
        if dx == -1 {
            3
        } else {
            4
        }
    } else {
        dx + 6
    };
    assert(0 <= j < 8);
    assert(offsets()[j].0 == dx && offsets()[j].1 == dy);
    assert(offset_coord(p, offsets()[j]) == c);
}

/// Expanding preserves the frontier's well-formedness; what it adds are
/// exactly in-grid neighbors of the parent that neither set held, and
/// every in-grid neighbor at an offset already considered ends up
/// pending or visited.
proof fn lemma_expand_props(
    todo: Seq<Cell>,
    visited: Seq<Cell>,
    parent: Cell,
    draws: Seq<ColorDraw>,
    k: int,
    width: u16,
    height: u16,
    factor: u8,
)
    requires
        0 <= k <= 8,
        distinct_coords(todo),
        all_in_grid(todo, width, height),
        disjoint_coords(todo, visited),
    ensures
        ({
            let e = spec_expand(todo, visited, parent, draws, k, width, height, factor);
            &&& distinct_coords(e)
            &&& all_in_grid(e, width, height)
            &&& disjoint_coords(e, visited)
            &&& (forall|c: Coord| seq_has_coord(todo, c) ==> #[trigger] seq_has_coord(e, c))
            &&& (forall|c: Coord|
                #[trigger] seq_has_coord(e, c) ==> seq_has_coord(todo, c) || (is_neighbor(
                    parent.coord,
                    c,
                ) && in_grid(c, width, height)))
            &&& (forall|j: int|
                0 <= j < k && offset_in_grid(parent.coord, #[trigger] offsets()[j], width, height)
                    ==> seq_has_coord(e, offset_coord(parent.coord, offsets()[j]))
                    || seq_has_coord(visited, offset_coord(parent.coord, offsets()[j])))
        }),
    decreases k,
{
    lemma_offsets_facts();
    if k > 0 {
        lemma_expand_props(todo, visited, parent, draws, k - 1, width, height, factor);
        let prev = spec_expand(todo, visited, parent, draws, k - 1, width, height, factor);
        let off = offsets()[k - 1];
        let e = spec_expand(todo, visited, parent, draws, k, width, height, factor);
        let c = offset_coord(parent.coord, off);
        if offset_in_grid(parent.coord, off, width, height) && !seq_has_coord(visited, c)
            && !seq_has_coord(prev, c) {
            let x = Cell { coord: c, color: spec_mutate(parent.color, draws[k - 1], factor) };
            assert(e == prev.push(x));
            assert(in_grid(c, width, height));
            assert(is_neighbor(parent.coord, c));
            lemma_distinct_push(prev, x);
            lemma_push_coord(prev, x);
        } else {
            assert(e == prev);
        }
    }
}

/// Seeding keeps the frontier well formed: coordinates stay distinct and
/// on the grid, and the frontier grows by at most one cell per draw, by
/// at least one overall once any draw has been inserted.
proof fn lemma_seed_props(todo: Seq<Cell>, draws: Seq<SeedDraw>, k: int, width: u16, height: u16)
    requires
        0 <= k <= draws.len(),
        width >= 1,
        height >= 1,
        distinct_coords(todo),
        all_in_grid(todo, width, height),
    ensures
        ({
            let r = spec_seed(todo, draws, k, width, height);
            &&& distinct_coords(r)
            &&& all_in_grid(r, width, height)
            &&& todo.len() <= r.len() <= todo.len() + k
            &&& (k >= 1 || todo.len() >= 1 ==> r.len() >= 1)
        }),
    decreases k,
{
    if k > 0 {
        lemma_seed_props(todo, draws, k - 1, width, height);
        let prev = spec_seed(todo, draws, k - 1, width, height);
        let c = seed_cell(draws[k - 1], width, height);
        assert(in_grid(c.coord, width, height));
        if !seq_has_coord(prev, c.coord) {
            let r = prev.push(c);
            assert forall|i: int, j: int| 0 <= i < j < r.len() implies (#[trigger] r[i]).coord
                != (#[trigger] r[j]).coord by {
                if j == r.len() - 1 {
                    assert(seq_has_coord(prev, prev[i].coord));
                }
            }
        }
    }
}

} // verus!
