//! The live random source: thin draws from the `rand` crate, and the
//! engine operations driven by them. Everything the engine does with a
//! draw is verified for every value the draw could take.

use vstd::prelude::*;
use crate::color::ColorDraw;
use crate::engine::{
    all_in_grid, distinct_coords, in_grid, seq_has_coord, spec_step_frontier, spec_step_placed,
    Cell, Coord, Engine, SeedDraw,
};
use crate::laws::{lemma_cover_exact_len, lemma_cycle_coverage, lemma_distinct_in_grid_len};

verus! {

/// Relies on rand::random: a value of the asked type from the
/// thread-local generator. Nothing can be promised of a random value,
/// so no clause says more.
pub assume_specification<T>[ rand::random::<T> ]() -> (r: T)
    where
        rand::distributions::Standard: rand::distributions::Distribution<T>,
;

/// One random triple of color-mutation bytes.
pub fn random_color_draw() -> ColorDraw {
    ColorDraw { r: rand::random::<u8>(), g: rand::random::<u8>(), b: rand::random::<u8>() }
}

/// One random seed draw: a raw position and a uniformly random color.
pub fn random_seed_draw() -> SeedDraw {
    SeedDraw {
        x_raw: rand::random::<u16>(),
        y_raw: rand::random::<u16>(),
        r: rand::random::<u8>(),
        g: rand::random::<u8>(),
        b: rand::random::<u8>(),
    }
}

/// Begin a cycle as the live animation does: a uniformly random seed
/// count between 1 and the configured maximum, each seed at a random
/// position with a random color.
pub fn start_cycle_random(e: &mut Engine, width: u16, height: u16)
    requires
        old(e).spec_config().wf(),
        width >= 1,
        height >= 1,
    ensures
        final(e).wf(),
        final(e).spec_config() == old(e).spec_config(),
        final(e).spec_width() == width,
        final(e).spec_height() == height,
        final(e).visited().len() == 0,
        1 <= final(e).frontier().len() <= old(e).spec_config().max_starting_points,
{
    let max = e.config().max_starting_points;
    let n = rand::random::<usize>() % max + 1;
    let mut draws: Vec<SeedDraw> = Vec::new();
    let mut i: usize = 0;
    while i < n
        invariant
            i <= n,
            draws@.len() == i,
        decreases n - i,
    {
        draws.push(random_seed_draw());
        i += 1;
    }
    e.start_cycle(width, height, &draws);
}

/// One step as the live animation takes it: hand in the quit flag
/// observed at this step boundary; the selection index and the eight
/// color-mutation triples come from rand. Whatever the draws were, the
/// step obeys the step contract for some raw index and draw sequence.
pub fn step_random(e: &mut Engine, quit_pending: bool) -> (r: Option<Cell>)
    requires
        old(e).wf(),
        old(e).frontier().len() >= 1,
    ensures
        final(e).wf(),
        final(e).spec_config() == old(e).spec_config(),
        final(e).spec_width() == old(e).spec_width(),
        final(e).spec_height() == old(e).spec_height(),
        quit_pending ==> r is None && *final(e) == *old(e),
        !quit_pending ==> r is Some && final(e).visited().len() == old(e).visited().len() + 1,
        !quit_pending ==> (match r {
            Some(placed) => final(e).visited() == old(e).visited().push(placed),
            None => false,
        }),
        !quit_pending ==> exists|iraw: usize, ds: Seq<ColorDraw>|
            {
                &&& ds.len() == 8
                &&& r == Some(spec_step_placed(old(e).frontier(), iraw))
                &&& final(e).visited() == old(e).visited().push(
                    spec_step_placed(old(e).frontier(), iraw),
                )
                &&& final(e).frontier() == #[trigger] spec_step_frontier(
                    old(e).frontier(),
                    old(e).visited(),
                    iraw,
                    ds,
                    old(e).spec_width(),
                    old(e).spec_height(),
                    old(e).spec_config().random_factor,
                )
            },
{
    let index_raw = rand::random::<usize>();
    let mut draws: Vec<ColorDraw> = Vec::new();
    let mut i: usize = 0;
    while i < 8
        invariant
            i <= 8,
            draws@.len() == i,
        decreases 8 - i,
    {
        draws.push(random_color_draw());
        i += 1;
    }
    let r = e.step(quit_pending, index_raw, &draws);
    proof {
        if !quit_pending {
            assert(e.frontier() == spec_step_frontier(
                old(e).frontier(),
                old(e).visited(),
                index_raw,
                draws@,
                old(e).spec_width(),
                old(e).spec_height(),
                old(e).spec_config().random_factor,
            ));
        }
    }
    r
}

/// Run one whole fill cycle headless: seed randomly, then step with
/// random draws until the frontier is empty, collecting the placements
/// in order. The result covers every grid coordinate exactly once. The
/// live animation instead takes one step at a time, so it can render,
/// pause and poll for quit between placements.
pub fn fill_cycle(e: &mut Engine, width: u16, height: u16) -> (placements: Vec<Cell>)
    requires
        old(e).spec_config().wf(),
        width >= 1,
        height >= 1,
    ensures
        final(e).wf(),
        final(e).frontier().len() == 0,
        placements@ == final(e).visited(),
        distinct_coords(placements@),
        all_in_grid(placements@, width, height),
        forall|c: Coord| in_grid(c, width, height) ==> #[trigger] seq_has_coord(placements@, c),
        placements@.len() == width as int * height as int,
{
    start_cycle_random(e, width, height);
    let ghost cfg = e.spec_config();
    let mut placements: Vec<Cell> = Vec::new();
    proof {
        lemma_distinct_in_grid_len(e.visited(), width, height);
    }
    while !e.cycle_done()
        invariant
            e.wf(),
            e.spec_width() == width,
            e.spec_height() == height,
            e.spec_config() == cfg,
            placements@ == e.visited(),
            e.frontier().len() + e.visited().len() >= 1,
            e.visited().len() <= width as int * height as int,
        decreases width as int * height as int - e.visited().len(),
    {
        let placed = step_random(e, false).unwrap();
        placements.push(placed);
        proof {
            lemma_distinct_in_grid_len(e.visited(), width, height);
        }
    }
    proof {
        lemma_cycle_coverage(e);
        lemma_cover_exact_len(e.visited(), width, height);
    }
    placements
}

} // verus!
