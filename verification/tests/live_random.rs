use termflood::engine::{Config, Engine};
use termflood::rng::{fill_cycle, random_color_draw, random_seed_draw, start_cycle_random, step_random};

#[test]
fn fill_cycle_covers_grid_exactly_once() {
    let (w, h) = (6u16, 3u16);
    let mut e = Engine::new(Config::standard(), w, h);
    let placements = fill_cycle(&mut e, w, h);
    assert!(e.cycle_done());
    assert_eq!(placements.len(), (w as usize) * (h as usize));
    let mut coords: Vec<(u16, u16)> = placements.iter().map(|c| (c.coord.x, c.coord.y)).collect();
    coords.sort();
    coords.dedup();
    assert_eq!(coords.len(), (w as usize) * (h as usize));
    for x in 0..w {
        for y in 0..h {
            assert!(coords.contains(&(x, y)));
        }
    }
}

#[test]
fn random_start_cycle_respects_seed_bounds() {
    for _ in 0..50 {
        let mut e = Engine::new(Config::standard(), 8, 5);
        start_cycle_random(&mut e, 8, 5);
        assert_eq!(e.visited_len(), 0);
        let n = e.frontier_len();
        assert!((1..=3).contains(&n));
        for i in 0..n {
            let cell = e.frontier_cell(i);
            assert!(cell.coord.x < 8);
            assert!(cell.coord.y < 5);
        }
    }
}

#[test]
fn random_step_places_one_pending_cell() {
    let mut e = Engine::new(Config::standard(), 6, 4);
    start_cycle_random(&mut e, 6, 4);
    let pending_before: Vec<_> = (0..e.frontier_len()).map(|i| e.frontier_cell(i)).collect();
    let placed = step_random(&mut e, false).unwrap();
    assert!(pending_before.contains(&placed));
    assert_eq!(e.visited_len(), 1);
    assert_eq!(e.visited_cell(0), placed);
}

#[test]
fn random_step_honors_quit() {
    let mut e = Engine::new(Config::standard(), 6, 4);
    start_cycle_random(&mut e, 6, 4);
    let frontier_before: Vec<_> = (0..e.frontier_len()).map(|i| e.frontier_cell(i)).collect();
    let r = step_random(&mut e, true);
    assert!(r.is_none());
    assert_eq!(e.visited_len(), 0);
    let frontier_after: Vec<_> = (0..e.frontier_len()).map(|i| e.frontier_cell(i)).collect();
    assert_eq!(frontier_before, frontier_after);
}

#[test]
fn random_cycle_covers_grid_exactly_once() {
    let (w, h) = (7u16, 4u16);
    let mut e = Engine::new(Config::standard(), w, h);
    start_cycle_random(&mut e, w, h);
    let mut steps = 0usize;
    let mut coords: Vec<(u16, u16)> = Vec::new();
    while !e.cycle_done() {
        let placed = step_random(&mut e, false).unwrap();
        coords.push((placed.coord.x, placed.coord.y));
        steps += 1;
        assert!(steps <= (w as usize) * (h as usize));
    }
    assert_eq!(coords.len(), (w as usize) * (h as usize));
    coords.sort();
    coords.dedup();
    assert_eq!(coords.len(), (w as usize) * (h as usize));
}

#[test]
fn random_draws_have_the_right_shape() {
    // Nothing is promised of a random value; these only exercise the
    // draw paths end to end against the real generator.
    for _ in 0..10 {
        let _ = random_color_draw();
        let seed = random_seed_draw();
        let _ = (seed.x_raw, seed.y_raw, seed.r, seed.g, seed.b);
    }
}
