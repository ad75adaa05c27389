use termflood::color::{mutate, mutate_channel, Color, ColorDraw};
use termflood::engine::{
    has_coordinates, Cell, Config, Coord, Engine, SeedDraw, MAX_STARTING_POINTS, PAUSE_DELAY_MS,
    PER_PIXEL_DELAY_MS, QUIT_KEY, RANDOM_FACTOR,
};

fn test_config(random_factor: u8) -> Config {
    Config {
        random_factor,
        max_starting_points: 3,
        per_pixel_delay_ms: 0,
        pause_delay_ms: 0,
        quit_key: 'q',
    }
}

fn uniform_draws(raw: u8) -> Vec<ColorDraw> {
    vec![ColorDraw { r: raw, g: raw, b: raw }; 8]
}

fn frontier_coords(e: &Engine) -> Vec<(u16, u16)> {
    let mut out = Vec::new();
    let mut i = 0;
    while i < e.frontier_len() {
        let c = e.frontier_cell(i);
        out.push((c.coord.x, c.coord.y));
        i += 1;
    }
    out
}

fn visited_coords(e: &Engine) -> Vec<(u16, u16)> {
    let mut out = Vec::new();
    let mut i = 0;
    while i < e.visited_len() {
        let c = e.visited_cell(i);
        out.push((c.coord.x, c.coord.y));
        i += 1;
    }
    out
}

#[test]
fn standard_config_matches_constants() {
    let cfg = Config::standard();
    assert_eq!(cfg.random_factor, RANDOM_FACTOR);
    assert_eq!(cfg.random_factor, 19);
    assert_eq!(cfg.max_starting_points, MAX_STARTING_POINTS);
    assert_eq!(cfg.max_starting_points, 3);
    assert_eq!(cfg.per_pixel_delay_ms, PER_PIXEL_DELAY_MS);
    assert_eq!(cfg.per_pixel_delay_ms, 1);
    assert_eq!(cfg.pause_delay_ms, PAUSE_DELAY_MS);
    assert_eq!(cfg.pause_delay_ms, 5000);
    assert_eq!(cfg.quit_key, QUIT_KEY);
    assert_eq!(cfg.quit_key, 'q');
}

#[test]
fn quit_event_decision() {
    let cfg = Config::standard();
    assert!(cfg.is_quit_event('q', true));
    assert!(!cfg.is_quit_event('q', false));
    assert!(!cfg.is_quit_event('x', true));
    assert!(!cfg.is_quit_event('Q', true));
}

#[test]
fn mutate_channel_exact_values() {
    // raw % 19 in [0, 18], recentred by 9: delta in [-9, 9].
    assert_eq!(mutate_channel(100, 0, 19), 91);
    assert_eq!(mutate_channel(100, 18, 19), 109);
    assert_eq!(mutate_channel(100, 9, 19), 100);
    assert_eq!(mutate_channel(100, 19, 19), 91);
    // Clamping at both ends.
    assert_eq!(mutate_channel(3, 0, 19), 0);
    assert_eq!(mutate_channel(252, 18, 19), 255);
    // An even factor: raw % 10 - 5 is in [-5, 4].
    assert_eq!(mutate_channel(100, 0, 10), 95);
    assert_eq!(mutate_channel(100, 9, 10), 104);
    // A zero factor means no mutation at all.
    assert_eq!(mutate_channel(100, 77, 0), 100);
    assert_eq!(mutate_channel(0, 255, 0), 0);
}

#[test]
fn mutate_channel_bounded_for_all_raw_bytes() {
    for parent in [0u8, 1, 100, 254, 255] {
        for raw in 0..=255u8 {
            let child = mutate_channel(parent, raw, 19);
            let diff = (child as i32 - parent as i32).abs();
            assert!(diff <= 9, "parent {parent} raw {raw} child {child}");
        }
    }
}

#[test]
fn mutate_channel_clamping_is_idempotent() {
    // A value already produced by mutation is in range, so mutating with
    // a zero delta (raw 9, factor 19) leaves it unchanged.
    for parent in 0..=255u8 {
        let child = mutate_channel(parent, 0, 19);
        assert_eq!(mutate_channel(child, 9, 19), child);
    }
}

#[test]
fn mutate_whole_color() {
    let parent = Color { r: 0, g: 128, b: 255 };
    let child = mutate(parent, ColorDraw { r: 0, g: 18, b: 18 }, 19);
    assert_eq!(child, Color { r: 0, g: 137, b: 255 });
}

#[test]
fn has_coordinates_finds_only_present_coords() {
    let cells = vec![
        Cell { coord: Coord { x: 1, y: 0 }, color: Color { r: 1, g: 2, b: 3 } },
        Cell { coord: Coord { x: 4, y: 7 }, color: Color { r: 9, g: 9, b: 9 } },
    ];
    assert!(has_coordinates(Coord { x: 1, y: 0 }, &cells));
    assert!(has_coordinates(Coord { x: 4, y: 7 }, &cells));
    assert!(!has_coordinates(Coord { x: 0, y: 1 }, &cells));
    assert!(!has_coordinates(Coord { x: 0, y: 0 }, &cells));
    assert!(!has_coordinates(Coord { x: 0, y: 0 }, &Vec::new()));
}

#[test]
fn seeding_reduces_positions_modulo_grid() {
    let mut e = Engine::new(test_config(19), 3, 2);
    let draws = vec![SeedDraw { x_raw: 7, y_raw: 5, r: 10, g: 20, b: 30 }];
    e.start_cycle(3, 2, &draws);
    assert_eq!(e.frontier_len(), 1);
    assert_eq!(e.visited_len(), 0);
    let seed = e.frontier_cell(0);
    assert_eq!(seed.coord, Coord { x: 1, y: 1 });
    assert_eq!(seed.color, Color { r: 10, g: 20, b: 30 });
}

#[test]
fn seeding_skips_duplicate_coordinates() {
    let mut e = Engine::new(test_config(19), 4, 4);
    let draws = vec![
        SeedDraw { x_raw: 2, y_raw: 3, r: 1, g: 1, b: 1 },
        SeedDraw { x_raw: 6, y_raw: 7, r: 2, g: 2, b: 2 },
        SeedDraw { x_raw: 1, y_raw: 1, r: 3, g: 3, b: 3 },
    ];
    e.start_cycle(4, 4, &draws);
    // The second draw lands on the first's coordinate (2, 3) and is
    // skipped; the first keeps its color.
    assert_eq!(e.frontier_len(), 2);
    assert_eq!(e.frontier_cell(0).coord, Coord { x: 2, y: 3 });
    assert_eq!(e.frontier_cell(0).color, Color { r: 1, g: 1, b: 1 });
    assert_eq!(e.frontier_cell(1).coord, Coord { x: 1, y: 1 });
}

#[test]
fn example_scenario_three_cells_one_row() {
    // A 3x1 grid, one seed at (1, 0) with color (100, 100, 100) and
    // factor 19, so every child channel stays within [91, 109].
    let mut e = Engine::new(test_config(19), 3, 1);
    e.start_cycle(3, 1, &vec![SeedDraw { x_raw: 1, y_raw: 0, r: 100, g: 100, b: 100 }]);

    let mut draws = uniform_draws(9);
    draws[3] = ColorDraw { r: 0, g: 0, b: 0 };
    draws[4] = ColorDraw { r: 18, g: 18, b: 18 };
    let placed = e.step(false, 0, &draws).unwrap();
    assert_eq!(placed.coord, Coord { x: 1, y: 0 });
    assert_eq!(placed.color, Color { r: 100, g: 100, b: 100 });

    // Exactly the two row neighbors are enqueued, with mutated colors at
    // the extremes of the band.
    assert_eq!(e.frontier_len(), 2);
    let west = e.frontier_cell(0);
    let east = e.frontier_cell(1);
    assert_eq!(west.coord, Coord { x: 0, y: 0 });
    assert_eq!(west.color, Color { r: 91, g: 91, b: 91 });
    assert_eq!(east.coord, Coord { x: 2, y: 0 });
    assert_eq!(east.color, Color { r: 109, g: 109, b: 109 });
    for c in [west.color, east.color] {
        for ch in [c.r, c.g, c.b] {
            assert!((91..=109).contains(&ch));
        }
    }

    // The cycle completes after exactly three placements.
    let second = e.step(false, 0, &uniform_draws(9)).unwrap();
    assert_eq!(second.coord, Coord { x: 0, y: 0 });
    let third = e.step(false, 0, &uniform_draws(9)).unwrap();
    assert_eq!(third.coord, Coord { x: 2, y: 0 });
    assert!(e.cycle_done());
    assert_eq!(e.visited_len(), 3);
    let mut seen = visited_coords(&e);
    seen.sort();
    assert_eq!(seen, vec![(0, 0), (1, 0), (2, 0)]);
}

#[test]
fn full_cycle_covers_grid_exactly_once() {
    let (w, h) = (5u16, 3u16);
    let mut e = Engine::new(test_config(19), w, h);
    e.start_cycle(
        w,
        h,
        &vec![
            SeedDraw { x_raw: 0, y_raw: 0, r: 50, g: 50, b: 50 },
            SeedDraw { x_raw: 4, y_raw: 2, r: 200, g: 200, b: 200 },
        ],
    );
    let mut placements: Vec<Cell> = Vec::new();
    let mut step_index = 0usize;
    while !e.cycle_done() {
        // Exclusivity: no coordinate is pending and visited at once.
        let pending = frontier_coords(&e);
        for v in visited_coords(&e) {
            assert!(!pending.contains(&v));
        }
        let placed = e.step(false, step_index.wrapping_mul(31) + 7, &uniform_draws(step_index as u8)).unwrap();
        placements.push(placed);
        step_index += 1;
        assert!(step_index <= (w as usize) * (h as usize));
    }
    // Every grid coordinate was placed exactly once.
    assert_eq!(placements.len(), (w as usize) * (h as usize));
    let mut coords: Vec<(u16, u16)> = placements.iter().map(|c| (c.coord.x, c.coord.y)).collect();
    coords.sort();
    coords.dedup();
    assert_eq!(coords.len(), (w as usize) * (h as usize));
    for x in 0..w {
        for y in 0..h {
            assert!(coords.contains(&(x, y)));
        }
    }
}

#[test]
fn one_by_one_grid_completes_in_one_step() {
    let mut e = Engine::new(test_config(19), 1, 1);
    e.start_cycle(1, 1, &vec![SeedDraw { x_raw: 9, y_raw: 9, r: 5, g: 6, b: 7 }]);
    let placed = e.step(false, 1234, &uniform_draws(0)).unwrap();
    assert_eq!(placed.coord, Coord { x: 0, y: 0 });
    assert_eq!(placed.color, Color { r: 5, g: 6, b: 7 });
    assert!(e.cycle_done());
    assert_eq!(e.visited_len(), 1);
}

#[test]
fn quit_pending_stops_before_any_placement() {
    let mut e = Engine::new(test_config(19), 4, 4);
    e.start_cycle(4, 4, &vec![SeedDraw { x_raw: 1, y_raw: 2, r: 8, g: 8, b: 8 }]);
    let before_frontier = frontier_coords(&e);
    let before_visited = visited_coords(&e);
    let r = e.step(true, 0, &uniform_draws(3));
    assert!(r.is_none());
    assert_eq!(frontier_coords(&e), before_frontier);
    assert_eq!(visited_coords(&e), before_visited);
    assert_eq!(e.visited_len(), 0);
}

#[test]
fn fixed_draws_reproduce_the_same_placements() {
    let run = || {
        let mut e = Engine::new(test_config(19), 4, 3);
        e.start_cycle(
            4,
            3,
            &vec![
                SeedDraw { x_raw: 13, y_raw: 8, r: 77, g: 12, b: 240 },
                SeedDraw { x_raw: 2, y_raw: 2, r: 3, g: 250, b: 128 },
            ],
        );
        let mut placements: Vec<Cell> = Vec::new();
        let mut i = 0usize;
        while !e.cycle_done() {
            placements.push(e.step(false, i * 17 + 5, &uniform_draws((i * 41 % 256) as u8)).unwrap());
            i += 1;
        }
        placements
    };
    let first = run();
    let second = run();
    assert_eq!(first, second);
    assert_eq!(first.len(), 12);
}

#[test]
fn engine_reports_its_grid_and_config() {
    let mut e = Engine::new(test_config(7), 9, 4);
    assert_eq!(e.width(), 9);
    assert_eq!(e.height(), 4);
    assert_eq!(e.config().random_factor, 7);
    assert!(e.cycle_done());
    e.start_cycle(6, 2, &vec![SeedDraw { x_raw: 5, y_raw: 1, r: 0, g: 0, b: 0 }]);
    assert_eq!(e.width(), 6);
    assert_eq!(e.height(), 2);
    assert!(!e.cycle_done());
}
