use life_grid::cell::Cell;
use life_grid::grid::GameGrid;
use life_grid::life::{CellState, GameOfLife};

fn pattern(rows: &[&[bool]]) -> Vec<Vec<bool>> {
    rows.iter().map(|r| r.to_vec()).collect()
}

fn build_grid(rows: &[&[bool]]) -> GameGrid {
    let mut g = GameGrid::new();
    g.seed_from_pattern(&pattern(rows), 0);
    g.fix_grid_size();
    g.init_alive_cells();
    g
}

const T: bool = true;
const F: bool = false;

#[test]
fn transition_rule_exhaustive() {
    // a live cell with 0, 1 or 4..=8 neighbours dies; with 2 or 3 it survives;
    // a dead cell is born exactly on 3
    for n in 0u8..=8 {
        let mut c = Cell::new(0, true);
        c.update(n);
        let changed = c.next();
        let expect_alive = n == 2 || n == 3;
        assert_eq!(c.is_alive, expect_alive, "live cell with {} neighbours", n);
        assert_eq!(changed, !expect_alive);

        let mut d = Cell::new(0, false);
        d.update(n);
        let changed = d.next();
        let expect_alive = n == 3;
        assert_eq!(d.is_alive, expect_alive, "dead cell with {} neighbours", n);
        assert_eq!(changed, expect_alive);
    }
}

#[test]
fn rectangular_after_grow_and_shrink() {
    let mut g = build_grid(&[&[F, T, F], &[F, F, T], &[T, T, T]]);
    g.prepend_column_and_fill();
    g.append_row_and_fill();
    g.prepend_row_and_fill();
    g.append_column_and_fill();
    g.remove_first_row();
    g.remove_last_column();
    let w = g.grid[0].row.len();
    for r in &g.grid {
        assert_eq!(r.row.len(), w, "all rows keep one length");
    }
    let base_x = g.grid[0].row[0].x;
    for r in &g.grid {
        assert_eq!(r.row[0].x, base_x, "all rows keep one base offset");
    }
}

#[test]
fn coordinates_stable_under_growth() {
    let mut g = build_grid(&[&[T, T], &[T, T]]);
    // the block occupies (1,0) (2,0) (1,1) (2,1)
    assert!(g.get_cell(1, 0).unwrap().is_alive);
    g.prepend_column_and_fill();
    g.prepend_row_and_fill();
    g.append_column_and_fill();
    g.append_row_and_fill();
    for (x, y) in [(1, 0), (2, 0), (1, 1), (2, 1)] {
        let c = g.get_cell(x, y).unwrap();
        assert!(c.is_alive, "cell ({}, {}) keeps its coordinate", x, y);
        assert_eq!(c.x, x);
    }
    assert!(!g.get_cell(0, 0).unwrap().is_alive);
}

fn brute_force_count(g: &GameGrid, x: isize, y: isize) -> u8 {
    let mut n = 0u8;
    for dy in -1..=1isize {
        for dx in -1..=1isize {
            if dx == 0 && dy == 0 {
                continue;
            }
            if let Some(c) = g.get_cell(x + dx, y + dy) {
                if c.is_alive {
                    n += 1;
                }
            }
        }
    }
    n
}

#[test]
fn neighbour_counts_match_brute_force_recount() {
    let glider: &[&[bool]] = &[&[F, T, F], &[F, F, T], &[T, T, T]];
    let before = build_grid(glider);
    let mut after = build_grid(glider);
    after.next();
    // every frontier cell (alive before, or next to one) that is still present
    // carries the count measured against the pre-step grid
    for row in &after.grid {
        for cell in &row.row {
            let (x, y) = (cell.x, row.y);
            let alive_before =
                |x: isize, y: isize| before.get_cell(x, y).map(|c| c.is_alive) == Some(true);
            let frontier = alive_before(x, y)
                || (before.get_cell(x, y).is_some()
                    && (-1..=1isize).any(|dy| {
                        (-1..=1isize).any(|dx| {
                            (dx != 0 || dy != 0) && alive_before(x + dx, y + dy)
                        })
                    }));
            if frontier {
                assert_eq!(
                    cell.neighbours,
                    brute_force_count(&before, x, y),
                    "stored count at ({}, {})",
                    x,
                    y
                );
            }
        }
    }
    // and the counting routine itself agrees with the brute force everywhere
    for y in -2..6isize {
        for x in -2..6isize {
            assert_eq!(before.count_neighbours(x, y), brute_force_count(&before, x, y));
        }
    }
}

#[test]
fn block_is_a_still_life() {
    let mut game = GameOfLife::from_pattern(&pattern(&[&[T, T], &[T, T]])).unwrap();
    // settle the boundary once: the first step pads the live edges
    assert!(game.can_advance());
    assert!(!game.next(), "a 2x2 block never changes");
    let extent = game.bounds();
    for _ in 0..5 {
        assert!(game.can_advance());
        let changed = game.next();
        assert!(!changed, "a 2x2 block never changes");
        assert_eq!(game.bounds(), extent, "the settled extent never moves");
        for (x, y) in [(1, 0), (2, 0), (1, 1), (2, 1)] {
            assert_eq!(game.cell_state(x, y), CellState::Alive);
        }
    }
}

fn states_around(game: &GameOfLife) -> Vec<(isize, isize, CellState)> {
    let mut v = Vec::new();
    for y in -4..8isize {
        for x in -4..8isize {
            v.push((x, y, game.cell_state(x, y)));
        }
    }
    v
}

#[test]
fn blinker_oscillates_with_period_two() {
    // a dead border around the line, so the birth sites above and below are
    // covered by the grid from the first step on
    let mut game = GameOfLife::from_pattern(&pattern(&[
        &[F, F, F, F, F],
        &[F, T, T, T, F],
        &[F, F, F, F, F],
    ]))
    .unwrap();
    let horizontal: Vec<_> = states_around(&game)
        .into_iter()
        .filter(|&(_, _, s)| s == CellState::Alive)
        .collect();
    assert!(game.can_advance());
    assert!(game.next(), "first step flips cells");
    let vertical: Vec<_> = states_around(&game)
        .into_iter()
        .filter(|&(_, _, s)| s == CellState::Alive)
        .collect();
    let vertical_cells: Vec<_> = vertical.iter().map(|&(x, y, _)| (x, y)).collect();
    assert_eq!(vertical_cells, vec![(3, 0), (3, 1), (3, 2)]);
    assert!(game.can_advance());
    assert!(game.next(), "second step flips cells back");
    let again: Vec<_> = states_around(&game)
        .into_iter()
        .filter(|&(_, _, s)| s == CellState::Alive)
        .collect();
    let first: Vec<_> = horizontal.iter().map(|&(x, y, _)| (x, y)).collect();
    let third: Vec<_> = again.iter().map(|&(x, y, _)| (x, y)).collect();
    assert_eq!(first, third, "the blinker returns after exactly two steps");
}

#[test]
fn live_edge_grows_the_boundary_by_one() {
    let mut game = GameOfLife::from_pattern(&pattern(&[&[T, T], &[T, T]])).unwrap();
    let (bx, by, w, h) = game.bounds();
    assert_eq!((bx, by, w, h), (0, 0, 3, 2));
    assert!(game.can_advance());
    game.next();
    // the block sits on the top, bottom and right edges: each grows by one
    // row or column; the dead left seed column does not
    assert_eq!(game.bounds(), (0, -1, 4, 4));
    // the previous outermost layers are no longer outermost
    assert_eq!(game.cell_state(3, 0), CellState::Dead);
    assert_eq!(game.cell_state(1, -1), CellState::Dead);
}

#[test]
fn dying_pattern_shrinks_back_toward_one_by_one() {
    let mut game = GameOfLife::from_pattern(&pattern(&[&[T]])).unwrap();
    let (_, _, mut w, mut h) = game.bounds();
    assert_eq!((w, h), (2, 1));
    for _ in 0..4 {
        assert!(game.can_advance());
        game.next();
        let (_, _, w2, h2) = game.bounds();
        assert!(w2 >= 1 && h2 >= 1, "never below 1x1");
        assert!(w as isize - w2 as isize <= 2, "at most one column per side per step");
        assert!(h as isize - h2 as isize <= 2, "at most one row per side per step");
        w = w2;
        h = h2;
    }
    assert_eq!((w, h), (1, 1), "an extinct grid settles at 1x1");
    assert!(!game.next(), "nothing changes any more");
}

#[test]
fn absent_dead_and_alive_are_distinct() {
    let game = GameOfLife::from_pattern(&pattern(&[&[T, T], &[T, T]])).unwrap();
    assert_eq!(game.cell_state(1, 0), CellState::Alive);
    assert_eq!(game.cell_state(0, 0), CellState::Dead, "present but dead");
    assert_eq!(game.cell_state(100, 100), CellState::Absent, "off-grid");
    assert_eq!(game.cell_state(-1, 0), CellState::Absent);
}

#[test]
fn pattern_seeding_places_cells_after_the_seed_column() {
    let game = GameOfLife::from_pattern(&pattern(&[&[T, F], &[F, T]])).unwrap();
    assert_eq!(game.cell_state(1, 0), CellState::Alive);
    assert_eq!(game.cell_state(2, 0), CellState::Dead);
    assert_eq!(game.cell_state(1, 1), CellState::Dead);
    assert_eq!(game.cell_state(2, 1), CellState::Alive);
    assert_eq!(game.cell_state(0, 0), CellState::Dead);
}

#[test]
fn word_layout_centres_each_glyph() {
    let a = pattern(&[&[T, T], &[T, F]]);
    let b = pattern(&[&[F, T], &[T, T]]);
    let game = GameOfLife::from_patterns(&vec![a, b], 6).unwrap();
    let (bx, by, w, h) = game.bounds();
    assert_eq!((bx, by), (0, 0));
    assert!(w >= 1 && h >= 6);
    // both glyphs start two rows down ((6 - 1) / 2) and sit side by side
    assert_eq!(game.cell_state(1, 2), CellState::Alive);
    assert_eq!(game.cell_state(2, 2), CellState::Alive);
    assert_eq!(game.cell_state(3, 2), CellState::Dead);
    assert_eq!(game.cell_state(4, 2), CellState::Alive);
}
