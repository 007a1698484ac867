use vstd::prelude::*;

use crate::cell::step_alive;
use crate::grid::GameGrid;

verus! {

/// How a queried coordinate presents to a renderer: a live cell, a dead cell,
/// or a coordinate the grid does not currently cover at all.  The three are
/// mutually exclusive and exhaustive.
#[derive(Clone, Copy, PartialEq, Eq, Structural, Debug)]
pub enum CellState {
    Alive,
    Dead,
    Absent,
}

/// A running Game of Life: a grid that always satisfies the simulation
/// invariant (rectangular, with a synchronised live-cell index).
pub struct GameOfLife {
    game_grid: GameGrid,
}

impl GameOfLife {
    #[verifier::type_invariant]
    spec fn inv(self) -> bool {
        self.game_grid.wf_all()
    }

    /// The grid currently stores a cell for `(x, y)`.
    pub closed spec fn covers(self, x: int, y: int) -> bool {
        self.game_grid.in_bounds(x, y)
    }

    /// The cell at `(x, y)` exists and is alive.
    pub closed spec fn alive(self, x: int, y: int) -> bool {
        self.game_grid.alive_at(x, y)
    }

    /// How many of the 8 neighbours of `(x, y)` are alive.
    pub closed spec fn live_neighbours(self, x: int, y: int) -> int {
        self.game_grid.count_alive(x, y)
    }

    pub closed spec fn min_x(self) -> int {
        self.game_grid.base_x()
    }

    pub closed spec fn min_y(self) -> int {
        self.game_grid.base_y()
    }

    pub closed spec fn grid_width(self) -> int {
        self.game_grid.width()
    }

    pub closed spec fn grid_height(self) -> int {
        self.game_grid.height()
    }

    /// One more row or column can be represented on every edge, so a step
    /// (which grows by at most one layer per edge) cannot overflow the
    /// coordinate space.
    pub closed spec fn can_step(self) -> bool {
        self.game_grid.can_reconcile()
    }

    /// The exact extent one generation step leaves behind: the boundary
    /// reconciliation decisions, evaluated on the stepped aliveness.
    pub closed spec fn min_x_after_step(self) -> int {
        self.game_grid.base_x_after_step()
    }

    pub closed spec fn min_y_after_step(self) -> int {
        self.game_grid.base_y_after_step()
    }

    pub closed spec fn grid_width_after_step(self) -> int {
        self.game_grid.width_after_step()
    }

    pub closed spec fn grid_height_after_step(self) -> int {
        self.game_grid.height_after_step()
    }

    /// The grid's extent: `(min x, min y, width, height)`.  The grid is
    /// never smaller than 1-by-1, and it covers exactly this rectangle.
    pub fn bounds(&self) -> (b: (isize, isize, usize, usize))
        ensures
            b.0 as int == self.min_x(),
            b.1 as int == self.min_y(),
            b.2 as int == self.grid_width(),
            b.3 as int == self.grid_height(),
            b.2 >= 1,
            b.3 >= 1,
            forall|x: int, y: int|
                self.covers(x, y) == (b.0 <= x < b.0 + b.2 && b.1 <= y < b.1 + b.3),
    {
        proof {
            use_type_invariant(&*self);
        }
        let bx = self.game_grid.grid[0].row[0].x;
        let by = self.game_grid.grid[0].y;
        let w = self.game_grid.grid[0].row.len();
        let h = self.game_grid.grid.len();
        (bx, by, w, h)
    }

    /// What the renderer should show at `(x, y)`: alive, dead, or not
    /// present (off-grid background).
    pub fn cell_state(&self, x: isize, y: isize) -> (s: CellState)
        ensures
            (s == CellState::Alive) == (self.covers(x as int, y as int) && self.alive(
                x as int,
                y as int,
            )),
            (s == CellState::Dead) == (self.covers(x as int, y as int) && !self.alive(
                x as int,
                y as int,
            )),
            (s == CellState::Absent) == !self.covers(x as int, y as int),
    {
        proof {
            use_type_invariant(&*self);
        }
        match self.game_grid.get_cell(x, y) {
            Some(c) => {
                if c.is_alive {
                    CellState::Alive
                } else {
                    CellState::Dead
                }
            },
            None => CellState::Absent,
        }
    }

    /// Whether the next step can be taken without running out of coordinate
    /// space; callers check this before `next`.
    pub fn can_advance(&self) -> (r: bool)
        ensures
            r == self.can_step(),
    {
        proof {
            use_type_invariant(&*self);
        }
        let bx = self.game_grid.grid[0].row[0].x;
        let by = self.game_grid.grid[0].y;
        let w = self.game_grid.grid[0].row.len();
        let h = self.game_grid.grid.len();
        isize::MIN as i128 <= bx as i128 - 1 && bx as i128 + w as i128 <= isize::MAX as i128
            && isize::MIN as i128 <= by as i128 - 1 && by as i128 + h as i128
            <= isize::MAX as i128
    }

    /// Advances the automaton one generation and reports whether any cell
    /// changed (the driving loop stops once nothing does).  Every covered
    /// coordinate takes the value the B3/S23 rule assigns it from the
    /// pre-step state, and the boundary moves by at most one layer per edge.
    pub fn next(&mut self) -> (changed: bool)
        requires
            old(self).can_step(),
        ensures
            forall|x: int, y: int|
                final(self).alive(x, y) == (old(self).covers(x, y) && step_alive(
                    old(self).alive(x, y),
                    old(self).live_neighbours(x, y),
                )),
            changed == (exists|x: int, y: int|
                final(self).alive(x, y) != old(self).alive(x, y)),
            final(self).min_x() == old(self).min_x_after_step(),
            final(self).min_y() == old(self).min_y_after_step(),
            final(self).grid_width() == old(self).grid_width_after_step(),
            final(self).grid_height() == old(self).grid_height_after_step(),
            old(self).min_x() - 1 <= final(self).min_x() <= old(self).min_x() + 1,
            old(self).min_y() - 1 <= final(self).min_y() <= old(self).min_y() + 1,
            old(self).min_x() + old(self).grid_width() - 1 <= final(self).min_x()
                + final(self).grid_width(),
            final(self).min_x() + final(self).grid_width() <= old(self).min_x()
                + old(self).grid_width() + 1,
            old(self).min_y() + old(self).grid_height() - 1 <= final(self).min_y()
                + final(self).grid_height(),
            final(self).min_y() + final(self).grid_height() <= old(self).min_y()
                + old(self).grid_height() + 1,
            final(self).grid_width() >= 1,
            final(self).grid_height() >= 1,
    {
        proof {
            use_type_invariant(&*self);
        }
        let mut g = GameGrid::new();
        std::mem::swap(&mut g, &mut self.game_grid);
        let changed = g.next();
        self.game_grid = g;
        proof {
            if changed {
                let (x, y) = choose|x: int, y: int|
                    g.alive_at(x, y) != old(self).game_grid.alive_at(x, y);
                assert(self.alive(x, y) != old(self).alive(x, y));
            } else {
                assert forall|x: int, y: int|
                    self.alive(x, y) == old(self).alive(x, y) by {
                    if g.alive_at(x, y) != old(self).game_grid.alive_at(x, y) {
                        assert(exists|a: int, b: int|
                            g.alive_at(a, b) != old(self).game_grid.alive_at(a, b));
                    }
                }
            }
        }
        changed
    }

    /// Builds a game from one pattern: line `k` of `pattern` occupies row
    /// `k`, with its cells at x coordinates `1..`, after the single dead
    /// cell the fresh grid starts with.  `None` exactly when the pattern is
    /// too large for the coordinate space.
    pub fn from_pattern(pattern: &Vec<Vec<bool>>) -> (r: Option<GameOfLife>)
        ensures
            (match r {
                Some(g) => {
                    &&& g.min_x() == 0
                    &&& g.min_y() == 0
                    &&& g.grid_height() == (if pattern@.len() >= 1 {
                        pattern@.len() as int
                    } else {
                        1
                    })
                    &&& forall|x: int, y: int|
                        #[trigger] g.alive(x, y) == (0 <= y < pattern@.len() && 1 <= x
                            && x - 1 < pattern@[y]@.len() && pattern@[y]@[x - 1])
                },
                None => (pattern@.len() > isize::MAX + 1 || exists|k: int|
                    0 <= k < pattern@.len() && (#[trigger] pattern@[k])@.len() + 1
                        > isize::MAX),
            }),
    {
        let lines = pattern.len();
        if lines as i128 > isize::MAX as i128 + 1 {
            return None;
        }
        let mut k: usize = 0;
        while k < lines
            invariant
                lines == pattern@.len(),
                k <= lines,
                forall|kk: int|
                    0 <= kk < k ==> (#[trigger] pattern@[kk])@.len() + 1 <= isize::MAX,
            decreases lines - k,
        {
            if pattern[k].len() as i128 + 1 > isize::MAX as i128 {
                return None;
            }
            k += 1;
        }
        let mut g = GameGrid::new();
        proof {
            assert(crate::grid::seq_max_len(g.grid@) == 1) by {
                assert(g.grid@.drop_last() =~= Seq::<crate::grid::CellRow>::empty());
                assert(crate::grid::seq_max_len(Seq::<crate::grid::CellRow>::empty()) == 0);
                assert(g.grid@[0].row@.len() == 1);
            }
        }
        let ghost fresh = g;
        g.seed_from_pattern(pattern, 0);
        let ghost seeded = g;
        g.fix_grid_size();
        let ghost fixed = g;
        g.init_alive_cells();
        proof {
            assert(fresh.in_bounds(0, 0));
            assert(!fresh.alive_at(0, 0));
            assert(!fresh.grid@[0].row@[0].is_alive);
            assert(fresh.grid@[0].wf());
            assert(fresh.grid@[0].row@.len() == 1);
            assert forall|x: int, y: int|
                #[trigger] g.alive_at(x, y) == (0 <= y < pattern@.len() && 1 <= x
                    && x - 1 < pattern@[y]@.len() && pattern@[y]@[x - 1]) by {
                assert(g.alive_at(x, y) == fixed.alive_at(x, y));
                assert(fixed.alive_at(x, y) == seeded.ragged_alive_at(x, y));
                if 0 <= y < pattern@.len() {
                    let r2 = seeded.grid@[0 + y];
                    let prior = crate::grid::prior_row_cells(fresh, 0 + y);
                    assert(prior.len() == 1);
                    assert(!prior[0].is_alive);
                    assert(r2.row@.len() == prior.len() + pattern@[y]@.len());
                    assert(r2.row@[0] == prior[0]);
                    if 1 <= x < 1 + pattern@[y]@.len() {
                        assert(r2.row@[prior.len() + (x - 1)].is_alive == pattern@[y]@[x
                            - 1]);
                        assert(r2.row@[x] == r2.row@[prior.len() + (x - 1)]);
                    }
                    assert(seeded.base_x() == 0 && seeded.base_y() == 0);
                    assert(r2.wf());
                    assert(r2.base_x() == 0);
                } else {
                    if seeded.base_y() <= y < seeded.base_y() + seeded.height() {
                        assert(seeded.height() == (if pattern@.len() >= 1 {
                            pattern@.len() as int
                        } else {
                            1
                        }));
                        assert(pattern@.len() == 0 && y == 0);
                        assert(seeded.grid@[0] == fresh.grid@[0]);
                        assert(!seeded.ragged_alive_at(x, y));
                    } else {
                        assert(!seeded.ragged_alive_at(x, y));
                    }
                }
            }
        }
        Some(GameOfLife { game_grid: g })
    }
}

impl GameOfLife {
    /// The centred start row: the layout places a pattern's first line this
    /// many rows down when `row_min` asks for more rows than the pattern has.
    fn centred_start_of(lines: usize, row_min: usize) -> (s: usize)
        ensures
            s as int == centred_start(lines as int, row_min as int),
            s <= row_min,
    {
        let n_row: usize = if lines >= 1 {
            lines - 1
        } else {
            0
        };
        if row_min > n_row {
            let diff = row_min - n_row;
            if diff > 1 {
                diff / 2
            } else {
                0
            }
        } else {
            0
        }
    }

    /// Builds a game from several patterns seeded left to right, each line
    /// appended after the previous patterns' columns in its row, and each
    /// pattern vertically centred within at least `row_min` rows — the
    /// layout used to spell a word out of letter glyphs.  Row `t` of the
    /// result holds, after the one dead seed cell, exactly
    /// `word_row_flags(patterns, row_min, t)`.  `None` exactly when the
    /// layout outgrows the coordinate space; nothing is partially built.
    pub fn from_patterns(patterns: &Vec<Vec<Vec<bool>>>, row_min: usize) -> (r: Option<
        GameOfLife,
    >)
        ensures
            (match r {
                Some(g) => {
                    &&& g.min_x() == 0
                    &&& g.min_y() == 0
                    &&& g.grid_height() == word_height(patterns@, row_min as int)
                    &&& (patterns@.len() >= 1 ==> g.grid_height() >= row_min)
                    &&& forall|x: int, y: int|
                        #[trigger] g.alive(x, y) == (0 <= y < word_height(
                            patterns@,
                            row_min as int,
                        ) && 1 <= x && x - 1 < word_row_flags(patterns@, row_min as int, y).len()
                            && word_row_flags(patterns@, row_min as int, y)[x - 1])
                },
                None => (row_min > isize::MAX
                    || (exists|p: int|
                        0 <= p < patterns@.len() && centred_start(
                            (#[trigger] patterns@[p])@.len() as int,
                            row_min as int,
                        ) + patterns@[p]@.len() > isize::MAX + 1)
                    || 1 + flags_total(patterns@) > isize::MAX),
            }),
    {
        let ghost rm: int = row_min as int;
        if row_min as i128 > isize::MAX as i128 {
            return None;
        }
        let n = patterns.len();
        // every pattern's layout must fit the coordinate space vertically
        let mut p: usize = 0;
        while p < n
            invariant
                n == patterns@.len(),
                p <= n,
                rm == row_min as int,
                forall|q: int|
                    0 <= q < p ==> centred_start((#[trigger] patterns@[q])@.len() as int, rm)
                        + patterns@[q]@.len() <= isize::MAX + 1,
            decreases n - p,
        {
            let lines = patterns[p].len();
            let start = Self::centred_start_of(lines, row_min);
            if start as i128 + lines as i128 > isize::MAX as i128 + 1 {
                return None;
            }
            p += 1;
        }
        // and so must the total cell count, horizontally
        let mut total: i128 = 1;
        let mut p: usize = 0;
        while p < n
            invariant
                n == patterns@.len(),
                p <= n,
                rm == row_min as int,
                total == 1 + flags_total(patterns@.take(p as int)),
                total <= isize::MAX as i128,
            decreases n - p,
        {
            let pat = &patterns[p];
            let lines = pat.len();
            let mut k: usize = 0;
            while k < lines
                invariant
                    n == patterns@.len(),
                    p < n,
                    pat == &patterns@[p as int],
                    lines == patterns@[p as int]@.len(),
                    k <= lines,
                    total == 1 + flags_total(patterns@.take(p as int)) + line_total(
                        patterns@[p as int]@.take(k as int),
                    ),
                    total <= isize::MAX as i128,
                decreases lines - k,
            {
                let ghost pk: int = k as int;
                total = total + pat[k].len() as i128;
                proof {
                    assert(patterns@[p as int]@.take(pk + 1).drop_last() =~= patterns@[
                        p as int]@.take(pk));
                    assert(patterns@[p as int]@.take(pk + 1).last() == patterns@[p as int]@[
                        pk]);
                }
                if total > isize::MAX as i128 {
                    proof {
                        lemma_line_total_prefix(patterns@[p as int]@, pk + 1);
                        assert(patterns@.take(p as int + 1).drop_last() =~= patterns@.take(
                            p as int,
                        ));
                        assert(patterns@.take(p as int + 1).last() == patterns@[p as int]);
                        lemma_flags_total_prefix(patterns@, p as int + 1);
                    }
                    return None;
                }
                k += 1;
            }
            proof {
                assert(patterns@[p as int]@.take(lines as int) =~= patterns@[p as int]@);
                assert(patterns@.take(p as int + 1).drop_last() =~= patterns@.take(p as int));
                assert(patterns@.take(p as int + 1).last() == patterns@[p as int]);
            }
            p += 1;
        }
        proof {
            assert(patterns@.take(n as int) =~= patterns@);
        }

        let mut g = GameGrid::new();
        proof {
            assert(patterns@.take(0) =~= Seq::<Vec<Vec<bool>>>::empty());
            assert(g.grid@[0].row@.len() == 1);
        }
        let mut p: usize = 0;
        while p < n
            invariant
                n == patterns@.len(),
                p <= n,
                rm == row_min as int,
                row_min <= isize::MAX,
                forall|q: int|
                    0 <= q < n ==> centred_start((#[trigger] patterns@[q])@.len() as int, rm)
                        + patterns@[q]@.len() <= isize::MAX + 1,
                1 + flags_total(patterns@) <= isize::MAX,
                g.wf_ragged(),
                g.base_x() == 0,
                g.base_y() == 0,
                g.alive_cells.coords@ == Seq::<(isize, isize)>::empty(),
                g.height() == word_height(patterns@.take(p as int), rm),
                forall|t: int|
                    0 <= t < g.height() ==> {
                        let row = (#[trigger] g.grid@[t]).row@;
                        let flags = word_row_flags(patterns@.take(p as int), rm, t);
                        &&& row.len() == 1 + flags.len()
                        &&& !row[0].is_alive
                        &&& (forall|j: int|
                            0 <= j < flags.len() ==> (#[trigger] row[1 + j]).is_alive
                                == flags[j])
                    },
            decreases n - p,
        {
            let ghost pre_ps = patterns@.take(p as int);
            let ghost post_ps = patterns@.take(p as int + 1);
            proof {
                assert(post_ps.drop_last() =~= pre_ps);
                assert(post_ps.last() == patterns@[p as int]);
            }
            let pat = &patterns[p];
            let lines = pat.len();
            let start = Self::centred_start_of(lines, row_min);
            let ghost g0 = g;
            // pad the grid to at least row_min rows
            while g.grid.len() < row_min
                invariant
                    rm == row_min as int,
                    row_min <= isize::MAX,
                    g.wf_ragged(),
                    g.base_x() == 0,
                    g.base_y() == 0,
                    g.alive_cells.coords@ == Seq::<(isize, isize)>::empty(),
                    g0.height() <= g.height(),
                    g.height() == g0.height() || g.height() <= rm,
                    forall|t: int| 0 <= t < g0.height() ==> (#[trigger] g.grid@[t])
                        == g0.grid@[t],
                    forall|t: int|
                        g0.height() <= t < g.height() ==> ((#[trigger] g.grid@[
                            t]).row@.len() == 1 && !g.grid@[t].row@[0].is_alive),
                decreases rm - g.grid@.len(),
            {
                g.append_row();
            }
            let ghost g1 = g;
            proof {
                assert(g1.height() == (if g0.height() < rm {
                    rm
                } else {
                    g0.height()
                }));
                assert forall|t: int| 0 <= t < g1.height() implies {
                    let row = (#[trigger] g1.grid@[t]).row@;
                    let flags = word_row_flags(pre_ps, rm, t);
                    &&& row.len() == 1 + flags.len()
                    &&& !row[0].is_alive
                    &&& (forall|j: int|
                        0 <= j < flags.len() ==> (#[trigger] row[1 + j]).is_alive == flags[j])
                } by {
                    if t >= g0.height() {
                        lemma_word_row_flags_empty(pre_ps, rm, t);
                    }
                }
                // the seeding preconditions
                assert(isize::MAX as int + 1 <= usize::MAX as int);
                assert forall|k: int|
                    0 <= k < pat@.len() implies g1.base_x() + crate::grid::seq_max_len(
                    g1.grid@,
                ) + (#[trigger] pat@[k])@.len() <= isize::MAX by {
                    let a = crate::grid::lemma_seq_max_len_achieved(g1.grid@);
                    lemma_word_row_flags_len(pre_ps, rm, a);
                    lemma_line_total_ge(pat@, k);
                    lemma_flags_total_prefix(patterns@, p as int + 1);
                    assert(flags_total(post_ps) == flags_total(pre_ps) + line_total(pat@));
                    assert(crate::grid::seq_max_len(g1.grid@) <= 1 + flags_total(pre_ps));
                }
            }
            g.seed_from_pattern(pat, start);
            proof {
                assert(g.height() == word_height(post_ps, rm));
                assert forall|t: int| 0 <= t < g.height() implies {
                    let row = (#[trigger] g.grid@[t]).row@;
                    let flags = word_row_flags(post_ps, rm, t);
                    &&& row.len() == 1 + flags.len()
                    &&& !row[0].is_alive
                    &&& (forall|j: int|
                        0 <= j < flags.len() ==> (#[trigger] row[1 + j]).is_alive == flags[j])
                } by {
                    let flags_pre = word_row_flags(pre_ps, rm, t);
                    let flags = word_row_flags(post_ps, rm, t);
                    let prior = crate::grid::prior_row_cells(g1, t);
                    if start <= t < start + lines {
                        let k = t - start;
                        assert(g.grid@[start as int + k] == g.grid@[t]);
                        assert(flags =~= flags_pre + pat@[k]@);
                        if t < g1.height() {
                            assert(prior == g1.grid@[t].row@);
                            assert(prior.len() == 1 + flags_pre.len());
                        } else {
                            lemma_word_row_flags_empty(pre_ps, rm, t);
                            assert(prior.len() == 1);
                            assert(!prior[0].is_alive);
                        }
                        assert(g.grid@[t].row@.len() == prior.len() + pat@[k]@.len());
                        assert(g.grid@[t].row@[0] == prior[0]);
                        assert forall|j: int|
                            0 <= j < flags.len() implies (#[trigger] g.grid@[t].row@[1
                            + j]).is_alive == flags[j] by {
                            if j < flags_pre.len() {
                                assert(g.grid@[t].row@[1 + j] == prior[1 + j]);
                                assert(flags[j] == flags_pre[j]);
                            } else {
                                let q = j - flags_pre.len();
                                assert(g.grid@[t].row@[prior.len() + q].is_alive == pat@[
                                    k]@[q]);
                                assert(1 + j == prior.len() + q);
                                assert(flags[j] == pat@[k]@[q]);
                            }
                        }
                    } else {
                        assert(flags =~= flags_pre);
                        if t < g1.height() {
                            assert(g.grid@[t] == g1.grid@[t]);
                        } else {
                            lemma_word_row_flags_empty(pre_ps, rm, t);
                            assert(g.grid@[t].row@ == prior);
                            assert(prior.len() == 1);
                            assert(!prior[0].is_alive);
                        }
                    }
                }
            }
            p += 1;
        }
        proof {
            assert(patterns@.take(n as int) =~= patterns@);
        }
        let ghost seeded = g;
        g.fix_grid_size();
        let ghost fixed = g;
        g.init_alive_cells();
        proof {
            if patterns@.len() >= 1 {
                assert(word_height(patterns@, rm) >= rm);
            }
            assert forall|x: int, y: int|
                #[trigger] g.alive_at(x, y) == (0 <= y < word_height(patterns@, rm) && 1 <= x
                    && x - 1 < word_row_flags(patterns@, rm, y).len() && word_row_flags(
                    patterns@,
                    rm,
                    y,
                )[x - 1]) by {
                assert(g.alive_at(x, y) == fixed.alive_at(x, y));
                assert(fixed.alive_at(x, y) == seeded.ragged_alive_at(x, y));
                if 0 <= y < seeded.height() {
                    let row = seeded.grid@[y];
                    let flags = word_row_flags(patterns@, rm, y);
                    assert(row.row@.len() == 1 + flags.len());
                    assert(row.wf());
                    assert(row.base_x() == 0);
                    if 1 <= x < 1 + flags.len() {
                        assert(row.row@[1 + (x - 1)].is_alive == flags[x - 1]);
                        assert(row.row@[x] == row.row@[1 + (x - 1)]);
                    }
                } else {
                    assert(!seeded.ragged_alive_at(x, y));
                }
            }
        }
        Some(GameOfLife { game_grid: g })
    }
}

/// The centred start row of a pattern of `lines` lines laid out within at
/// least `row_min` rows.
pub open spec fn centred_start(lines: int, row_min: int) -> int {
    let n_row = if lines >= 1 {
        lines - 1
    } else {
        0
    };
    if row_min > n_row && row_min - n_row > 1 {
        (row_min - n_row) / 2
    } else {
        0
    }
}

/// The total number of cells in one pattern (the sum of its line lengths).
pub open spec fn line_total(p: Seq<Vec<bool>>) -> int
    decreases p.len(),
{
    if p.len() == 0 {
        0
    } else {
        line_total(p.drop_last()) + p.last()@.len()
    }
}

/// The total number of cells over a sequence of patterns.
pub open spec fn flags_total(ps: Seq<Vec<Vec<bool>>>) -> int
    decreases ps.len(),
{
    if ps.len() == 0 {
        0
    } else {
        flags_total(ps.drop_last()) + line_total(ps.last()@)
    }
}

/// The flags that end up in row `t` after the patterns are seeded left to
/// right, each at its centred start row: the concatenation, in pattern
/// order, of every line that targets row `t`.
pub open spec fn word_row_flags(ps: Seq<Vec<Vec<bool>>>, row_min: int, t: int) -> Seq<bool>
    decreases ps.len(),
{
    if ps.len() == 0 {
        Seq::empty()
    } else {
        let rest = word_row_flags(ps.drop_last(), row_min, t);
        let p = ps.last()@;
        let start = centred_start(p.len() as int, row_min);
        if start <= t < start + p.len() {
            rest + p[t - start]@
        } else {
            rest
        }
    }
}

/// The grid height after the patterns are seeded: each pattern first pads
/// the grid to at least `row_min` rows, then extends it to cover its own
/// lines.
pub open spec fn word_height(ps: Seq<Vec<Vec<bool>>>, row_min: int) -> int
    decreases ps.len(),
{
    if ps.len() == 0 {
        1
    } else {
        let h = word_height(ps.drop_last(), row_min);
        let h2 = if h < row_min {
            row_min
        } else {
            h
        };
        let p = ps.last()@;
        let start = centred_start(p.len() as int, row_min);
        if p.len() >= 1 && start + p.len() > h2 {
            start + p.len()
        } else {
            h2
        }
    }
}

/// Line totals are non-negative and dominate every single line.
pub proof fn lemma_line_total_ge(p: Seq<Vec<bool>>, k: int)
    requires
        0 <= k < p.len(),
    ensures
        p[k]@.len() <= line_total(p),
        line_total(p) >= 0,
    decreases p.len(),
{
    if k < p.len() - 1 {
        lemma_line_total_ge(p.drop_last(), k);
        assert(p.drop_last()[k] == p[k]);
    } else {
        lemma_line_total_nonneg(p.drop_last());
    }
}

pub proof fn lemma_line_total_nonneg(p: Seq<Vec<bool>>)
    ensures
        line_total(p) >= 0,
    decreases p.len(),
{
    if p.len() > 0 {
        lemma_line_total_nonneg(p.drop_last());
    }
}

pub proof fn lemma_flags_total_nonneg(ps: Seq<Vec<Vec<bool>>>)
    ensures
        flags_total(ps) >= 0,
    decreases ps.len(),
{
    if ps.len() > 0 {
        lemma_flags_total_nonneg(ps.drop_last());
        lemma_line_total_nonneg(ps.last()@);
    }
}

/// A prefix of one pattern never holds more cells than the whole pattern.
pub proof fn lemma_line_total_prefix(p: Seq<Vec<bool>>, q: int)
    requires
        0 <= q <= p.len(),
    ensures
        line_total(p.take(q)) <= line_total(p),
    decreases p.len() - q,
{
    if q == p.len() {
        assert(p.take(q) =~= p);
    } else {
        lemma_line_total_prefix(p, q + 1);
        assert(p.take(q + 1).drop_last() =~= p.take(q));
        assert(p.take(q + 1).last() == p[q]);
    }
}

/// A prefix never holds more cells than the whole.
pub proof fn lemma_flags_total_prefix(ps: Seq<Vec<Vec<bool>>>, q: int)
    requires
        0 <= q <= ps.len(),
    ensures
        flags_total(ps.take(q)) <= flags_total(ps),
    decreases ps.len() - q,
{
    if q == ps.len() {
        assert(ps.take(q) =~= ps);
    } else {
        lemma_flags_total_prefix(ps, q + 1);
        assert(ps.take(q + 1).drop_last() =~= ps.take(q));
        assert(ps.take(q + 1).last() == ps[q]);
        lemma_line_total_nonneg(ps[q]@);
    }
}

/// Rows at or past the seeded height hold no flags.
pub proof fn lemma_word_row_flags_empty(ps: Seq<Vec<Vec<bool>>>, row_min: int, t: int)
    requires
        t >= word_height(ps, row_min),
        row_min >= 0,
    ensures
        word_row_flags(ps, row_min, t) == Seq::<bool>::empty(),
    decreases ps.len(),
{
    if ps.len() > 0 {
        lemma_word_row_flags_empty(ps.drop_last(), row_min, t);
    }
}

/// No single row holds more flags than the patterns hold cells in total.
pub proof fn lemma_word_row_flags_len(ps: Seq<Vec<Vec<bool>>>, row_min: int, t: int)
    ensures
        0 <= word_row_flags(ps, row_min, t).len() <= flags_total(ps),
    decreases ps.len(),
{
    if ps.len() > 0 {
        lemma_word_row_flags_len(ps.drop_last(), row_min, t);
        let p = ps.last()@;
        let start = centred_start(p.len() as int, row_min);
        if start <= t < start + p.len() {
            lemma_line_total_ge(p, t - start);
        } else {
            lemma_line_total_nonneg(p);
        }
    }
}

} // verus!
