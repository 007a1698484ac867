use vstd::prelude::*;

use crate::active::UniqueCoordinates;
use crate::cell::Cell;

verus! {

/// One horizontal row of the grid: a contiguous run of cells plus the y
/// coordinate all of them share.  The x coordinate of the first cell is the
/// row's base offset; the cells' x coordinates are consecutive from there.
pub struct CellRow {
    pub row: Vec<Cell>,
    pub y: isize,
}

impl CellRow {
    /// The x coordinate of the first cell.
    pub open spec fn base_x(self) -> int {
        self.row@[0].x as int
    }

    /// The row is non-empty and its cells carry consecutive x coordinates
    /// starting at the base offset.
    pub open spec fn wf(self) -> bool {
        &&& self.row@.len() >= 1
        &&& forall|j: int|
            0 <= j < self.row@.len() ==> (#[trigger] self.row@[j]).x == self.base_x() + j
    }

    /// The cell at absolute coordinate `x`, if the row covers it.
    pub open spec fn spec_cell(self, x: int) -> Option<Cell> {
        if self.base_x() <= x < self.base_x() + self.row@.len() {
            Some(self.row@[x - self.base_x()])
        } else {
            None
        }
    }

    /// A fresh one-cell row: one dead cell at `(base_x, y)`.
    pub fn new(y: isize, base_x: isize) -> (r: CellRow)
        ensures
            r.wf(),
            r.y == y,
            r.base_x() == base_x,
            r.row@.len() == 1,
            r.row@[0] == (Cell { is_alive: false, neighbours: 0, x: base_x }),
    {
        let mut row: Vec<Cell> = Vec::new();
        row.push(Cell::new(base_x, false));
        CellRow { row, y }
    }

    /// Appends one cell past the right end, extending the coordinate run.
    pub fn append_cell(&mut self, alive: bool)
        requires
            old(self).wf(),
            old(self).base_x() + old(self).row@.len() <= isize::MAX,
        ensures
            final(self).wf(),
            final(self).y == old(self).y,
            final(self).base_x() == old(self).base_x(),
            final(self).row@.len() == old(self).row@.len() + 1,
            forall|j: int|
                0 <= j < old(self).row@.len()
                    ==> final(self).row@[j] == old(self).row@[j],
            final(self).row@.last() == (Cell {
                is_alive: alive,
                neighbours: 0,
                x: (old(self).base_x() + old(self).row@.len()) as isize,
            }),
    {
        let n = self.row.len();
        let x = self.row[n - 1].x + 1;
        self.row.push(Cell::new(x, alive));
    }

    /// Prepends one cell before the left end, lowering the base offset by one.
    pub fn prepend_cell(&mut self, alive: bool)
        requires
            old(self).wf(),
            old(self).base_x() - 1 >= isize::MIN,
        ensures
            final(self).wf(),
            final(self).y == old(self).y,
            final(self).base_x() == old(self).base_x() - 1,
            final(self).row@.len() == old(self).row@.len() + 1,
            forall|j: int|
                0 <= j < old(self).row@.len()
                    ==> final(self).row@[j + 1] == old(self).row@[j],
            final(self).row@[0] == (Cell {
                is_alive: alive,
                neighbours: 0,
                x: (old(self).base_x() - 1) as isize,
            }),
    {
        let x = self.row[0].x - 1;
        self.row.insert(0, Cell::new(x, alive));
    }

    /// Looks the cell up by its absolute x coordinate; `None` when the row
    /// does not cover that coordinate.
    pub fn get_cell(&self, x: isize) -> (r: Option<&Cell>)
        requires
            self.wf(),
        ensures
            (match r {
                Some(c) => self.spec_cell(x as int) == Some(*c),
                None => self.spec_cell(x as int) is None,
            }),
    {
        let base_x = self.row[0].x;
        if x < base_x {
            return None;
        }
        let dif: i128 = x as i128 - base_x as i128;
        if dif >= self.row.len() as i128 {
            return None;
        }
        Some(&self.row[dif as usize])
    }
}

/// Two coordinates are Moore neighbours: distinct and at most one apart on
/// each axis.
pub open spec fn is_neighbour(ax: int, ay: int, bx: int, by: int) -> bool {
    (ax != bx || ay != by) && -1 <= ax - bx <= 1 && -1 <= ay - by <= 1
}

/// The dynamically sized grid: a stack of rows covering a rectangle of the
/// plane, plus the set of coordinates whose cells are currently alive.
pub struct GameGrid {
    pub grid: Vec<CellRow>,
    pub alive_cells: UniqueCoordinates,
}

impl GameGrid {
    pub open spec fn height(self) -> int {
        self.grid@.len() as int
    }

    pub open spec fn width(self) -> int {
        self.grid@[0].row@.len() as int
    }

    pub open spec fn base_x(self) -> int {
        self.grid@[0].base_x()
    }

    pub open spec fn base_y(self) -> int {
        self.grid@[0].y as int
    }

    /// Rows may have different lengths (allowed while a pattern is being
    /// seeded), but every row is itself well formed, all share one base x
    /// offset, and their y coordinates are consecutive.
    pub open spec fn wf_ragged(self) -> bool {
        &&& self.grid@.len() >= 1
        &&& forall|i: int|
            0 <= i < self.grid@.len() ==> {
                let r = #[trigger] self.grid@[i];
                r.wf() && r.base_x() == self.base_x() && r.y == self.base_y() + i
            }
    }

    /// The full shape invariant: ragged well-formedness plus rectangularity
    /// (all rows have the width of the first one).
    pub open spec fn wf(self) -> bool {
        &&& self.wf_ragged()
        &&& forall|i: int|
            0 <= i < self.grid@.len() ==> (#[trigger] self.grid@[i]).row@.len() == self.width()
    }

    pub open spec fn in_bounds(self, x: int, y: int) -> bool {
        self.base_x() <= x < self.base_x() + self.width()
            && self.base_y() <= y < self.base_y() + self.height()
    }

    /// The cell stored at absolute coordinate `(x, y)`, if the grid covers it.
    pub open spec fn spec_cell(self, x: int, y: int) -> Option<Cell> {
        if self.in_bounds(x, y) {
            Some(self.grid@[y - self.base_y()].row@[x - self.base_x()])
        } else {
            None
        }
    }

    /// There is a cell at `(x, y)` and it is alive.  Coordinates outside the
    /// grid count as dead.
    pub open spec fn alive_at(self, x: int, y: int) -> bool {
        self.in_bounds(x, y) && self.grid@[y - self.base_y()].row@[x - self.base_x()].is_alive
    }

    /// Tuple form of `alive_at`, used to tie coordinates in `alive_cells` to
    /// the grid.
    pub open spec fn coord_alive(self, c: (isize, isize)) -> bool {
        self.alive_at(c.0 as int, c.1 as int)
    }

    /// Some cell of the row with coordinate `y` is alive.
    pub open spec fn row_alive(self, y: int) -> bool {
        exists|x: int| self.alive_at(x, y)
    }

    /// Some cell of the column with coordinate `x` is alive.
    pub open spec fn col_alive(self, x: int) -> bool {
        exists|y: int| self.alive_at(x, y)
    }

    /// 1 when the cell at `(x, y)` is alive, else 0.
    pub open spec fn alive_n(self, x: int, y: int) -> int {
        if self.alive_at(x, y) { 1 } else { 0 }
    }

    /// How many of the 8 Moore neighbours of `(x, y)` hold a live cell.
    pub open spec fn count_alive(self, x: int, y: int) -> int {
        self.alive_n(x - 1, y - 1) + self.alive_n(x, y - 1) + self.alive_n(x + 1, y - 1)
            + self.alive_n(x - 1, y) + self.alive_n(x + 1, y)
            + self.alive_n(x - 1, y + 1) + self.alive_n(x, y + 1) + self.alive_n(x + 1, y + 1)
    }

    /// `alive_cells` holds exactly the coordinates of the live cells.
    pub open spec fn alive_sync(self) -> bool {
        forall|c: (isize, isize)|
            #![trigger self.alive_cells.contains_coord(c)]
            #![trigger self.coord_alive(c)]
            self.alive_cells.contains_coord(c) <==> self.coord_alive(c)
    }

    /// The grid invariant the simulation maintains: rectangular shape and a
    /// synchronised live-cell index without duplicates.
    pub open spec fn wf_all(self) -> bool {
        self.wf() && self.alive_cells.no_dups() && self.alive_sync()
    }

    /// `(x, y)` must be re-evaluated this generation: it is alive, or it is a
    /// present cell next to a live one.
    pub open spec fn is_candidate(self, x: int, y: int) -> bool {
        self.alive_at(x, y)
            || (self.in_bounds(x, y)
                && exists|ax: int, ay: int| is_neighbour(ax, ay, x, y) && self.alive_at(ax, ay))
    }

    /// Same base offsets and extents.
    pub open spec fn same_shape(self, o: GameGrid) -> bool {
        self.base_x() == o.base_x() && self.base_y() == o.base_y()
            && self.width() == o.width() && self.height() == o.height()
    }

    /// One more dead row or column can be represented on every edge.
    pub open spec fn can_reconcile(self) -> bool {
        &&& isize::MIN <= self.base_x() - 1
        &&& self.base_x() + self.width() <= isize::MAX
        &&& isize::MIN <= self.base_y() - 1
        &&& self.base_y() + self.height() <= isize::MAX
    }

    /// Any coordinate the grid covers fits in `isize` on both axes.
    pub proof fn lemma_in_bounds_repr(self, x: int, y: int)
        requires
            self.wf(),
            self.in_bounds(x, y),
        ensures
            isize::MIN <= x <= isize::MAX,
            isize::MIN <= y <= isize::MAX,
    {
        assert(self.grid@[0].row@[self.width() - 1].x == self.base_x() + self.width() - 1);
        assert(self.grid@[self.height() - 1].y == self.base_y() + self.height() - 1);
    }

    /// A fresh 1-by-1 grid holding a single dead cell at the origin, with an
    /// empty live-cell index.
    pub fn new() -> (g: GameGrid)
        ensures
            g.wf_all(),
            g.height() == 1,
            g.width() == 1,
            g.base_x() == 0,
            g.base_y() == 0,
            forall|x: int, y: int| !g.alive_at(x, y),
            g.grid@[0].y == 0,
            g.grid@[0].row@[0] == (Cell { is_alive: false, neighbours: 0, x: 0 }),
            g.alive_cells.coords@ == Seq::<(isize, isize)>::empty(),
    {
        let mut grid: Vec<CellRow> = Vec::new();
        grid.push(CellRow::new(0, 0));
        let g = GameGrid { grid, alive_cells: UniqueCoordinates::new() };
        proof {
            assert(forall|x: int, y: int| !g.alive_at(x, y));
            assert(forall|c: (isize, isize)| !g.alive_cells.contains_coord(c));
        }
        g
    }

    /// The row with absolute y coordinate `y`, if the grid covers it.
    pub fn get_row(&self, y: isize) -> (r: Option<&CellRow>)
        requires
            self.wf(),
        ensures
            (match r {
                Some(row) => {
                    &&& self.base_y() <= y as int
                    &&& (y as int) < self.base_y() + self.height()
                    &&& *row == self.grid@[y - self.base_y()]
                },
                None => !(self.base_y() <= y as int && (y as int) < self.base_y()
                    + self.height()),
            }),
    {
        let base_y = self.grid[0].y;
        if y < base_y {
            return None;
        }
        let dif: i128 = y as i128 - base_y as i128;
        if dif >= self.grid.len() as i128 {
            return None;
        }
        Some(&self.grid[dif as usize])
    }

    /// The cell at absolute coordinate `(x, y)`: `Some` exactly when the grid
    /// covers the coordinate ("present"), `None` otherwise ("not present",
    /// distinct from a present-but-dead cell).
    pub fn get_cell(&self, x: isize, y: isize) -> (r: Option<&Cell>)
        requires
            self.wf(),
        ensures
            (match r {
                Some(c) => self.spec_cell(x as int, y as int) == Some(*c),
                None => self.spec_cell(x as int, y as int) is None,
            }),
    {
        match self.get_row(y) {
            None => None,
            Some(row) => row.get_cell(x),
        }
    }

    /// Bounds test on wide coordinates (used so neighbour arithmetic can
    /// never overflow).
    fn coord_in_bounds(&self, x: i128, y: i128) -> (r: bool)
        requires
            self.wf(),
            isize::MIN - 1 <= x as int <= isize::MAX + 1,
            isize::MIN - 1 <= y as int <= isize::MAX + 1,
        ensures
            r == self.in_bounds(x as int, y as int),
    {
        let base_x = self.grid[0].row[0].x;
        let base_y = self.grid[0].y;
        let w = self.grid[0].row.len();
        let h = self.grid.len();
        base_x as i128 <= x && x < base_x as i128 + w as i128 && base_y as i128 <= y
            && y < base_y as i128 + h as i128
    }

    /// Is there a live cell at the (wide) coordinate?
    fn alive_probe(&self, x: i128, y: i128) -> (r: bool)
        requires
            self.wf(),
            isize::MIN - 1 <= x as int <= isize::MAX + 1,
            isize::MIN - 1 <= y as int <= isize::MAX + 1,
        ensures
            r == self.alive_at(x as int, y as int),
    {
        let base_y = self.grid[0].y;
        if y < base_y as i128 {
            return false;
        }
        let iy = y - base_y as i128;
        if iy >= self.grid.len() as i128 {
            return false;
        }
        let row = &self.grid[iy as usize];
        let base_x = row.row[0].x;
        if x < base_x as i128 {
            return false;
        }
        let ix = x - base_x as i128;
        if ix >= row.row.len() as i128 {
            return false;
        }
        row.row[ix as usize].is_alive
    }

    /// Counts the live cells among the 8 Moore neighbours of `(x, y)`;
    /// coordinates the grid does not cover count as dead.
    pub fn count_neighbours(&self, x: isize, y: isize) -> (n: u8)
        requires
            self.wf(),
        ensures
            n as int == self.count_alive(x as int, y as int),
            n <= 8,
    {
        let xi = x as i128;
        let yi = y as i128;
        let mut n: u8 = 0;
        if self.alive_probe(xi - 1, yi - 1) {
            n = n + 1;
        }
        if self.alive_probe(xi, yi - 1) {
            n = n + 1;
        }
        if self.alive_probe(xi + 1, yi - 1) {
            n = n + 1;
        }
        if self.alive_probe(xi - 1, yi) {
            n = n + 1;
        }
        if self.alive_probe(xi + 1, yi) {
            n = n + 1;
        }
        if self.alive_probe(xi - 1, yi + 1) {
            n = n + 1;
        }
        if self.alive_probe(xi, yi + 1) {
            n = n + 1;
        }
        if self.alive_probe(xi + 1, yi + 1) {
            n = n + 1;
        }
        n
    }

    /// Records the coordinate in `v` when the grid covers it and it is not
    /// there yet.
    fn push_if_present(&self, v: &mut UniqueCoordinates, cx: i128, cy: i128)
        requires
            self.wf(),
            old(v).no_dups(),
            isize::MIN - 1 <= cx as int <= isize::MAX + 1,
            isize::MIN - 1 <= cy as int <= isize::MAX + 1,
        ensures
            final(v).no_dups(),
            final(v).coords@.len() <= old(v).coords@.len() + 1,
            forall|c: (isize, isize)|
                #[trigger] final(v).contains_coord(c)
                    <==> (old(v).contains_coord(c)
                        || (self.in_bounds(cx as int, cy as int) && c.0 as int == cx as int
                            && c.1 as int == cy as int)),
    {
        if self.coord_in_bounds(cx, cy) {
            proof {
                self.lemma_in_bounds_repr(cx as int, cy as int);
            }
            v.push((cx as isize, cy as isize));
            proof {
                let p = ((cx as int) as isize, (cy as int) as isize);
                assert forall|c: (isize, isize)|
                    #[trigger] v.contains_coord(c)
                        <==> (old(v).contains_coord(c)
                            || (c.0 as int == cx as int && c.1 as int == cy as int)) by {
                    assert((c == p) == (c.0 as int == cx as int && c.1 as int == cy as int));
                }
            }
        }
    }

    /// The coordinates of the Moore neighbours of `(x, y)` that are present
    /// in the grid, without duplicates; absent neighbours are skipped, never
    /// an error.
    pub fn get_neighbours_coords(&self, x: isize, y: isize) -> (r: Vec<(isize, isize)>)
        requires
            self.wf(),
        ensures
            forall|c: (isize, isize)|
                #[trigger] r@.contains(c)
                    <==> (self.in_bounds(c.0 as int, c.1 as int)
                        && is_neighbour(c.0 as int, c.1 as int, x as int, y as int)),
            forall|i: int, j: int| 0 <= i < j < r@.len() ==> r@[i] != r@[j],
            r@.len() <= 8,
    {
        let xi = x as i128;
        let yi = y as i128;
        let mut r = UniqueCoordinates::new();
        self.push_if_present(&mut r, xi - 1, yi - 1);
        self.push_if_present(&mut r, xi, yi - 1);
        self.push_if_present(&mut r, xi + 1, yi - 1);
        self.push_if_present(&mut r, xi - 1, yi);
        self.push_if_present(&mut r, xi + 1, yi);
        self.push_if_present(&mut r, xi - 1, yi + 1);
        self.push_if_present(&mut r, xi, yi + 1);
        self.push_if_present(&mut r, xi + 1, yi + 1);
        proof {
            assert forall|c: (isize, isize)|
                (self.in_bounds(c.0 as int, c.1 as int)
                    && is_neighbour(c.0 as int, c.1 as int, x as int, y as int)) implies
                #[trigger] r.contains_coord(c) by {
                let cx = c.0 as int;
                let cy = c.1 as int;
                assert(cx == x - 1 || cx == x as int || cx == x + 1);
                assert(cy == y - 1 || cy == y as int || cy == y + 1);
            }
            assert forall|c: (isize, isize)|
                #[trigger] r.coords@.contains(c)
                    <==> (self.in_bounds(c.0 as int, c.1 as int)
                        && is_neighbour(c.0 as int, c.1 as int, x as int, y as int)) by {
                assert(r.contains_coord(c) == r.coords@.contains(c));
            }
        }
        r.coords
    }
}

impl GameGrid {
    /// Does the row at (absolute) index `index` hold a live cell?
    pub fn is_alive_row(&self, index: usize) -> (r: bool)
        requires
            self.wf(),
            index < self.grid@.len(),
        ensures
            r == self.row_alive(self.base_y() + index),
    {
        let ghost yy: int = self.base_y() + index;
        let row = &self.grid[index];
        let n = row.row.len();
        let mut j: usize = 0;
        while j < n
            invariant
                self.wf(),
                index < self.grid@.len(),
                *row == self.grid@[index as int],
                n == row.row@.len(),
                j <= n,
                yy == self.base_y() + index,
                forall|k: int| 0 <= k < j ==> !row.row@[k].is_alive,
            decreases n - j,
        {
            if row.row[j].is_alive {
                proof {
                    assert(self.alive_at(self.base_x() + j, yy));
                }
                return true;
            }
            j += 1;
        }
        proof {
            assert forall|x: int| !self.alive_at(x, yy) by {
                if self.in_bounds(x, yy) {
                    assert(!row.row@[x - self.base_x()].is_alive);
                }
            }
        }
        false
    }

    /// Does the column at (relative) index `index` hold a live cell?
    pub fn is_alive_column(&self, index: usize) -> (r: bool)
        requires
            self.wf(),
            index < self.width(),
        ensures
            r == self.col_alive(self.base_x() + index),
    {
        let ghost xx: int = self.base_x() + index;
        let n = self.grid.len();
        let mut i: usize = 0;
        while i < n
            invariant
                self.wf(),
                index < self.width(),
                n == self.grid@.len(),
                i <= n,
                xx == self.base_x() + index,
                forall|k: int| 0 <= k < i ==> !self.grid@[k].row@[index as int].is_alive,
            decreases n - i,
        {
            if self.grid[i].row[index].is_alive {
                proof {
                    assert(self.alive_at(xx, self.base_y() + i));
                }
                return true;
            }
            i += 1;
        }
        proof {
            assert forall|y: int| !self.alive_at(xx, y) by {
                if self.in_bounds(xx, y) {
                    assert(!self.grid@[y - self.base_y()].row@[index as int].is_alive);
                }
            }
        }
        false
    }

    /// Is any cell of the first (topmost) row alive?
    pub fn is_alive_top(&self) -> (r: bool)
        requires
            self.wf(),
        ensures
            r == self.row_alive(self.base_y()),
    {
        self.is_alive_row(0)
    }

    /// Is any cell of the last (bottom) row alive?
    pub fn is_alive_bottom(&self) -> (r: bool)
        requires
            self.wf(),
        ensures
            r == self.row_alive(self.base_y() + self.height() - 1),
    {
        self.is_alive_row(self.grid.len() - 1)
    }

    /// Is any cell of the leftmost column alive?
    pub fn is_alive_left(&self) -> (r: bool)
        requires
            self.wf(),
        ensures
            r == self.col_alive(self.base_x()),
    {
        self.is_alive_column(0)
    }

    /// Is any cell of the rightmost column alive?
    pub fn is_alive_right(&self) -> (r: bool)
        requires
            self.wf(),
        ensures
            r == self.col_alive(self.base_x() + self.width() - 1),
    {
        self.is_alive_column(self.grid[0].row.len() - 1)
    }

    /// Inserts an all-dead column before the left edge; every existing cell
    /// keeps its coordinate and state.
    pub fn prepend_column_and_fill(&mut self)
        requires
            old(self).wf(),
            isize::MIN <= old(self).base_x() - 1,
        ensures
            final(self).wf(),
            final(self).base_x() == old(self).base_x() - 1,
            final(self).base_y() == old(self).base_y(),
            final(self).width() == old(self).width() + 1,
            final(self).height() == old(self).height(),
            forall|x: int, y: int|
                old(self).in_bounds(x, y)
                    ==> final(self).spec_cell(x, y) == old(self).spec_cell(x, y),
            forall|x: int, y: int|
                final(self).alive_at(x, y) == old(self).alive_at(x, y),
            final(self).alive_cells == old(self).alive_cells,
    {
        let h = self.grid.len();
        let mut i: usize = 0;
        while i < h
            invariant
                old(self).wf(),
                isize::MIN <= old(self).base_x() - 1,
                h == self.grid@.len(),
                h == old(self).grid@.len(),
                i <= h,
                self.alive_cells == old(self).alive_cells,
                forall|k: int| i <= k < h ==> self.grid@[k] == old(self).grid@[k],
                forall|k: int|
                    0 <= k < i ==> {
                        let r2 = #[trigger] self.grid@[k];
                        let r1 = old(self).grid@[k];
                        r2.wf() && r2.y == r1.y && r2.base_x() == r1.base_x() - 1
                            && r2.row@.len() == r1.row@.len() + 1
                            && r2.row@[0].is_alive == false
                            && (forall|j: int| 0 <= j < r1.row@.len()
                                ==> r2.row@[j + 1] == r1.row@[j])
                    },
            decreases h - i,
        {
            proof {
                assert(old(self).grid@[i as int].wf());
            }
            self.grid[i].prepend_cell(false);
            i += 1;
        }
        proof {
            let pre = *old(self);
            let post = *self;
            assert(post.base_x() == pre.base_x() - 1);
            assert forall|x: int, y: int|
                pre.in_bounds(x, y) implies post.spec_cell(x, y) == pre.spec_cell(x, y) by {
                let iy = y - pre.base_y();
                assert(post.grid@[iy].row@[x - post.base_x()] == pre.grid@[iy].row@[x
                    - pre.base_x()]);
            }
            assert forall|x: int, y: int|
                post.alive_at(x, y) == pre.alive_at(x, y) by {
                if pre.in_bounds(x, y) {
                    assert(post.spec_cell(x, y) == pre.spec_cell(x, y));
                    assert(post.alive_at(x, y) == pre.alive_at(x, y));
                } else if x == post.base_x() && pre.base_y() <= y < pre.base_y()
                    + pre.height() {
                    assert(post.grid@[y - post.base_y()].row@[0].is_alive == false);
                    assert(!post.alive_at(x, y));
                    assert(!pre.alive_at(x, y));
                } else {
                    assert(!post.in_bounds(x, y));
                    assert(!pre.in_bounds(x, y));
                }
            }
        }
    }

    /// Appends an all-dead column past the right edge; every existing cell
    /// keeps its coordinate and state.
    pub fn append_column_and_fill(&mut self)
        requires
            old(self).wf(),
            old(self).base_x() + old(self).width() <= isize::MAX,
        ensures
            final(self).wf(),
            final(self).base_x() == old(self).base_x(),
            final(self).base_y() == old(self).base_y(),
            final(self).width() == old(self).width() + 1,
            final(self).height() == old(self).height(),
            forall|x: int, y: int|
                old(self).in_bounds(x, y)
                    ==> final(self).spec_cell(x, y) == old(self).spec_cell(x, y),
            forall|x: int, y: int|
                final(self).alive_at(x, y) == old(self).alive_at(x, y),
            final(self).alive_cells == old(self).alive_cells,
    {
        let h = self.grid.len();
        let mut i: usize = 0;
        while i < h
            invariant
                old(self).wf(),
                old(self).base_x() + old(self).width() <= isize::MAX,
                h == self.grid@.len(),
                h == old(self).grid@.len(),
                i <= h,
                self.alive_cells == old(self).alive_cells,
                forall|k: int| i <= k < h ==> self.grid@[k] == old(self).grid@[k],
                forall|k: int|
                    0 <= k < i ==> {
                        let r2 = #[trigger] self.grid@[k];
                        let r1 = old(self).grid@[k];
                        r2.wf() && r2.y == r1.y && r2.base_x() == r1.base_x()
                            && r2.row@.len() == r1.row@.len() + 1
                            && r2.row@.last().is_alive == false
                            && (forall|j: int| 0 <= j < r1.row@.len()
                                ==> r2.row@[j] == r1.row@[j])
                    },
            decreases h - i,
        {
            proof {
                assert(old(self).grid@[i as int].wf());
            }
            self.grid[i].append_cell(false);
            i += 1;
        }
        proof {
            let pre = *old(self);
            let post = *self;
            assert forall|x: int, y: int|
                pre.in_bounds(x, y) implies post.spec_cell(x, y) == pre.spec_cell(x, y) by {
                let iy = y - pre.base_y();
                assert(post.grid@[iy].row@[x - post.base_x()] == pre.grid@[iy].row@[x
                    - pre.base_x()]);
            }
            assert forall|x: int, y: int|
                post.alive_at(x, y) == pre.alive_at(x, y) by {
                if pre.in_bounds(x, y) {
                    assert(post.spec_cell(x, y) == pre.spec_cell(x, y));
                } else if x == pre.base_x() + pre.width() && pre.base_y() <= y
                    < pre.base_y() + pre.height() {
                    let iy = y - pre.base_y();
                    assert(post.grid@[iy].row@.last().is_alive == false);
                    assert(post.grid@[iy].row@[x - post.base_x()]
                        == post.grid@[iy].row@.last());
                    assert(!post.alive_at(x, y));
                } else {
                    assert(!post.in_bounds(x, y));
                }
            }
        }
    }

    /// Removes the leftmost column; it must not be the only one.
    pub fn remove_first_column(&mut self)
        requires
            old(self).wf(),
            old(self).width() >= 2,
        ensures
            final(self).wf(),
            final(self).base_x() == old(self).base_x() + 1,
            final(self).base_y() == old(self).base_y(),
            final(self).width() == old(self).width() - 1,
            final(self).height() == old(self).height(),
            forall|x: int, y: int|
                final(self).in_bounds(x, y)
                    ==> final(self).spec_cell(x, y) == old(self).spec_cell(x, y),
            forall|x: int, y: int|
                final(self).alive_at(x, y) == (old(self).alive_at(x, y) && x != old(
                    self,
                ).base_x()),
            final(self).alive_cells == old(self).alive_cells,
    {
        let h = self.grid.len();
        let mut i: usize = 0;
        while i < h
            invariant
                old(self).wf(),
                old(self).width() >= 2,
                h == self.grid@.len(),
                h == old(self).grid@.len(),
                i <= h,
                self.alive_cells == old(self).alive_cells,
                forall|k: int| i <= k < h ==> self.grid@[k] == old(self).grid@[k],
                forall|k: int|
                    0 <= k < i ==> {
                        let r2 = #[trigger] self.grid@[k];
                        let r1 = old(self).grid@[k];
                        r2.y == r1.y && r2.row@ == r1.row@.subrange(1, r1.row@.len() as int)
                    },
            decreases h - i,
        {
            proof {
                assert(old(self).grid@[i as int].wf());
                assert(self.grid@[i as int].row@.len() >= 2);
            }
            self.grid[i].row.remove(0);
            proof {
                assert(self.grid@[i as int].row@ == old(self).grid@[i as int].row@.remove(0));
                assert(self.grid@[i as int].row@ =~= old(self).grid@[i as int].row@.subrange(
                    1,
                    old(self).grid@[i as int].row@.len() as int,
                ));
            }
            i += 1;
        }
        proof {
            let pre = *old(self);
            let post = *self;
            assert forall|k: int| 0 <= k < h implies (#[trigger] post.grid@[k]).wf()
                && post.grid@[k].row@.len() == pre.width() - 1
                && post.grid@[k].base_x() == pre.base_x() + 1
                && post.grid@[k].y == pre.base_y() + k by {
                assert(pre.grid@[k].wf());
                assert(forall|j: int| 0 <= j < post.grid@[k].row@.len()
                    ==> post.grid@[k].row@[j] == pre.grid@[k].row@[j + 1]);
            }
            assert(post.wf());
            assert forall|x: int, y: int|
                post.in_bounds(x, y) implies post.spec_cell(x, y) == pre.spec_cell(x, y) by {
                let iy = y - pre.base_y();
                assert(post.grid@[iy].row@[x - post.base_x()] == pre.grid@[iy].row@[x
                    - pre.base_x()]);
            }
            assert forall|x: int, y: int|
                post.alive_at(x, y) == (pre.alive_at(x, y) && x != pre.base_x()) by {
                if post.in_bounds(x, y) {
                    assert(post.spec_cell(x, y) == pre.spec_cell(x, y));
                } else {
                    assert(!post.alive_at(x, y));
                    if pre.in_bounds(x, y) && x != pre.base_x() {
                        assert(post.in_bounds(x, y));
                    }
                }
            }
        }
    }

    /// Removes the rightmost column; it must not be the only one.
    pub fn remove_last_column(&mut self)
        requires
            old(self).wf(),
            old(self).width() >= 2,
        ensures
            final(self).wf(),
            final(self).base_x() == old(self).base_x(),
            final(self).base_y() == old(self).base_y(),
            final(self).width() == old(self).width() - 1,
            final(self).height() == old(self).height(),
            forall|x: int, y: int|
                final(self).in_bounds(x, y)
                    ==> final(self).spec_cell(x, y) == old(self).spec_cell(x, y),
            forall|x: int, y: int|
                final(self).alive_at(x, y) == (old(self).alive_at(x, y) && x != old(
                    self,
                ).base_x() + old(self).width() - 1),
            final(self).alive_cells == old(self).alive_cells,
    {
        let h = self.grid.len();
        let mut i: usize = 0;
        while i < h
            invariant
                old(self).wf(),
                old(self).width() >= 2,
                h == self.grid@.len(),
                h == old(self).grid@.len(),
                i <= h,
                self.alive_cells == old(self).alive_cells,
                forall|k: int| i <= k < h ==> self.grid@[k] == old(self).grid@[k],
                forall|k: int|
                    0 <= k < i ==> {
                        let r2 = #[trigger] self.grid@[k];
                        let r1 = old(self).grid@[k];
                        r2.y == r1.y && r2.row@ == r1.row@.subrange(0, r1.row@.len() - 1)
                    },
            decreases h - i,
        {
            proof {
                assert(old(self).grid@[i as int].wf());
                assert(self.grid@[i as int].row@.len() >= 2);
            }
            self.grid[i].row.pop();
            proof {
                assert(self.grid@[i as int].row@ =~= old(self).grid@[i as int].row@.subrange(
                    0,
                    old(self).grid@[i as int].row@.len() - 1,
                ));
            }
            i += 1;
        }
        proof {
            let pre = *old(self);
            let post = *self;
            assert forall|k: int| 0 <= k < h implies (#[trigger] post.grid@[k]).wf()
                && post.grid@[k].row@.len() == pre.width() - 1
                && post.grid@[k].base_x() == pre.base_x()
                && post.grid@[k].y == pre.base_y() + k by {
                assert(pre.grid@[k].wf());
                assert(forall|j: int| 0 <= j < post.grid@[k].row@.len()
                    ==> post.grid@[k].row@[j] == pre.grid@[k].row@[j]);
            }
            assert(post.wf());
            assert forall|x: int, y: int|
                post.in_bounds(x, y) implies post.spec_cell(x, y) == pre.spec_cell(x, y) by {
                let iy = y - pre.base_y();
                assert(post.grid@[iy].row@[x - post.base_x()] == pre.grid@[iy].row@[x
                    - pre.base_x()]);
            }
            assert forall|x: int, y: int|
                post.alive_at(x, y) == (pre.alive_at(x, y) && x != pre.base_x() + pre.width()
                    - 1) by {
                if post.in_bounds(x, y) {
                    assert(post.spec_cell(x, y) == pre.spec_cell(x, y));
                } else {
                    assert(!post.alive_at(x, y));
                    if pre.in_bounds(x, y) && x != pre.base_x() + pre.width() - 1 {
                        assert(post.in_bounds(x, y));
                    }
                }
            }
        }
    }
}

impl GameGrid {
    /// Appends an all-dead row below the bottom edge; every existing cell
    /// keeps its coordinate and state.
    pub fn append_row_and_fill(&mut self)
        requires
            old(self).wf(),
            old(self).base_y() + old(self).height() <= isize::MAX,
        ensures
            final(self).wf(),
            final(self).base_x() == old(self).base_x(),
            final(self).base_y() == old(self).base_y(),
            final(self).width() == old(self).width(),
            final(self).height() == old(self).height() + 1,
            forall|x: int, y: int|
                old(self).in_bounds(x, y)
                    ==> final(self).spec_cell(x, y) == old(self).spec_cell(x, y),
            forall|x: int, y: int|
                final(self).alive_at(x, y) == old(self).alive_at(x, y),
            final(self).alive_cells == old(self).alive_cells,
    {
        let h = self.grid.len();
        let y = self.grid[h - 1].y + 1;
        let base_x = self.grid[0].row[0].x;
        let w = self.grid[0].row.len();
        let mut cr = CellRow::new(y, base_x);
        while cr.row.len() < w
            invariant
                old(self).wf(),
                *self == *old(self),
                w == old(self).width(),
                cr.wf(),
                cr.y == y,
                y as int == old(self).base_y() + old(self).height(),
                cr.base_x() == old(self).base_x(),
                1 <= cr.row@.len() <= w,
                forall|j: int| 0 <= j < cr.row@.len() ==> !(#[trigger] cr.row@[j]).is_alive,
            decreases w - cr.row@.len(),
        {
            proof {
                assert(old(self).grid@[0].row@[w - 1].x == old(self).base_x() + w - 1);
            }
            cr.append_cell(false);
        }
        self.grid.push(cr);
        proof {
            let pre = *old(self);
            let post = *self;
            assert(forall|k: int| 0 <= k < pre.grid@.len()
                ==> post.grid@[k] == pre.grid@[k]);
            assert(post.wf());
            assert forall|x: int, y2: int|
                pre.in_bounds(x, y2) implies post.spec_cell(x, y2) == pre.spec_cell(x, y2) by {
                assert(post.grid@[y2 - pre.base_y()] == pre.grid@[y2 - pre.base_y()]);
            }
            assert forall|x: int, y2: int|
                post.alive_at(x, y2) == pre.alive_at(x, y2) by {
                if pre.in_bounds(x, y2) {
                    assert(post.spec_cell(x, y2) == pre.spec_cell(x, y2));
                } else if y2 == pre.base_y() + pre.height() && pre.base_x() <= x
                    < pre.base_x() + pre.width() {
                    assert(post.grid@[y2 - post.base_y()] == cr);
                    assert(!cr.row@[x - pre.base_x()].is_alive);
                    assert(!post.alive_at(x, y2));
                } else {
                    assert(!post.in_bounds(x, y2));
                }
            }
        }
    }

    /// Inserts an all-dead row above the top edge; every existing cell keeps
    /// its coordinate and state.
    pub fn prepend_row_and_fill(&mut self)
        requires
            old(self).wf(),
            isize::MIN <= old(self).base_y() - 1,
        ensures
            final(self).wf(),
            final(self).base_x() == old(self).base_x(),
            final(self).base_y() == old(self).base_y() - 1,
            final(self).width() == old(self).width(),
            final(self).height() == old(self).height() + 1,
            forall|x: int, y: int|
                old(self).in_bounds(x, y)
                    ==> final(self).spec_cell(x, y) == old(self).spec_cell(x, y),
            forall|x: int, y: int|
                final(self).alive_at(x, y) == old(self).alive_at(x, y),
            final(self).alive_cells == old(self).alive_cells,
    {
        let y = self.grid[0].y - 1;
        let base_x = self.grid[0].row[0].x;
        let w = self.grid[0].row.len();
        let mut cr = CellRow::new(y, base_x);
        while cr.row.len() < w
            invariant
                old(self).wf(),
                *self == *old(self),
                w == old(self).width(),
                cr.wf(),
                cr.y == y,
                y as int == old(self).base_y() - 1,
                cr.base_x() == old(self).base_x(),
                1 <= cr.row@.len() <= w,
                forall|j: int| 0 <= j < cr.row@.len() ==> !(#[trigger] cr.row@[j]).is_alive,
            decreases w - cr.row@.len(),
        {
            proof {
                assert(old(self).grid@[0].row@[w - 1].x == old(self).base_x() + w - 1);
            }
            cr.append_cell(false);
        }
        self.grid.insert(0, cr);
        proof {
            let pre = *old(self);
            let post = *self;
            assert(post.grid@[0] == cr);
            assert(forall|k: int| 0 <= k < pre.grid@.len()
                ==> post.grid@[k + 1] == pre.grid@[k]);
            assert forall|k: int| 0 <= k < post.grid@.len() implies {
                let r = #[trigger] post.grid@[k];
                r.wf() && r.base_x() == post.base_x() && r.y == post.base_y() + k
                    && r.row@.len() == post.width()
            } by {
                if k >= 1 {
                    assert(post.grid@[k] == pre.grid@[k - 1]);
                    assert(pre.grid@[k - 1].wf());
                }
            }
            assert(post.wf());
            assert forall|x: int, y2: int|
                pre.in_bounds(x, y2) implies post.spec_cell(x, y2) == pre.spec_cell(x, y2) by {
                assert(post.grid@[y2 - post.base_y()] == pre.grid@[y2 - pre.base_y()]);
            }
            assert forall|x: int, y2: int|
                post.alive_at(x, y2) == pre.alive_at(x, y2) by {
                if pre.in_bounds(x, y2) {
                    assert(post.spec_cell(x, y2) == pre.spec_cell(x, y2));
                } else if y2 == pre.base_y() - 1 && pre.base_x() <= x < pre.base_x()
                    + pre.width() {
                    assert(post.grid@[0] == cr);
                    assert(!cr.row@[x - pre.base_x()].is_alive);
                    assert(!post.alive_at(x, y2));
                } else {
                    assert(!post.in_bounds(x, y2));
                }
            }
        }
    }

    /// Removes the topmost row; it must not be the only one.
    pub fn remove_first_row(&mut self)
        requires
            old(self).wf(),
            old(self).height() >= 2,
        ensures
            final(self).wf(),
            final(self).base_x() == old(self).base_x(),
            final(self).base_y() == old(self).base_y() + 1,
            final(self).width() == old(self).width(),
            final(self).height() == old(self).height() - 1,
            forall|x: int, y: int|
                final(self).in_bounds(x, y)
                    ==> final(self).spec_cell(x, y) == old(self).spec_cell(x, y),
            forall|x: int, y: int|
                final(self).alive_at(x, y) == (old(self).alive_at(x, y) && y != old(
                    self,
                ).base_y()),
            final(self).alive_cells == old(self).alive_cells,
    {
        proof {
            assert(old(self).grid@[1].wf());
        }
        self.grid.remove(0);
        proof {
            let pre = *old(self);
            let post = *self;
            assert(forall|k: int| 0 <= k < post.grid@.len()
                ==> post.grid@[k] == pre.grid@[k + 1]);
            assert forall|k: int| 0 <= k < post.grid@.len() implies {
                let r = #[trigger] post.grid@[k];
                r.wf() && r.base_x() == post.base_x() && r.y == post.base_y() + k
                    && r.row@.len() == post.width()
            } by {
                assert(pre.grid@[k + 1].wf());
            }
            assert(post.wf());
            assert forall|x: int, y: int|
                post.in_bounds(x, y) implies post.spec_cell(x, y) == pre.spec_cell(x, y) by {
                assert(post.grid@[y - post.base_y()] == pre.grid@[y - pre.base_y()]);
            }
            assert forall|x: int, y: int|
                post.alive_at(x, y) == (pre.alive_at(x, y) && y != pre.base_y()) by {
                if post.in_bounds(x, y) {
                    assert(post.spec_cell(x, y) == pre.spec_cell(x, y));
                } else {
                    assert(!post.alive_at(x, y));
                    if pre.in_bounds(x, y) && y != pre.base_y() {
                        assert(post.in_bounds(x, y));
                    }
                }
            }
        }
    }

    /// Removes the bottom row; it must not be the only one.
    pub fn remove_last_row(&mut self)
        requires
            old(self).wf(),
            old(self).height() >= 2,
        ensures
            final(self).wf(),
            final(self).base_x() == old(self).base_x(),
            final(self).base_y() == old(self).base_y(),
            final(self).width() == old(self).width(),
            final(self).height() == old(self).height() - 1,
            forall|x: int, y: int|
                final(self).in_bounds(x, y)
                    ==> final(self).spec_cell(x, y) == old(self).spec_cell(x, y),
            forall|x: int, y: int|
                final(self).alive_at(x, y) == (old(self).alive_at(x, y) && y != old(
                    self,
                ).base_y() + old(self).height() - 1),
            final(self).alive_cells == old(self).alive_cells,
    {
        self.grid.pop();
        proof {
            let pre = *old(self);
            let post = *self;
            assert(forall|k: int| 0 <= k < post.grid@.len()
                ==> post.grid@[k] == pre.grid@[k]);
            assert forall|k: int| 0 <= k < post.grid@.len() implies {
                let r = #[trigger] post.grid@[k];
                r.wf() && r.base_x() == post.base_x() && r.y == post.base_y() + k
                    && r.row@.len() == post.width()
            } by {
                assert(pre.grid@[k].wf());
            }
            assert(post.wf());
            assert forall|x: int, y: int|
                post.in_bounds(x, y) implies post.spec_cell(x, y) == pre.spec_cell(x, y) by {
                assert(post.grid@[y - post.base_y()] == pre.grid@[y - pre.base_y()]);
            }
            assert forall|x: int, y: int|
                post.alive_at(x, y) == (pre.alive_at(x, y) && y != pre.base_y()
                    + pre.height() - 1) by {
                if post.in_bounds(x, y) {
                    assert(post.spec_cell(x, y) == pre.spec_cell(x, y));
                } else {
                    assert(!post.alive_at(x, y));
                    if pre.in_bounds(x, y) && y != pre.base_y() + pre.height() - 1 {
                        assert(post.in_bounds(x, y));
                    }
                }
            }
        }
    }

    /// Appends a fresh one-cell row below the bottom edge (seeding only: the
    /// grid may be ragged before and after).
    pub fn append_row(&mut self)
        requires
            old(self).wf_ragged(),
            old(self).base_y() + old(self).height() <= isize::MAX,
        ensures
            final(self).wf_ragged(),
            final(self).base_x() == old(self).base_x(),
            final(self).base_y() == old(self).base_y(),
            final(self).height() == old(self).height() + 1,
            forall|k: int|
                0 <= k < old(self).grid@.len()
                    ==> final(self).grid@[k] == old(self).grid@[k],
            final(self).grid@.last().row@.len() == 1,
            !final(self).grid@.last().row@[0].is_alive,
            final(self).grid@.last().row@[0].neighbours == 0,
            final(self).grid@.last().row@[0].x as int == old(self).base_x(),
            final(self).alive_cells == old(self).alive_cells,
    {
        let h = self.grid.len();
        let y = self.grid[h - 1].y + 1;
        let base_x = self.grid[0].row[0].x;
        let cr = CellRow::new(y, base_x);
        self.grid.push(cr);
        proof {
            assert(forall|k: int| 0 <= k < old(self).grid@.len()
                ==> self.grid@[k] == old(self).grid@[k]);
            assert(self.grid@.last() == cr);
        }
    }
}

impl GameGrid {
    /// The left edge must grow: some cell of the leftmost column is alive.
    pub open spec fn grow_left_now(self) -> bool {
        self.col_alive(self.base_x())
    }

    /// The left edge must shrink: the leftmost column is dead (no grow), a
    /// second column exists, and that interior neighbour column is dead too.
    pub open spec fn shrink_left_now(self) -> bool {
        !self.grow_left_now() && self.width() >= 2 && !self.col_alive(self.base_x() + 1)
    }

    pub open spec fn grow_right_now(self) -> bool {
        self.col_alive(self.base_x() + self.width() - 1)
    }

    /// The width after the left edge has been reconciled; the right-edge
    /// shrink check runs against this intermediate width.
    pub open spec fn width_mid(self) -> int {
        self.width() + (if self.grow_left_now() { 1 as int } else { 0 }) - (
        if self.shrink_left_now() { 1 as int } else { 0 })
    }

    pub open spec fn shrink_right_now(self) -> bool {
        !self.grow_right_now() && self.width_mid() >= 2 && !self.col_alive(
            self.base_x() + self.width() - 2,
        )
    }

    pub open spec fn grow_bottom_now(self) -> bool {
        self.row_alive(self.base_y() + self.height() - 1)
    }

    pub open spec fn shrink_bottom_now(self) -> bool {
        !self.grow_bottom_now() && self.height() >= 2 && !self.row_alive(
            self.base_y() + self.height() - 2,
        )
    }

    pub open spec fn grow_top_now(self) -> bool {
        self.row_alive(self.base_y())
    }

    /// The height after the bottom edge has been reconciled; the top-edge
    /// shrink check runs against this intermediate height.
    pub open spec fn height_mid(self) -> int {
        self.height() + (if self.grow_bottom_now() { 1 as int } else { 0 }) - (
        if self.shrink_bottom_now() { 1 as int } else { 0 })
    }

    pub open spec fn shrink_top_now(self) -> bool {
        !self.grow_top_now() && self.height_mid() >= 2 && !self.row_alive(self.base_y() + 1)
    }

    /// The base x offset after boundary reconciliation.
    pub open spec fn base_x_next(self) -> int {
        self.base_x() - (if self.grow_left_now() { 1 as int } else { 0 }) + (
        if self.shrink_left_now() { 1 as int } else { 0 })
    }

    /// The width after boundary reconciliation.
    pub open spec fn width_next(self) -> int {
        self.width_mid() + (if self.grow_right_now() { 1 as int } else { 0 }) - (
        if self.shrink_right_now() { 1 as int } else { 0 })
    }

    /// The base y offset after boundary reconciliation.
    pub open spec fn base_y_next(self) -> int {
        self.base_y() - (if self.grow_top_now() { 1 as int } else { 0 }) + (
        if self.shrink_top_now() { 1 as int } else { 0 })
    }

    /// The height after boundary reconciliation.
    pub open spec fn height_next(self) -> int {
        self.height_mid() + (if self.grow_top_now() { 1 as int } else { 0 }) - (
        if self.shrink_top_now() { 1 as int } else { 0 })
    }

    /// If two grids agree on which coordinates are alive, they agree on
    /// which rows and columns are alive.
    pub proof fn lemma_alive_transfer(a: GameGrid, b: GameGrid)
        requires
            forall|x: int, y: int| a.alive_at(x, y) == b.alive_at(x, y),
        ensures
            forall|y: int| #[trigger] a.row_alive(y) == b.row_alive(y),
            forall|x: int| #[trigger] a.col_alive(x) == b.col_alive(x),
    {
        assert forall|y: int| #[trigger] a.row_alive(y) == b.row_alive(y) by {
            if a.row_alive(y) {
                let x = choose|x: int| a.alive_at(x, y);
                assert(b.alive_at(x, y));
            }
            if b.row_alive(y) {
                let x = choose|x: int| b.alive_at(x, y);
                assert(a.alive_at(x, y));
            }
        }
        assert forall|x: int| #[trigger] a.col_alive(x) == b.col_alive(x) by {
            if a.col_alive(x) {
                let y = choose|y: int| a.alive_at(x, y);
                assert(b.alive_at(x, y));
            }
            if b.col_alive(x) {
                let y = choose|y: int| b.alive_at(x, y);
                assert(a.alive_at(x, y));
            }
        }
    }

    /// Reconciles all four edges, in the order left, right, bottom, top: an
    /// edge with a live cell grows by one all-dead row or column (so that the
    /// next generation can spill into it); an edge whose outer and interior
    /// neighbour layers are both dead shrinks by one, never below 1-by-1.
    /// Which cells are alive never changes, only how far the grid extends.
    #[verifier::rlimit(100)]
    #[verifier::spinoff_prover]
    pub fn update_edges(&mut self)
        requires
            old(self).wf(),
            old(self).can_reconcile(),
        ensures
            final(self).wf(),
            final(self).alive_cells == old(self).alive_cells,
            forall|x: int, y: int|
                final(self).alive_at(x, y) == old(self).alive_at(x, y),
            forall|x: int, y: int|
                (old(self).in_bounds(x, y) && final(self).in_bounds(x, y))
                    ==> final(self).spec_cell(x, y) == old(self).spec_cell(x, y),
            final(self).base_x() == old(self).base_x_next(),
            final(self).width() == old(self).width_next(),
            final(self).base_y() == old(self).base_y_next(),
            final(self).height() == old(self).height_next(),
    {
        let ghost pre = *old(self);
        if self.is_alive_left() {
            self.prepend_column_and_fill();
        } else if self.grid[0].row.len() >= 2 && !self.is_alive_column(1) {
            self.remove_first_column();
        }
        proof {
            GameGrid::lemma_alive_transfer(*self, pre);
            assert(self.base_x() + self.width() == pre.base_x() + pre.width());
            assert(self.width() == pre.width_mid());
        }
        let ghost mid1 = *self;
        if self.is_alive_right() {
            self.append_column_and_fill();
        } else if self.grid[0].row.len() >= 2 && !self.is_alive_column(self.grid[0].row.len() - 2) {
            self.remove_last_column();
        }
        proof {
            assert(forall|x: int, y: int| self.alive_at(x, y) == pre.alive_at(x, y));
            GameGrid::lemma_alive_transfer(*self, pre);
            assert(self.width() == pre.width_next());
            assert(self.base_x() == pre.base_x_next());
            assert(self.height() == pre.height());
            assert(self.base_y() == pre.base_y());
        }
        if self.is_alive_bottom() {
            self.append_row_and_fill();
        } else if self.grid.len() >= 2 && !self.is_alive_row(self.grid.len() - 2) {
            self.remove_last_row();
        }
        proof {
            assert(forall|x: int, y: int| self.alive_at(x, y) == pre.alive_at(x, y));
            GameGrid::lemma_alive_transfer(*self, pre);
            assert(self.height() == pre.height_mid());
            assert(self.base_y() == pre.base_y());
        }
        if self.is_alive_top() {
            self.prepend_row_and_fill();
        } else if self.grid.len() >= 2 && !self.is_alive_row(1) {
            self.remove_first_row();
        }
        proof {
            assert(forall|x: int, y: int| self.alive_at(x, y) == pre.alive_at(x, y));
            GameGrid::lemma_alive_transfer(*self, pre);
            assert(self.height() == pre.height_next());
            assert(self.base_y() == pre.base_y_next());
            assert forall|x: int, y: int|
                (pre.in_bounds(x, y) && self.in_bounds(x, y)) implies self.spec_cell(x, y)
                == pre.spec_cell(x, y) by {
                if pre.in_bounds(x, y) && self.in_bounds(x, y) {
                    assert(mid1.in_bounds(x, y) || !self.in_bounds(x, y));
                }
            }
        }
    }
}

impl GameGrid {
    /// A present coordinate that is not a candidate has a dead cell and no
    /// live neighbours at all.
    pub proof fn lemma_non_candidate(self, x: int, y: int)
        requires
            self.in_bounds(x, y),
            !self.is_candidate(x, y),
        ensures
            !self.alive_at(x, y),
            self.count_alive(x, y) == 0,
    {
        if self.alive_at(x - 1, y - 1) {
            assert(is_neighbour(x - 1, y - 1, x, y));
        }
        if self.alive_at(x, y - 1) {
            assert(is_neighbour(x, y - 1, x, y));
        }
        if self.alive_at(x + 1, y - 1) {
            assert(is_neighbour(x + 1, y - 1, x, y));
        }
        if self.alive_at(x - 1, y) {
            assert(is_neighbour(x - 1, y, x, y));
        }
        if self.alive_at(x + 1, y) {
            assert(is_neighbour(x + 1, y, x, y));
        }
        if self.alive_at(x - 1, y + 1) {
            assert(is_neighbour(x - 1, y + 1, x, y));
        }
        if self.alive_at(x, y + 1) {
            assert(is_neighbour(x, y + 1, x, y));
        }
        if self.alive_at(x + 1, y + 1) {
            assert(is_neighbour(x + 1, y + 1, x, y));
        }
    }

    /// Two grids that agree pointwise on aliveness assign every coordinate
    /// the same neighbour count.
    pub proof fn lemma_count_transfer(a: GameGrid, b: GameGrid, x: int, y: int)
        requires
            forall|p: int, q: int| a.alive_at(p, q) == b.alive_at(p, q),
        ensures
            a.count_alive(x, y) == b.count_alive(x, y),
    {
    }

    /// Stores a neighbour count on the cell at `(x, y)`; nothing else moves.
    fn set_neighbour_count(&mut self, x: isize, y: isize, n: u8)
        requires
            old(self).wf(),
            old(self).in_bounds(x as int, y as int),
        ensures
            final(self).wf(),
            final(self).same_shape(*old(self)),
            final(self).alive_cells == old(self).alive_cells,
            final(self).spec_cell(x as int, y as int)->Some_0.neighbours == n,
            final(self).spec_cell(x as int, y as int)->Some_0.is_alive == old(self).spec_cell(
                x as int,
                y as int,
            )->Some_0.is_alive,
            final(self).spec_cell(x as int, y as int)->Some_0.x == old(self).spec_cell(
                x as int,
                y as int,
            )->Some_0.x,
            forall|a: int, b: int|
                !(a == x as int && b == y as int)
                    ==> final(self).spec_cell(a, b) == old(self).spec_cell(a, b),
            forall|a: int, b: int|
                final(self).alive_at(a, b) == old(self).alive_at(a, b),
    {
        let base_y = self.grid[0].y;
        let iy = (y as i128 - base_y as i128) as usize;
        let base_x = self.grid[0].row[0].x;
        proof {
            assert(old(self).grid@[iy as int].wf());
        }
        let ix = (x as i128 - base_x as i128) as usize;
        self.grid[iy].row[ix].update(n);
        proof {
            let pre = *old(self);
            let post = *self;
            assert(post.grid@ == pre.grid@.update(
                iy as int,
                post.grid@[iy as int],
            ));
            assert(post.grid@[iy as int].row@ == pre.grid@[iy as int].row@.update(
                ix as int,
                post.grid@[iy as int].row@[ix as int],
            ));
            assert forall|k: int| 0 <= k < post.grid@.len() implies {
                let r = #[trigger] post.grid@[k];
                r.wf() && r.base_x() == post.base_x() && r.y == post.base_y() + k
                    && r.row@.len() == post.width()
            } by {
                assert(pre.grid@[k].wf());
                if k == iy as int {
                    assert(forall|j: int| 0 <= j < post.grid@[k].row@.len() && j != ix as int
                        ==> post.grid@[k].row@[j] == pre.grid@[k].row@[j]);
                }
            }
            assert(post.wf());
            assert forall|a: int, b: int|
                !(a == x as int && b == y as int) implies post.spec_cell(a, b)
                == pre.spec_cell(a, b) by {
                if pre.in_bounds(a, b) {
                    if b - pre.base_y() != iy as int {
                        assert(post.grid@[b - pre.base_y()] == pre.grid@[b - pre.base_y()]);
                    } else {
                        assert(a - pre.base_x() != ix as int);
                        assert(post.grid@[b - pre.base_y()].row@[a - pre.base_x()]
                            == pre.grid@[b - pre.base_y()].row@[a - pre.base_x()]);
                    }
                }
            }
            assert forall|a: int, b: int|
                post.alive_at(a, b) == pre.alive_at(a, b) by {
                if a == x as int && b == y as int {
                    assert(post.spec_cell(a, b)->Some_0.is_alive == pre.spec_cell(
                        a,
                        b,
                    )->Some_0.is_alive);
                } else {
                    assert(post.spec_cell(a, b) == pre.spec_cell(a, b));
                }
            }
        }
    }

    /// Applies the transition rule to the cell at `(x, y)` using its cached
    /// neighbour count; nothing else moves.  Reports whether it flipped.
    fn advance_cell(&mut self, x: isize, y: isize) -> (changed: bool)
        requires
            old(self).wf(),
            old(self).in_bounds(x as int, y as int),
        ensures
            final(self).wf(),
            final(self).same_shape(*old(self)),
            final(self).alive_cells == old(self).alive_cells,
            final(self).alive_at(x as int, y as int) == crate::cell::step_alive(
                old(self).alive_at(x as int, y as int),
                old(self).spec_cell(x as int, y as int)->Some_0.neighbours as int,
            ),
            final(self).spec_cell(x as int, y as int)->Some_0.neighbours == old(self).spec_cell(
                x as int,
                y as int,
            )->Some_0.neighbours,
            final(self).spec_cell(x as int, y as int)->Some_0.x == old(self).spec_cell(
                x as int,
                y as int,
            )->Some_0.x,
            changed == (final(self).alive_at(x as int, y as int) != old(self).alive_at(
                x as int,
                y as int,
            )),
            forall|a: int, b: int|
                !(a == x as int && b == y as int)
                    ==> final(self).spec_cell(a, b) == old(self).spec_cell(a, b),
            forall|a: int, b: int|
                !(a == x as int && b == y as int)
                    ==> final(self).alive_at(a, b) == old(self).alive_at(a, b),
    {
        let base_y = self.grid[0].y;
        let iy = (y as i128 - base_y as i128) as usize;
        let base_x = self.grid[0].row[0].x;
        proof {
            assert(old(self).grid@[iy as int].wf());
        }
        let ix = (x as i128 - base_x as i128) as usize;
        let changed = self.grid[iy].row[ix].next();
        proof {
            let pre = *old(self);
            let post = *self;
            assert(post.grid@ == pre.grid@.update(
                iy as int,
                post.grid@[iy as int],
            ));
            assert(post.grid@[iy as int].row@ == pre.grid@[iy as int].row@.update(
                ix as int,
                post.grid@[iy as int].row@[ix as int],
            ));
            assert forall|k: int| 0 <= k < post.grid@.len() implies {
                let r = #[trigger] post.grid@[k];
                r.wf() && r.base_x() == post.base_x() && r.y == post.base_y() + k
                    && r.row@.len() == post.width()
            } by {
                assert(pre.grid@[k].wf());
                if k == iy as int {
                    assert(forall|j: int| 0 <= j < post.grid@[k].row@.len() && j != ix as int
                        ==> post.grid@[k].row@[j] == pre.grid@[k].row@[j]);
                }
            }
            assert(post.wf());
            assert forall|a: int, b: int|
                !(a == x as int && b == y as int) implies post.spec_cell(a, b)
                == pre.spec_cell(a, b) by {
                if pre.in_bounds(a, b) {
                    if b - pre.base_y() != iy as int {
                        assert(post.grid@[b - pre.base_y()] == pre.grid@[b - pre.base_y()]);
                    } else {
                        assert(a - pre.base_x() != ix as int);
                        assert(post.grid@[b - pre.base_y()].row@[a - pre.base_x()]
                            == pre.grid@[b - pre.base_y()].row@[a - pre.base_x()]);
                    }
                }
            }
            assert forall|a: int, b: int|
                !(a == x as int && b == y as int) implies post.alive_at(a, b) == pre.alive_at(
                    a,
                    b,
                ) by {
                assert(post.spec_cell(a, b) == pre.spec_cell(a, b));
            }
        }
        changed
    }

    /// Is the (present) cell at `(x, y)` alive right now?
    fn cell_alive(&self, x: isize, y: isize) -> (r: bool)
        requires
            self.wf(),
            self.in_bounds(x as int, y as int),
        ensures
            r == self.alive_at(x as int, y as int),
    {
        let base_y = self.grid[0].y;
        let iy = (y as i128 - base_y as i128) as usize;
        let base_x = self.grid[0].row[0].x;
        proof {
            assert(self.grid@[iy as int].wf());
        }
        let ix = (x as i128 - base_x as i128) as usize;
        self.grid[iy].row[ix].is_alive
    }
}

impl GameGrid {
    /// Advances the grid one generation.
    ///
    /// Every coordinate the grid covers takes the value the transition rule
    /// assigns it from the pre-step state; candidates keep the neighbour
    /// count that was measured on that pre-step state; afterwards the
    /// boundary is reconciled.  Returns whether any cell flipped.
    #[verifier::rlimit(100)]
    #[verifier::spinoff_prover]
    pub fn next(&mut self) -> (changed: bool)
        requires
            old(self).wf_all(),
            old(self).can_reconcile(),
        ensures
            final(self).wf_all(),
            forall|x: int, y: int|
                final(self).alive_at(x, y) == (old(self).in_bounds(x, y) && crate::cell::step_alive(
                    old(self).alive_at(x, y),
                    old(self).count_alive(x, y),
                )),
            changed == (exists|x: int, y: int|
                final(self).alive_at(x, y) != old(self).alive_at(x, y)),
            forall|x: int, y: int|
                (old(self).is_candidate(x, y) && final(self).in_bounds(x, y))
                    ==> final(self).spec_cell(x, y)->Some_0.neighbours as int == old(
                    self,
                ).count_alive(x, y),
            final(self).base_x() == old(self).base_x_after_step(),
            final(self).width() == old(self).width_after_step(),
            final(self).base_y() == old(self).base_y_after_step(),
            final(self).height() == old(self).height_after_step(),
            old(self).base_x() - 1 <= final(self).base_x() <= old(self).base_x() + 1,
            old(self).base_x() + old(self).width() - 1 <= final(self).base_x()
                + final(self).width(),
            final(self).base_x() + final(self).width() <= old(self).base_x()
                + old(self).width() + 1,
            old(self).base_y() - 1 <= final(self).base_y() <= old(self).base_y() + 1,
            old(self).base_y() + old(self).height() - 1 <= final(self).base_y()
                + final(self).height(),
            final(self).base_y() + final(self).height() <= old(self).base_y()
                + old(self).height() + 1,
            final(self).width() >= 1,
            final(self).height() >= 1,
    {
        let ghost pre = *old(self);

        // Frontier pass: every live coordinate and each of its present
        // neighbours must be re-evaluated.
        let mut candidates = UniqueCoordinates::new();
        let ac_n = self.alive_cells.coords.len();
        let mut idx: usize = 0;
        while idx < ac_n
            invariant
                *self == pre,
                pre.wf_all(),
                ac_n == pre.alive_cells.coords@.len(),
                idx <= ac_n,
                candidates.no_dups(),
                forall|c: (isize, isize)|
                    #[trigger] candidates.contains_coord(c) ==> pre.is_candidate(
                        c.0 as int,
                        c.1 as int,
                    ),
                forall|k: int|
                    0 <= k < idx ==> candidates.contains_coord(
                        #[trigger] pre.alive_cells.coords@[k],
                    ),
                forall|k: int, c: (isize, isize)|
                    #![trigger pre.alive_cells.coords@[k], candidates.contains_coord(c)]
                    (0 <= k < idx && pre.in_bounds(c.0 as int, c.1 as int) && is_neighbour(
                        c.0 as int,
                        c.1 as int,
                        pre.alive_cells.coords@[k].0 as int,
                        pre.alive_cells.coords@[k].1 as int,
                    )) ==> candidates.contains_coord(c),
            decreases ac_n - idx,
        {
            let co = self.alive_cells.coords[idx];
            proof {
                assert(pre.alive_cells.contains_coord(co));
                assert(pre.coord_alive(co));
            }
            candidates.push(co);
            let nbrs = self.get_neighbours_coords(co.0, co.1);
            let m = nbrs.len();
            let mut t: usize = 0;
            while t < m
                invariant
                    *self == pre,
                    pre.wf_all(),
                    ac_n == pre.alive_cells.coords@.len(),
                    idx < ac_n,
                    co == pre.alive_cells.coords@[idx as int],
                    pre.coord_alive(co),
                    m == nbrs@.len(),
                    t <= m,
                    candidates.no_dups(),
                    forall|c: (isize, isize)|
                        #[trigger] nbrs@.contains(c) <==> (pre.in_bounds(c.0 as int, c.1 as int)
                            && is_neighbour(c.0 as int, c.1 as int, co.0 as int, co.1 as int)),
                    forall|c: (isize, isize)|
                        #[trigger] candidates.contains_coord(c) ==> pre.is_candidate(
                            c.0 as int,
                            c.1 as int,
                        ),
                    forall|k: int|
                        0 <= k < idx ==> candidates.contains_coord(
                            #[trigger] pre.alive_cells.coords@[k],
                        ),
                    forall|k: int, c: (isize, isize)|
                        #![trigger pre.alive_cells.coords@[k], candidates.contains_coord(c)]
                        (0 <= k < idx && pre.in_bounds(c.0 as int, c.1 as int) && is_neighbour(
                            c.0 as int,
                            c.1 as int,
                            pre.alive_cells.coords@[k].0 as int,
                            pre.alive_cells.coords@[k].1 as int,
                        )) ==> candidates.contains_coord(c),
                    candidates.contains_coord(co),
                    forall|j: int|
                        0 <= j < t ==> candidates.contains_coord(#[trigger] nbrs@[j]),
                decreases m - t,
            {
                let nb = nbrs[t];
                proof {
                    assert(nbrs@.contains(nb));
                    assert(pre.in_bounds(nb.0 as int, nb.1 as int));
                    assert(is_neighbour(co.0 as int, co.1 as int, nb.0 as int, nb.1 as int));
                    assert(pre.alive_at(co.0 as int, co.1 as int));
                    assert(pre.is_candidate(nb.0 as int, nb.1 as int));
                }
                candidates.push(nb);
                t += 1;
            }
            proof {
                assert forall|c: (isize, isize)|
                    (pre.in_bounds(c.0 as int, c.1 as int) && is_neighbour(
                        c.0 as int,
                        c.1 as int,
                        co.0 as int,
                        co.1 as int,
                    )) implies #[trigger] candidates.contains_coord(c) by {
                    assert(nbrs@.contains(c));
                    let j = choose|j: int| 0 <= j < nbrs@.len() && nbrs@[j] == c;
                    assert(candidates.contains_coord(nbrs@[j]));
                }
            }
            idx += 1;
        }

        proof {
            // Completeness: every candidate coordinate is in the collection.
            assert forall|x: int, y: int| pre.is_candidate(x, y) implies
                candidates.contains_coord(((x as isize), (y as isize))) by {
                pre.lemma_in_bounds_repr(x, y);
                let c = ((x as isize), (y as isize));
                assert(c.0 as int == x && c.1 as int == y);
                if pre.alive_at(x, y) {
                    assert(pre.coord_alive(c));
                    assert(pre.alive_cells.contains_coord(c));
                    let k = choose|k: int|
                        0 <= k < pre.alive_cells.coords@.len() && pre.alive_cells.coords@[k]
                            == c;
                    assert(candidates.contains_coord(pre.alive_cells.coords@[k]));
                } else {
                    let (ax, ay) = choose|ax: int, ay: int|
                        is_neighbour(ax, ay, x, y) && pre.alive_at(ax, ay);
                    pre.lemma_in_bounds_repr(ax, ay);
                    let ca = ((ax as isize), (ay as isize));
                    assert(pre.coord_alive(ca));
                    assert(pre.alive_cells.contains_coord(ca));
                    let k = choose|k: int|
                        0 <= k < pre.alive_cells.coords@.len() && pre.alive_cells.coords@[k]
                            == ca;
                    assert(is_neighbour(
                        c.0 as int,
                        c.1 as int,
                        pre.alive_cells.coords@[k].0 as int,
                        pre.alive_cells.coords@[k].1 as int,
                    ));
                    assert(candidates.contains_coord(c));
                }
            }
        }

        // Evaluation pass: measure every candidate against the pre-step
        // state and cache the count on the cell.
        let cn = candidates.coords.len();
        let mut i2: usize = 0;
        while i2 < cn
            invariant
                pre.wf_all(),
                pre.can_reconcile(),
                self.wf(),
                self.same_shape(pre),
                cn == candidates.coords@.len(),
                candidates.no_dups(),
                i2 <= cn,
                self.alive_cells == pre.alive_cells,
                forall|c: (isize, isize)|
                    #[trigger] candidates.contains_coord(c) ==> pre.is_candidate(
                        c.0 as int,
                        c.1 as int,
                    ),
                forall|x: int, y: int|
                    pre.is_candidate(x, y) ==> candidates.contains_coord(
                        ((x as isize), (y as isize)),
                    ),
                forall|x: int, y: int| self.alive_at(x, y) == pre.alive_at(x, y),
                forall|k: int|
                    0 <= k < i2 ==> {
                        let c = #[trigger] candidates.coords@[k];
                        self.spec_cell(c.0 as int, c.1 as int)->Some_0.neighbours as int
                            == pre.count_alive(c.0 as int, c.1 as int)
                    },
            decreases cn - i2,
        {
            let co = candidates.coords[i2];
            proof {
                assert(candidates.contains_coord(co));
                assert(pre.is_candidate(co.0 as int, co.1 as int));
                assert(pre.in_bounds(co.0 as int, co.1 as int));
            }
            let n = self.count_neighbours(co.0, co.1);
            proof {
                GameGrid::lemma_count_transfer(*self, pre, co.0 as int, co.1 as int);
            }
            self.set_neighbour_count(co.0, co.1, n);
            proof {
                assert forall|k: int| 0 <= k < i2 + 1 implies {
                    let c = #[trigger] candidates.coords@[k];
                    self.spec_cell(c.0 as int, c.1 as int)->Some_0.neighbours as int
                        == pre.count_alive(c.0 as int, c.1 as int)
                } by {
                    let c = candidates.coords@[k];
                    if k < i2 {
                        assert(c != co);
                        assert(c.0 != co.0 || c.1 != co.1);
                    }
                }
            }
            i2 += 1;
        }

        proof {
            assert forall|c: (isize, isize)|
                #![trigger self.alive_cells.contains_coord(c)]
                #![trigger self.coord_alive(c)]
                self.alive_cells.contains_coord(c) <==> self.coord_alive(c) by {
                assert(pre.alive_cells.contains_coord(c) == pre.coord_alive(c));
                assert(self.coord_alive(c) == pre.coord_alive(c));
            }
        }
        let changed = self.transition_pass(&candidates, Ghost(pre));

        proof {
            // The grid now holds exactly the next generation.
            assert forall|x: int, y: int|
                self.alive_at(x, y) == (pre.in_bounds(x, y) && crate::cell::step_alive(
                    pre.alive_at(x, y),
                    pre.count_alive(x, y),
                )) by {
                if pre.in_bounds(x, y) {
                    if pre.is_candidate(x, y) {
                        pre.lemma_in_bounds_repr(x, y);
                        let c = ((x as isize), (y as isize));
                        assert(candidates.contains_coord(c));
                        let k = choose|k: int|
                            0 <= k < candidates.coords@.len() && candidates.coords@[k] == c;
                        assert(self.alive_at(
                            candidates.coords@[k].0 as int,
                            candidates.coords@[k].1 as int,
                        ) == crate::cell::step_alive(
                            pre.alive_at(x, y),
                            pre.count_alive(x, y),
                        ));
                    } else {
                        pre.lemma_non_candidate(x, y);
                        assert(self.alive_at(x, y) == pre.alive_at(x, y));
                    }
                } else {
                    assert(!self.in_bounds(x, y));
                }
            }
            assert(changed == (exists|x: int, y: int|
                self.alive_at(x, y) != pre.alive_at(x, y))) by {
                if changed {
                    let k = choose|k: int|
                        0 <= k < candidates.coords@.len() && self.coord_alive(
                            candidates.coords@[k],
                        ) != pre.coord_alive(candidates.coords@[k]);
                    let c = candidates.coords@[k];
                    assert(self.alive_at(c.0 as int, c.1 as int) != pre.alive_at(
                        c.0 as int,
                        c.1 as int,
                    ));
                } else {
                    assert forall|x: int, y: int|
                        self.alive_at(x, y) == pre.alive_at(x, y) by {
                        if pre.is_candidate(x, y) {
                            pre.lemma_in_bounds_repr(x, y);
                            let c = ((x as isize), (y as isize));
                            assert(candidates.contains_coord(c));
                            let k = choose|k: int|
                                0 <= k < candidates.coords@.len() && candidates.coords@[k]
                                    == c;
                            assert(self.coord_alive(candidates.coords@[k])
                                == pre.coord_alive(candidates.coords@[k]));
                        }
                    }
                }
            }
        }

        let ghost mid = *self;

        // Boundary pass: keep the grid exactly one dead layer larger than
        // the live population wherever it might spill over.
        self.update_edges();

        proof {
            assert forall|x: int, y: int|
                mid.alive_at(x, y) == pre.stepped_alive_at(x, y) by {}
            GameGrid::lemma_stepped_transfer(pre, mid);
            assert forall|x: int, y: int|
                self.alive_at(x, y) == (pre.in_bounds(x, y) && crate::cell::step_alive(
                    pre.alive_at(x, y),
                    pre.count_alive(x, y),
                )) by {
                assert(self.alive_at(x, y) == mid.alive_at(x, y));
            }
            assert forall|c: (isize, isize)|
                #![trigger self.alive_cells.contains_coord(c)]
                #![trigger self.coord_alive(c)]
                self.alive_cells.contains_coord(c) <==> self.coord_alive(c) by {
                assert(self.coord_alive(c) == mid.coord_alive(c));
                assert(mid.alive_cells.contains_coord(c) <==> mid.coord_alive(c));
            }
            assert(self.wf_all());
            assert(changed == (exists|x: int, y: int|
                self.alive_at(x, y) != pre.alive_at(x, y))) by {
                if changed {
                    let (x, y) = choose|x: int, y: int|
                        mid.alive_at(x, y) != pre.alive_at(x, y);
                    assert(self.alive_at(x, y) != pre.alive_at(x, y));
                } else {
                    assert forall|x: int, y: int|
                        self.alive_at(x, y) == pre.alive_at(x, y) by {
                        assert(mid.alive_at(x, y) == pre.alive_at(x, y));
                    }
                }
            }
            assert forall|x: int, y: int|
                (pre.is_candidate(x, y) && self.in_bounds(x, y)) implies self.spec_cell(
                x,
                y,
            )->Some_0.neighbours as int == pre.count_alive(x, y) by {
                assert(pre.in_bounds(x, y));
                assert(mid.in_bounds(x, y));
                assert(self.spec_cell(x, y) == mid.spec_cell(x, y));
                pre.lemma_in_bounds_repr(x, y);
                let c = ((x as isize), (y as isize));
                assert(candidates.contains_coord(c));
                let k = choose|k: int|
                    0 <= k < candidates.coords@.len() && candidates.coords@[k] == c;
                assert(mid.spec_cell(
                    candidates.coords@[k].0 as int,
                    candidates.coords@[k].1 as int,
                )->Some_0.neighbours as int == pre.count_alive(x, y));
            }
        }
        changed
    }
}

/// The length of the longest row in `s`.
pub open spec fn seq_max_len(s: Seq<CellRow>) -> int
    decreases s.len(),
{
    if s.len() == 0 {
        0
    } else {
        let m = seq_max_len(s.drop_last());
        if s.last().row@.len() > m {
            s.last().row@.len() as int
        } else {
            m
        }
    }
}

/// `seq_max_len` dominates every row length.
pub proof fn lemma_seq_max_len_ge(s: Seq<CellRow>, i: int)
    requires
        0 <= i < s.len(),
    ensures
        s[i].row@.len() <= seq_max_len(s),
    decreases s.len(),
{
    if i < s.len() - 1 {
        lemma_seq_max_len_ge(s.drop_last(), i);
        assert(s.drop_last()[i] == s[i]);
    }
}

/// A non-empty sequence has a row that attains `seq_max_len`.
pub proof fn lemma_seq_max_len_achieved(s: Seq<CellRow>) -> (i: int)
    requires
        s.len() >= 1,
    ensures
        0 <= i < s.len(),
        s[i].row@.len() == seq_max_len(s),
    decreases s.len(),
{
    if s.len() == 1 {
        assert(seq_max_len(s.drop_last()) == 0);
        0
    } else {
        if s.last().row@.len() >= seq_max_len(s.drop_last()) {
            s.len() - 1
        } else {
            let i = lemma_seq_max_len_achieved(s.drop_last());
            assert(s.drop_last()[i] == s[i]);
            i
        }
    }
}

impl GameGrid {
    /// Aliveness in a possibly ragged grid: the row covers the coordinate
    /// and the cell there is alive.
    pub open spec fn ragged_alive_at(self, x: int, y: int) -> bool {
        &&& self.base_y() <= y < self.base_y() + self.height()
        &&& self.grid@[y - self.base_y()].spec_cell(x) is Some
        &&& self.grid@[y - self.base_y()].spec_cell(x)->Some_0.is_alive
    }

    /// Pads every row with dead cells on the right until all rows are as
    /// long as the longest one; used once after seeding, so that the
    /// rectangularity invariant holds before the simulation starts.
    pub fn fix_grid_size(&mut self)
        requires
            old(self).wf_ragged(),
        ensures
            final(self).wf(),
            final(self).base_x() == old(self).base_x(),
            final(self).base_y() == old(self).base_y(),
            final(self).height() == old(self).height(),
            final(self).width() == seq_max_len(old(self).grid@),
            forall|x: int, y: int|
                final(self).alive_at(x, y) == old(self).ragged_alive_at(x, y),
            forall|i: int, j: int|
                (0 <= i < old(self).height() && 0 <= j < old(self).grid@[i].row@.len())
                    ==> final(self).grid@[i].row@[j] == old(self).grid@[i].row@[j],
            final(self).alive_cells == old(self).alive_cells,
    {
        let h = self.grid.len();
        // find the longest row
        let mut max: usize = 0;
        let mut i: usize = 0;
        while i < h
            invariant
                *self == *old(self),
                old(self).wf_ragged(),
                h == self.grid@.len(),
                i <= h,
                max == seq_max_len(self.grid@.take(i as int)),
            decreases h - i,
        {
            let ghost prefix = self.grid@.take(i as int);
            let len_i = self.grid[i].row.len();
            if len_i > max {
                max = len_i;
            }
            proof {
                let prefix2 = self.grid@.take(i + 1);
                assert(prefix2.drop_last() =~= prefix);
                assert(prefix2.last() == self.grid@[i as int]);
            }
            i += 1;
        }
        proof {
            assert(self.grid@.take(h as int) =~= self.grid@);
        }
        // pad the others
        let mut i: usize = 0;
        while i < h
            invariant
                old(self).wf_ragged(),
                h == self.grid@.len(),
                h == old(self).grid@.len(),
                i <= h,
                max as int == seq_max_len(old(self).grid@),
                self.alive_cells == old(self).alive_cells,
                forall|k: int| i <= k < h ==> self.grid@[k] == old(self).grid@[k],
                forall|k: int|
                    0 <= k < i ==> {
                        let r2 = #[trigger] self.grid@[k];
                        let r1 = old(self).grid@[k];
                        r2.wf() && r2.y == r1.y && r2.base_x() == r1.base_x()
                            && r2.row@.len() == max
                            && (forall|j: int| 0 <= j < r1.row@.len()
                                ==> r2.row@[j] == r1.row@[j])
                            && (forall|j: int| r1.row@.len() <= j < max
                                ==> !(#[trigger] r2.row@[j]).is_alive)
                    },
            decreases h - i,
        {
            proof {
                lemma_seq_max_len_ge(old(self).grid@, i as int);
                assert(old(self).grid@[i as int].wf());
            }
            let ghost r1 = old(self).grid@[i as int];
            while self.grid[i].row.len() < max
                invariant
                    old(self).wf_ragged(),
                    h == self.grid@.len(),
                    h == old(self).grid@.len(),
                    i < h,
                    max as int == seq_max_len(old(self).grid@),
                    self.alive_cells == old(self).alive_cells,
                    r1 == old(self).grid@[i as int],
                    forall|k: int| i < k < h ==> self.grid@[k] == old(self).grid@[k],
                    forall|k: int|
                        0 <= k < i ==> {
                            let r2 = #[trigger] self.grid@[k];
                            let rk = old(self).grid@[k];
                            r2.wf() && r2.y == rk.y && r2.base_x() == rk.base_x()
                                && r2.row@.len() == max
                                && (forall|j: int| 0 <= j < rk.row@.len()
                                    ==> r2.row@[j] == rk.row@[j])
                                && (forall|j: int| rk.row@.len() <= j < max
                                    ==> !(#[trigger] r2.row@[j]).is_alive)
                        },
                    self.grid@[i as int].wf(),
                    self.grid@[i as int].y == r1.y,
                    self.grid@[i as int].base_x() == r1.base_x(),
                    r1.row@.len() <= self.grid@[i as int].row@.len() <= max,
                    forall|j: int|
                        0 <= j < r1.row@.len()
                            ==> self.grid@[i as int].row@[j] == r1.row@[j],
                    forall|j: int|
                        r1.row@.len() <= j < self.grid@[i as int].row@.len()
                            ==> !(#[trigger] self.grid@[i as int].row@[j]).is_alive,
                decreases max - self.grid@[i as int].row@.len(),
            {
                proof {
                    let a = lemma_seq_max_len_achieved(old(self).grid@);
                    assert(old(self).grid@[a].wf());
                    assert(old(self).grid@[a].row@[max - 1].x == old(self).base_x() + max
                        - 1);
                }
                self.grid[i].append_cell(false);
            }
            i += 1;
        }
        proof {
            let pre = *old(self);
            let post = *self;
            assert(post.width() == max as int);
            assert(post.wf());
            assert forall|x: int, y: int|
                post.alive_at(x, y) == pre.ragged_alive_at(x, y) by {
                if pre.base_y() <= y < pre.base_y() + pre.height() {
                    let iy = y - pre.base_y();
                    let r2 = post.grid@[iy];
                    let rk = pre.grid@[iy];
                    assert(rk.wf());
                    assert(rk.base_x() == pre.base_x());
                    lemma_seq_max_len_ge(pre.grid@, iy);
                    assert(r2.row@.len() == max as int);
                    if pre.base_x() <= x < pre.base_x() + rk.row@.len() {
                        assert(r2.row@[x - pre.base_x()] == rk.row@[x - pre.base_x()]);
                        assert(post.alive_at(x, y) == r2.row@[x - pre.base_x()].is_alive);
                        assert(pre.ragged_alive_at(x, y) == rk.row@[x
                            - pre.base_x()].is_alive);
                    } else if pre.base_x() <= x < pre.base_x() + max {
                        assert(!r2.row@[x - pre.base_x()].is_alive);
                        assert(!post.alive_at(x, y));
                        assert(!pre.ragged_alive_at(x, y));
                    } else {
                        assert(!post.in_bounds(x, y));
                        assert(!pre.ragged_alive_at(x, y));
                    }
                } else {
                    assert(!post.in_bounds(x, y));
                    assert(!pre.ragged_alive_at(x, y));
                }
            }
        }
    }

    /// Scans the whole grid once and records every live cell's coordinate
    /// in the (initially empty) live-cell index.
    pub fn init_alive_cells(&mut self)
        requires
            old(self).wf(),
            old(self).alive_cells.coords@ == Seq::<(isize, isize)>::empty(),
        ensures
            final(self).wf_all(),
            final(self).grid == old(self).grid,
            final(self).same_shape(*old(self)),
            forall|x: int, y: int|
                final(self).alive_at(x, y) == old(self).alive_at(x, y),
    {
        let h = self.grid.len();
        let mut i: usize = 0;
        while i < h
            invariant
                old(self).wf(),
                self.grid == old(self).grid,
                h == self.grid@.len(),
                i <= h,
                self.alive_cells.no_dups(),
                forall|c: (isize, isize)|
                    #![trigger self.alive_cells.contains_coord(c)]
                    #![trigger self.coord_alive(c)]
                    self.alive_cells.contains_coord(c) <==> (self.coord_alive(c) && (
                    c.1 as int) < self.base_y() + i),
            decreases h - i,
        {
            let w = self.grid[i].row.len();
            let mut j: usize = 0;
            while j < w
                invariant
                    old(self).wf(),
                    self.grid == old(self).grid,
                    h == self.grid@.len(),
                    i < h,
                    w == self.grid@[i as int].row@.len(),
                    j <= w,
                    self.alive_cells.no_dups(),
                    forall|c: (isize, isize)|
                        #![trigger self.alive_cells.contains_coord(c)]
                        #![trigger self.coord_alive(c)]
                        self.alive_cells.contains_coord(c) <==> (self.coord_alive(c) && ((
                        c.1 as int) < self.base_y() + i || ((c.1 as int) == self.base_y() + i
                            && (c.0 as int) < self.base_x() + j))),
                decreases w - j,
            {
                proof {
                    assert(self.grid@[i as int].wf());
                }
                let cell = self.grid[i].row[j];
                let ry = self.grid[i].y;
                if cell.is_alive {
                    let co = (cell.x, ry);
                    proof {
                        assert(cell.x as int == self.base_x() + j);
                        assert(ry as int == self.base_y() + i);
                        assert(self.coord_alive(co));
                    }
                    self.alive_cells.push(co);
                }
                proof {
                    assert forall|c: (isize, isize)|
                        self.alive_cells.contains_coord(c) <==> (self.coord_alive(c) && ((
                        c.1 as int) < self.base_y() + i || ((c.1 as int) == self.base_y() + i
                            && (c.0 as int) < self.base_x() + j + 1))) by {
                        if (c.1 as int) == self.base_y() + i && (c.0 as int) == self.base_x()
                            + j {
                            assert(self.coord_alive(c) == self.grid@[i as int].row@[
                                j as int].is_alive);
                        }
                    }
                }
                j += 1;
            }
            i += 1;
        }
        proof {
            assert forall|c: (isize, isize)|
                self.alive_cells.contains_coord(c) <==> self.coord_alive(c) by {
                if self.coord_alive(c) {
                    assert((c.1 as int) < self.base_y() + h);
                }
            }
        }
    }
}

impl GameGrid {
    /// Synchronisation survives a single-cell change once the index has been
    /// corrected for that one coordinate.
    proof fn lemma_sync_update(before: GameGrid, after: GameGrid, co: (isize, isize))
        requires
            before.alive_sync(),
            forall|a: int, b: int|
                !(a == co.0 as int && b == co.1 as int) ==> after.alive_at(a, b)
                    == before.alive_at(a, b),
            forall|c: (isize, isize)|
                c != co ==> (after.alive_cells.contains_coord(c)
                    == before.alive_cells.contains_coord(c)),
            after.alive_cells.contains_coord(co) == after.coord_alive(co),
        ensures
            after.alive_sync(),
    {
        assert forall|c: (isize, isize)|
            #![trigger after.alive_cells.contains_coord(c)]
            #![trigger after.coord_alive(c)]
            after.alive_cells.contains_coord(c) <==> after.coord_alive(c) by {
            if c != co {
                assert(c.0 != co.0 || c.1 != co.1);
                assert(after.coord_alive(c) == before.coord_alive(c));
                assert(before.alive_cells.contains_coord(c) == before.coord_alive(c));
            }
        }
    }

    /// Applies the transition rule to one candidate cell and keeps the
    /// live-cell index synchronised with the flip, if any.
    fn apply_transition(&mut self, co: (isize, isize)) -> (flipped: bool)
        requires
            old(self).wf(),
            old(self).in_bounds(co.0 as int, co.1 as int),
            old(self).alive_sync(),
            old(self).alive_cells.no_dups(),
        ensures
            final(self).wf(),
            final(self).same_shape(*old(self)),
            final(self).alive_sync(),
            final(self).alive_cells.no_dups(),
            final(self).alive_at(co.0 as int, co.1 as int) == crate::cell::step_alive(
                old(self).alive_at(co.0 as int, co.1 as int),
                old(self).spec_cell(co.0 as int, co.1 as int)->Some_0.neighbours as int,
            ),
            flipped == (final(self).alive_at(co.0 as int, co.1 as int) != old(self).alive_at(
                co.0 as int,
                co.1 as int,
            )),
            final(self).spec_cell(co.0 as int, co.1 as int)->Some_0.neighbours == old(
                self,
            ).spec_cell(co.0 as int, co.1 as int)->Some_0.neighbours,
            forall|a: int, b: int|
                !(a == co.0 as int && b == co.1 as int)
                    ==> final(self).spec_cell(a, b) == old(self).spec_cell(a, b),
            forall|a: int, b: int|
                !(a == co.0 as int && b == co.1 as int)
                    ==> final(self).alive_at(a, b) == old(self).alive_at(a, b),
    {
        let flipped = self.advance_cell(co.0, co.1);
        let now = self.cell_alive(co.0, co.1);
        let ghost mid = *self;
        if flipped {
            if now {
                self.alive_cells.push(co);
            } else {
                self.alive_cells.remove(co);
            }
        }
        proof {
            if flipped {
                assert(self.coord_alive(co) == now);
            } else {
                assert(self.alive_cells == old(self).alive_cells);
                assert(self.coord_alive(co) == old(self).coord_alive(co));
                assert(old(self).alive_cells.contains_coord(co) == old(self).coord_alive(
                    co,
                ));
            }
            assert(self.alive_cells.contains_coord(co) == self.coord_alive(co));
            GameGrid::lemma_sync_update(*old(self), *self, co);
        }
        flipped
    }
}

impl GameGrid {
    /// The transition pass of one generation: applies the rule to every
    /// candidate (using the neighbour counts already cached against the
    /// pre-step grid `pre`) and keeps the live-cell index synchronised.
    /// Returns whether any candidate flipped.
    #[verifier::rlimit(100)]
    #[verifier::spinoff_prover]
    fn transition_pass(
        &mut self,
        candidates: &UniqueCoordinates,
        Ghost(pre): Ghost<GameGrid>,
    ) -> (changed: bool)
        requires
            pre.wf_all(),
            old(self).wf(),
            old(self).same_shape(pre),
            candidates.no_dups(),
            old(self).alive_cells.no_dups(),
            old(self).alive_sync(),
            forall|c: (isize, isize)|
                #[trigger] candidates.contains_coord(c) ==> pre.is_candidate(
                    c.0 as int,
                    c.1 as int,
                ),
            forall|x: int, y: int| old(self).alive_at(x, y) == pre.alive_at(x, y),
            forall|k: int|
                0 <= k < candidates.coords@.len() ==> {
                    let c = #[trigger] candidates.coords@[k];
                    old(self).spec_cell(c.0 as int, c.1 as int)->Some_0.neighbours as int
                        == pre.count_alive(c.0 as int, c.1 as int)
                },
        ensures
            final(self).wf(),
            final(self).same_shape(pre),
            final(self).alive_sync(),
            final(self).alive_cells.no_dups(),
            forall|k: int|
                0 <= k < candidates.coords@.len() ==> {
                    let c = #[trigger] candidates.coords@[k];
                    final(self).spec_cell(c.0 as int, c.1 as int)->Some_0.neighbours as int
                        == pre.count_alive(c.0 as int, c.1 as int)
                },
            forall|k: int|
                0 <= k < candidates.coords@.len() ==> {
                    let c = #[trigger] candidates.coords@[k];
                    final(self).alive_at(c.0 as int, c.1 as int) == crate::cell::step_alive(
                        pre.alive_at(c.0 as int, c.1 as int),
                        pre.count_alive(c.0 as int, c.1 as int),
                    )
                },
            forall|x: int, y: int|
                !pre.is_candidate(x, y) ==> final(self).alive_at(x, y) == pre.alive_at(x, y),
            changed ==> (exists|k: int|
                0 <= k < candidates.coords@.len() && final(self).coord_alive(
                    #[trigger] candidates.coords@[k],
                ) != pre.coord_alive(candidates.coords@[k])),
            !changed ==> forall|k: int|
                0 <= k < candidates.coords@.len() ==> final(self).coord_alive(
                    #[trigger] candidates.coords@[k],
                ) == pre.coord_alive(candidates.coords@[k]),
    {
        let cn = candidates.coords.len();
        let mut changed = false;
        let ghost mut wit: int = 0;
        let mut i3: usize = 0;
        while i3 < cn
            invariant
                pre.wf_all(),
                self.wf(),
                self.same_shape(pre),
                cn == candidates.coords@.len(),
                candidates.no_dups(),
                i3 <= cn,
                self.alive_cells.no_dups(),
                self.alive_sync(),
                forall|c: (isize, isize)|
                    #[trigger] candidates.contains_coord(c) ==> pre.is_candidate(
                        c.0 as int,
                        c.1 as int,
                    ),
                forall|k: int|
                    0 <= k < cn ==> {
                        let c = #[trigger] candidates.coords@[k];
                        self.spec_cell(c.0 as int, c.1 as int)->Some_0.neighbours as int
                            == pre.count_alive(c.0 as int, c.1 as int)
                    },
                forall|k: int|
                    i3 <= k < cn ==> {
                        let c = #[trigger] candidates.coords@[k];
                        self.alive_at(c.0 as int, c.1 as int) == pre.alive_at(
                            c.0 as int,
                            c.1 as int,
                        )
                    },
                forall|k: int|
                    0 <= k < i3 ==> {
                        let c = #[trigger] candidates.coords@[k];
                        self.alive_at(c.0 as int, c.1 as int) == crate::cell::step_alive(
                            pre.alive_at(c.0 as int, c.1 as int),
                            pre.count_alive(c.0 as int, c.1 as int),
                        )
                    },
                forall|x: int, y: int|
                    !pre.is_candidate(x, y) ==> self.alive_at(x, y) == pre.alive_at(x, y),
                changed ==> (0 <= wit < i3 && self.coord_alive(candidates.coords@[wit])
                    != pre.coord_alive(candidates.coords@[wit])),
                !changed ==> forall|k: int|
                    0 <= k < i3 ==> self.coord_alive(#[trigger] candidates.coords@[k])
                        == pre.coord_alive(candidates.coords@[k]),
            decreases cn - i3,
        {
            let co = candidates.coords[i3];
            proof {
                assert(candidates.contains_coord(co));
                assert(pre.is_candidate(co.0 as int, co.1 as int));
                assert(pre.in_bounds(co.0 as int, co.1 as int));
            }
            let ghost before = *self;
            let flipped = self.apply_transition(co);
            if flipped {
                changed = true;
                proof {
                    wit = i3 as int;
                }
            }
            proof {
                assert(pre.is_candidate(co.0 as int, co.1 as int));
                assert forall|k: int| 0 <= k < cn implies {
                    let c = #[trigger] candidates.coords@[k];
                    self.spec_cell(c.0 as int, c.1 as int)->Some_0.neighbours as int
                        == pre.count_alive(c.0 as int, c.1 as int)
                } by {
                    let c = candidates.coords@[k];
                    if c != co {
                        assert(c.0 != co.0 || c.1 != co.1);
                        assert(self.spec_cell(c.0 as int, c.1 as int) == before.spec_cell(
                            c.0 as int,
                            c.1 as int,
                        ));
                    }
                }
                assert forall|k: int| i3 + 1 <= k < cn implies {
                    let c = #[trigger] candidates.coords@[k];
                    self.alive_at(c.0 as int, c.1 as int) == pre.alive_at(
                        c.0 as int,
                        c.1 as int,
                    )
                } by {
                    let c = candidates.coords@[k];
                    assert(c != co);
                    assert(c.0 != co.0 || c.1 != co.1);
                }
                assert forall|x: int, y: int|
                    !pre.is_candidate(x, y) implies self.alive_at(x, y) == pre.alive_at(
                    x,
                    y,
                ) by {
                    assert(!(x == co.0 as int && y == co.1 as int));
                }
                // the candidate just processed now carries its stepped value
                assert(self.alive_at(co.0 as int, co.1 as int) == crate::cell::step_alive(
                    pre.alive_at(co.0 as int, co.1 as int),
                    pre.count_alive(co.0 as int, co.1 as int),
                ));
                assert forall|k: int| 0 <= k < i3 + 1 implies {
                    let c = #[trigger] candidates.coords@[k];
                    self.alive_at(c.0 as int, c.1 as int) == crate::cell::step_alive(
                        pre.alive_at(c.0 as int, c.1 as int),
                        pre.count_alive(c.0 as int, c.1 as int),
                    )
                } by {
                    let c = candidates.coords@[k];
                    if k < i3 {
                        assert(c != co);
                        assert(c.0 != co.0 || c.1 != co.1);
                    }
                }
                // update the changed-witness bookkeeping
                if flipped {
                    assert(self.coord_alive(candidates.coords@[i3 as int]) != pre.coord_alive(
                        candidates.coords@[i3 as int],
                    ));
                } else {
                    if changed {
                        let c = candidates.coords@[wit];
                        assert(c != co);
                        assert(c.0 != co.0 || c.1 != co.1);
                        assert(self.coord_alive(c) == before.coord_alive(c));
                    } else {
                        assert forall|k: int|
                            0 <= k < i3 + 1 implies self.coord_alive(
                            #[trigger] candidates.coords@[k],
                        ) == pre.coord_alive(candidates.coords@[k]) by {
                            let c = candidates.coords@[k];
                            if c != co {
                                assert(c.0 != co.0 || c.1 != co.1);
                                assert(self.coord_alive(c) == before.coord_alive(c));
                            }
                        }
                    }
                }
            }
            i3 += 1;
        }
        changed
    }
}

/// What a seeding target row held before its pattern line was appended: the
/// existing row's cells, or the single dead cell of a freshly created row.
pub open spec fn prior_row_cells(pre: GameGrid, t: int) -> Seq<Cell> {
    if t < pre.height() {
        pre.grid@[t].row@
    } else {
        seq![Cell { is_alive: false, neighbours: 0, x: pre.base_x() as isize }]
    }
}

impl GameGrid {
    /// Seeds a pattern: line `k` of `pattern` is appended, cell by cell, to
    /// the end of row `row_offset + k`, rows being created (one dead cell
    /// each) as needed.  Rows the pattern does not touch are unchanged, and
    /// any other freshly created row is a single dead cell.  Used only while
    /// loading a starting position; `fix_grid_size` restores rectangularity
    /// afterwards.
    pub fn seed_from_pattern(&mut self, pattern: &Vec<Vec<bool>>, row_offset: usize)
        requires
            old(self).wf_ragged(),
            row_offset + pattern@.len() <= usize::MAX,
            pattern@.len() >= 1 ==> old(self).base_y() + row_offset + pattern@.len() - 1
                <= isize::MAX,
            forall|k: int|
                0 <= k < pattern@.len() ==> old(self).base_x() + seq_max_len(old(self).grid@)
                    + (#[trigger] pattern@[k])@.len() <= isize::MAX,
        ensures
            final(self).wf_ragged(),
            final(self).base_x() == old(self).base_x(),
            final(self).base_y() == old(self).base_y(),
            final(self).height() == (if pattern@.len() >= 1 && row_offset + pattern@.len()
                > old(self).height() {
                (row_offset + pattern@.len()) as int
            } else {
                old(self).height()
            }),
            forall|i: int|
                (0 <= i < final(self).height() && !(row_offset <= i < row_offset
                    + pattern@.len())) ==> (if i < old(self).height() {
                    (#[trigger] final(self).grid@[i]) == old(self).grid@[i]
                } else {
                    final(self).grid@[i].row@ == prior_row_cells(*old(self), i)
                }),
            forall|k: int|
                0 <= k < pattern@.len() ==> {
                    let r2 = #[trigger] final(self).grid@[row_offset + k];
                    let prior = prior_row_cells(*old(self), row_offset + k);
                    let flags = pattern@[k]@;
                    &&& r2.row@.len() == prior.len() + flags.len()
                    &&& (forall|j: int| 0 <= j < prior.len() ==> r2.row@[j] == prior[j])
                    &&& (forall|j: int|
                        0 <= j < flags.len() ==> ((#[trigger] r2.row@[prior.len()
                            + j]).is_alive == flags[j] && r2.row@[prior.len() + j].neighbours
                            == 0))
                },
            final(self).alive_cells == old(self).alive_cells,
    {
        let lines = pattern.len();
        let mut k: usize = 0;
        while k < lines
            invariant
                old(self).wf_ragged(),
                row_offset + lines <= usize::MAX,
                lines == pattern@.len(),
                lines >= 1 ==> old(self).base_y() + row_offset + lines - 1 <= isize::MAX,
                forall|kk: int|
                    0 <= kk < lines ==> old(self).base_x() + seq_max_len(old(self).grid@)
                        + (#[trigger] pattern@[kk])@.len() <= isize::MAX,
                k <= lines,
                self.wf_ragged(),
                self.base_x() == old(self).base_x(),
                self.base_y() == old(self).base_y(),
                self.alive_cells == old(self).alive_cells,
                self.height() == (if k >= 1 && row_offset + k > old(self).height() {
                    (row_offset + k) as int
                } else {
                    old(self).height()
                }),
                forall|i: int|
                    (0 <= i < self.height() && !(row_offset <= i < row_offset + k)) ==> (
                    if i < old(self).height() {
                        (#[trigger] self.grid@[i]) == old(self).grid@[i]
                    } else {
                        self.grid@[i].row@ == prior_row_cells(*old(self), i)
                    }),
                forall|kk: int|
                    0 <= kk < k ==> {
                        let r2 = #[trigger] self.grid@[row_offset + kk];
                        let prior = prior_row_cells(*old(self), row_offset + kk);
                        let flags = pattern@[kk]@;
                        &&& r2.row@.len() == prior.len() + flags.len()
                        &&& (forall|j: int| 0 <= j < prior.len() ==> r2.row@[j] == prior[j])
                        &&& (forall|j: int|
                            0 <= j < flags.len() ==> ((#[trigger] r2.row@[prior.len()
                                + j]).is_alive == flags[j] && r2.row@[prior.len()
                                + j].neighbours == 0))
                    },
            decreases lines - k,
        {
            let ghost mid0 = *self;
            // make sure the target row exists
            while self.grid.len() <= row_offset + k
                invariant
                    old(self).wf_ragged(),
                    lines == pattern@.len(),
                    k < lines,
                    row_offset + lines <= usize::MAX,
                    old(self).base_y() + row_offset + lines - 1 <= isize::MAX,
                    self.wf_ragged(),
                    self.base_x() == old(self).base_x(),
                    self.base_y() == old(self).base_y(),
                    self.alive_cells == old(self).alive_cells,
                    mid0.height() <= self.height(),
                    self.height() == mid0.height() || self.height() <= row_offset + k + 1,
                    forall|i: int|
                        0 <= i < mid0.height() ==> (#[trigger] self.grid@[i]) == mid0.grid@[i],
                    forall|i: int|
                        mid0.height() <= i < self.height() ==> ((#[trigger] self.grid@[
                            i]).row@.len() == 1 && !self.grid@[i].row@[0].is_alive
                            && self.grid@[i].row@[0].neighbours == 0 && self.grid@[
                            i].row@[0].x as int == self.base_x()),
                    decreases row_offset + k + 1 - self.grid@.len(),
            {
                self.append_row();
            }
            let ghost mid = *self;
            proof {
                assert(mid.height() == (if mid0.height() > row_offset + k {
                    mid0.height()
                } else {
                    (row_offset + k + 1) as int
                }));
            }
            // append the line's flags to the target row
            let flags = &pattern[k];
            let flag_n = flags.len();
            let t = row_offset + k;
            let ghost prior = self.grid@[t as int].row@;
            proof {
                if (t as int) < mid0.height() {
                    if (t as int) < old(self).height() {
                        lemma_seq_max_len_ge(old(self).grid@, t as int);
                        assert(prior.len() <= seq_max_len(old(self).grid@));
                    } else {
                        assert(prior.len() == 1);
                        lemma_seq_max_len_ge(old(self).grid@, 0);
                        assert(old(self).grid@[0].row@.len() >= 1);
                        assert(prior.len() <= seq_max_len(old(self).grid@));
                    }
                } else {
                    assert(prior.len() == 1);
                    lemma_seq_max_len_ge(old(self).grid@, 0);
                    assert(prior.len() <= seq_max_len(old(self).grid@));
                }
            }
            let mut j: usize = 0;
            while j < flag_n
                invariant
                    old(self).wf_ragged(),
                    lines == pattern@.len(),
                    k < lines,
                    t == row_offset + k,
                    t < self.grid@.len(),
                    flag_n == pattern@[k as int]@.len(),
                    j <= flag_n,
                    flags == &pattern@[k as int],
                    self.wf_ragged(),
                    self.base_x() == old(self).base_x(),
                    self.base_y() == old(self).base_y(),
                    self.alive_cells == old(self).alive_cells,
                    self.height() == mid.height(),
                    forall|i: int|
                        (0 <= i < self.height() && i != t)
                            ==> (#[trigger] self.grid@[i]) == mid.grid@[i],
                    prior == mid.grid@[t as int].row@,
                    self.grid@[t as int].y == mid.grid@[t as int].y,
                    self.grid@[t as int].row@.len() == prior.len() + j,
                    forall|q: int|
                        0 <= q < prior.len() ==> (#[trigger] self.grid@[t as int].row@[q])
                            == prior[q],
                    forall|q: int|
                        0 <= q < j ==> ((#[trigger] self.grid@[t as int].row@[prior.len()
                            + q]).is_alive == pattern@[k as int]@[q] && self.grid@[
                            t as int].row@[prior.len() + q].neighbours == 0),
                    old(self).base_x() + prior.len() + flag_n <= isize::MAX + 1,
                decreases flag_n - j,
            {
                proof {
                    assert(self.grid@[t as int].wf());
                }
                let f = flags[j];
                self.grid[t].append_cell(f);
                j += 1;
            }
            proof {
                let t0 = t as int;
                // rows the pattern has not touched so far
                assert forall|i: int|
                    (0 <= i < self.height() && !(row_offset <= i < row_offset + k + 1))
                        implies (if i < old(self).height() {
                        (#[trigger] self.grid@[i]) == old(self).grid@[i]
                    } else {
                        self.grid@[i].row@ == prior_row_cells(*old(self), i)
                    }) by {
                    assert(i != t0);
                    assert(self.grid@[i] == mid.grid@[i]);
                    if i < mid0.height() {
                        assert(mid.grid@[i] == mid0.grid@[i]);
                    } else {
                        assert(mid.grid@[i].row@.len() == 1);
                        assert(mid.grid@[i].row@ =~= prior_row_cells(*old(self), i));
                    }
                }
                // rows already seeded, including this one
                assert forall|kk: int| 0 <= kk < k + 1 implies {
                    let r2 = #[trigger] self.grid@[row_offset + kk];
                    let priork = prior_row_cells(*old(self), row_offset + kk);
                    let flagsk = pattern@[kk]@;
                    &&& r2.row@.len() == priork.len() + flagsk.len()
                    &&& (forall|q: int| 0 <= q < priork.len() ==> r2.row@[q] == priork[q])
                    &&& (forall|q: int|
                        0 <= q < flagsk.len() ==> ((#[trigger] r2.row@[priork.len()
                            + q]).is_alive == flagsk[q] && r2.row@[priork.len()
                            + q].neighbours == 0))
                } by {
                    if kk < k {
                        assert(row_offset + kk != t0);
                        assert(self.grid@[row_offset + kk] == mid.grid@[row_offset + kk]);
                        assert(mid.grid@[row_offset + kk] == mid0.grid@[row_offset + kk]);
                    } else {
                        assert(prior =~= prior_row_cells(*old(self), t0)) by {
                            if t0 < mid0.height() {
                                if t0 < old(self).height() {
                                    assert(mid0.grid@[t0] == old(self).grid@[t0]);
                                } else {
                                    assert(mid0.grid@[t0].row@ == prior_row_cells(
                                        *old(self),
                                        t0,
                                    ));
                                }
                            } else {
                                assert(mid.grid@[t0].row@.len() == 1);
                            }
                        }
                    }
                }
            }
            k += 1;
        }
    }
}

impl GameGrid {
    /// The length of the longest row.
    pub fn max_row_len(&self) -> (m: usize)
        requires
            self.wf_ragged(),
        ensures
            m as int == seq_max_len(self.grid@),
    {
        let h = self.grid.len();
        let mut max: usize = 0;
        let mut i: usize = 0;
        while i < h
            invariant
                self.wf_ragged(),
                h == self.grid@.len(),
                i <= h,
                max == seq_max_len(self.grid@.take(i as int)),
            decreases h - i,
        {
            let ghost prefix = self.grid@.take(i as int);
            let len_i = self.grid[i].row.len();
            if len_i > max {
                max = len_i;
            }
            proof {
                let prefix2 = self.grid@.take(i + 1);
                assert(prefix2.drop_last() =~= prefix);
                assert(prefix2.last() == self.grid@[i as int]);
            }
            i += 1;
        }
        proof {
            assert(self.grid@.take(h as int) =~= self.grid@);
        }
        max
    }
}

impl GameGrid {
    /// What the transition rule leaves at `(x, y)`: alive exactly when the
    /// coordinate is covered and the rule keeps or births it.
    pub open spec fn stepped_alive_at(self, x: int, y: int) -> bool {
        self.in_bounds(x, y) && crate::cell::step_alive(
            self.alive_at(x, y),
            self.count_alive(x, y),
        )
    }

    /// After the transition, some cell of the row with coordinate `y` is alive.
    pub open spec fn stepped_row_alive(self, y: int) -> bool {
        exists|x: int| self.stepped_alive_at(x, y)
    }

    /// After the transition, some cell of the column with coordinate `x` is alive.
    pub open spec fn stepped_col_alive(self, x: int) -> bool {
        exists|y: int| self.stepped_alive_at(x, y)
    }

    /// The reconciliation decisions of `update_edges`, evaluated on the
    /// stepped aliveness: together with the three spec functions below they
    /// pin the exact extent a generation step leaves behind.
    pub open spec fn base_x_after_step(self) -> int {
        let grow_l = self.stepped_col_alive(self.base_x());
        let shrink_l = !grow_l && self.width() >= 2 && !self.stepped_col_alive(
            self.base_x() + 1,
        );
        self.base_x() - (if grow_l { 1 as int } else { 0 }) + (if shrink_l { 1 as int } else {
            0
        })
    }

    pub open spec fn width_after_step(self) -> int {
        let grow_l = self.stepped_col_alive(self.base_x());
        let shrink_l = !grow_l && self.width() >= 2 && !self.stepped_col_alive(
            self.base_x() + 1,
        );
        let w_mid = self.width() + (if grow_l { 1 as int } else { 0 }) - (if shrink_l {
            1 as int
        } else {
            0
        });
        let grow_r = self.stepped_col_alive(self.base_x() + self.width() - 1);
        let shrink_r = !grow_r && w_mid >= 2 && !self.stepped_col_alive(
            self.base_x() + self.width() - 2,
        );
        w_mid + (if grow_r { 1 as int } else { 0 }) - (if shrink_r { 1 as int } else { 0 })
    }

    pub open spec fn base_y_after_step(self) -> int {
        let grow_b = self.stepped_row_alive(self.base_y() + self.height() - 1);
        let shrink_b = !grow_b && self.height() >= 2 && !self.stepped_row_alive(
            self.base_y() + self.height() - 2,
        );
        let h_mid = self.height() + (if grow_b { 1 as int } else { 0 }) - (if shrink_b {
            1 as int
        } else {
            0
        });
        let grow_t = self.stepped_row_alive(self.base_y());
        let shrink_t = !grow_t && h_mid >= 2 && !self.stepped_row_alive(self.base_y() + 1);
        self.base_y() - (if grow_t { 1 as int } else { 0 }) + (if shrink_t { 1 as int } else {
            0
        })
    }

    pub open spec fn height_after_step(self) -> int {
        let grow_b = self.stepped_row_alive(self.base_y() + self.height() - 1);
        let shrink_b = !grow_b && self.height() >= 2 && !self.stepped_row_alive(
            self.base_y() + self.height() - 2,
        );
        let h_mid = self.height() + (if grow_b { 1 as int } else { 0 }) - (if shrink_b {
            1 as int
        } else {
            0
        });
        let grow_t = self.stepped_row_alive(self.base_y());
        let shrink_t = !grow_t && h_mid >= 2 && !self.stepped_row_alive(self.base_y() + 1);
        h_mid + (if grow_t { 1 as int } else { 0 }) - (if shrink_t { 1 as int } else { 0 })
    }

    /// A grid holding exactly the stepped aliveness of `pre`, in the same
    /// extent, makes the same row, column and reconciliation judgements.
    pub proof fn lemma_stepped_transfer(pre: GameGrid, mid: GameGrid)
        requires
            mid.same_shape(pre),
            forall|x: int, y: int| mid.alive_at(x, y) == pre.stepped_alive_at(x, y),
        ensures
            forall|y: int| #[trigger] mid.row_alive(y) == pre.stepped_row_alive(y),
            forall|x: int| #[trigger] mid.col_alive(x) == pre.stepped_col_alive(x),
            mid.base_x_next() == pre.base_x_after_step(),
            mid.width_next() == pre.width_after_step(),
            mid.base_y_next() == pre.base_y_after_step(),
            mid.height_next() == pre.height_after_step(),
    {
        assert forall|y: int| #[trigger] mid.row_alive(y) == pre.stepped_row_alive(y) by {
            if mid.row_alive(y) {
                let x = choose|x: int| mid.alive_at(x, y);
                assert(pre.stepped_alive_at(x, y));
            }
            if pre.stepped_row_alive(y) {
                let x = choose|x: int| pre.stepped_alive_at(x, y);
                assert(mid.alive_at(x, y));
            }
        }
        assert forall|x: int| #[trigger] mid.col_alive(x) == pre.stepped_col_alive(x) by {
            if mid.col_alive(x) {
                let y = choose|y: int| mid.alive_at(x, y);
                assert(pre.stepped_alive_at(x, y));
            }
            if pre.stepped_col_alive(x) {
                let y = choose|y: int| pre.stepped_alive_at(x, y);
                assert(mid.alive_at(x, y));
            }
        }
    }
}

} // verus!
