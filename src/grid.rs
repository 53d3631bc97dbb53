use vstd::prelude::*;

use crate::board::{
    chebyshev, free_before, lemma_cascade_complete, lemma_child, lemma_index_in_range,
    lemma_index_unique, lemma_neighbors_frame, lemma_reached_eligible, lemma_settled_grows,
    lemma_wf_frame, min_nat, mines_for, protected, shuffle_step, shuffled, shuffled_upto, touching,
    valid_draws, Board, RevealOutcome, FIRST_CLICK_PROTECTION,
};
use crate::count::{count_true, lemma_count_agree, lemma_count_update};
use crate::cell::{Cell, CellType};
use crate::render::{border_line, bottom_line, push_cell, row_cells, row_line, top_line};
use vstd::string::StringExecFns;

verus! {

/// Share of the board, in percent, that holds mines when none is given.
pub const MINE_PERCENTAGE: usize = 20;

/// A Minesweeper board: `height` rows of `width` cells, stored row by row.
pub struct Grid {
    cells: Vec<Cell>,
    mine_count: usize,
    width: usize,
    height: usize,
    selected: (usize, usize),
    is_generated: bool,
}

impl View for Grid {
    type V = Board;

    closed spec fn view(&self) -> Board {
        Board {
            width: self.width as nat,
            height: self.height as nat,
            cells: self.cells@,
            mine_count: self.mine_count as nat,
            selected: (self.selected.0 as nat, self.selected.1 as nat),
            generated: self.is_generated,
        }
    }
}

impl Grid {
    /// The cells fill a `width` by `height` board whose size fits a `usize`.
    closed spec fn shaped(&self) -> bool {
        &&& self.width > 0
        &&& self.height > 0
        &&& self.cells@.len() == self.width * self.height
        &&& self.width * self.height <= usize::MAX
    }

    pub closed spec fn wf(&self) -> bool {
        &&& self@.wf()
        &&& self.shaped()
    }

    /// A board of `width` by `height` hidden empty cells, of which `pct` percent
    /// (rounded down) will become mines once the board is generated.
    pub fn with_mine_percentage(width: usize, height: usize, pct: usize) -> (r: Grid)
        requires
            width > 0,
            height > 0,
            width * height <= usize::MAX,
            pct * width * height <= usize::MAX,
        ensures
            r.wf(),
            r@.wf(),
            r@.width == width,
            r@.height == height,
            r@.mine_count == mines_for(width as nat, height as nat, pct as nat),
            r@.cells == Seq::new((width * height) as nat, |i: int| Cell::blank()),
            r@.selected == (0nat, 0nat),
            !r@.generated,
    {
        assert(pct * width <= pct * width * height && width * height <= pct * width * height
            || pct == 0) by (nonlinear_arith)
            requires
                width > 0,
                height > 0,
        ;
        let size = width * height;
        let mut cells: Vec<Cell> = Vec::with_capacity(size);
        let mut i: usize = 0;
        while i < size
            invariant
                i <= size,
                cells@ == Seq::new(i as nat, |k: int| Cell::blank()),
            decreases size - i,
        {
            cells.push(Cell::new());
            i += 1;
            assert(cells@ =~= Seq::new(i as nat, |k: int| Cell::blank()));
        }
        let mine_count = pct * width * height / 100;
        let r = Grid { cells, mine_count, width, height, selected: (0, 0), is_generated: false };
        assert forall|x: int, y: int| r@.in_bounds(x, y) implies (#[trigger] r@.cell(
            x,
            y,
        )).adjacent_mines == r@.neighbor_mines(x, y) by {
            lemma_index_in_range(width as int, height as int, x, y);
            assert forall|u: int, v: int| r@.in_bounds(u, v) implies !(#[trigger] r@.cell(
                u,
                v,
            )).is_mine() by {
                lemma_index_in_range(width as int, height as int, u, v);
            }
        }
        r
    }

    /// A board of `height` rows and `width` columns with the default share of mines.
    pub fn new(width: usize, height: usize) -> (r: Grid)
        requires
            width > 0,
            height > 0,
            width * height <= usize::MAX,
            MINE_PERCENTAGE * width * height <= usize::MAX,
        ensures
            r.wf(),
            r@.wf(),
            r@.width == width,
            r@.height == height,
            r@.mine_count == mines_for(width as nat, height as nat, MINE_PERCENTAGE as nat),
            r@.cells == Seq::new((width * height) as nat, |i: int| Cell::blank()),
            r@.selected == (0nat, 0nat),
            !r@.generated,
    {
        Grid::with_mine_percentage(width, height, MINE_PERCENTAGE)
    }

    /// Moves the cursor to `(x, y)`.
    pub fn set_selected(&mut self, x: usize, y: usize)
        requires
            old(self).wf(),
            x < old(self)@.width,
            y < old(self)@.height,
        ensures
            final(self).wf(),
            final(self)@.wf(),
            final(self)@ == (Board { selected: (x as nat, y as nat), ..old(self)@ }),
    {
        self.selected = (x, y);
        proof {
            lemma_wf_frame(old(self)@, self@);
        }
    }

    /// Whether the mines have been placed.
    pub fn is_generated(&self) -> (r: bool)
        ensures
            r == self@.generated,
    {
        self.is_generated
    }

    pub fn width(&self) -> (r: usize)
        ensures
            r == self@.width,
    {
        self.width
    }

    pub fn height(&self) -> (r: usize)
        ensures
            r == self@.height,
    {
        self.height
    }

    pub fn mine_count(&self) -> (r: usize)
        ensures
            r == self@.mine_count,
    {
        self.mine_count
    }

    /// The row-major index of `(x, y)`.
    fn index_of(&self, x: usize, y: usize) -> (r: usize)
        requires
            self.shaped(),
            x < self@.width,
            y < self@.height,
        ensures
            r == self@.index(x as int, y as int),
            r < self.cells@.len(),
    {
        proof {
            lemma_index_in_range(self.width as int, self.height as int, x as int, y as int);
        }
        y * self.width + x
    }

    /// The cell at `(x, y)`.
    pub fn cell_at(&self, x: usize, y: usize) -> (r: Cell)
        requires
            self.wf(),
            x < self@.width,
            y < self@.height,
        ensures
            r == self@.cell(x as int, y as int),
    {
        let i = self.index_of(x, y);
        self.cells[i]
    }

    /// Flips the flag of a hidden cell; a revealed cell is left as it is.
    pub fn toggle_flag(&mut self, x: usize, y: usize)
        requires
            old(self).wf(),
            x < old(self)@.width,
            y < old(self)@.height,
        ensures
            final(self).wf(),
            final(self)@.wf(),
            old(self)@.toggled_into(x as int, y as int, final(self)@),
    {
        let i = self.index_of(x, y);
        let c = self.cells[i];
        if c.revealed {
            return;
        }
        self.cells.set(i, Cell { flagged: !c.flagged, ..c });
        assert(self@.cells =~= old(self)@.cells.update(i as int, Cell { flagged: !c.flagged, ..c }));
        assert(self@ == old(self)@.with_cell(x as int, y as int, Cell { flagged: !c.flagged, ..c }));
        proof {
            lemma_wf_frame(old(self)@, self@);
        }
    }
}

/// Relies on rand::random_range: a value drawn from the inclusive range `0..=bound`.
#[verifier::external_body]
fn random_index(bound: usize) -> (r: usize)
    ensures
        r <= bound,
{
    rand::random_range(0..=bound)
}

impl Grid {
    /// Chebyshev distance between two positions.
    fn distance(a: (usize, usize), b: (usize, usize)) -> (r: usize)
        ensures
            r == chebyshev(a.0 as int, a.1 as int, b.0 as int, b.1 as int),
    {
        let dx = if a.0 >= b.0 { a.0 - b.0 } else { b.0 - a.0 };
        let dy = if a.1 >= b.1 { a.1 - b.1 } else { b.1 - a.1 };
        if dx >= dy { dx } else { dy }
    }

    /// Whether the cell at row-major index `i` lies in the safe zone around `safe_spot`.
    fn is_protected(&self, safe_spot: (usize, usize), i: usize) -> (r: bool)
        requires
            self.width > 0,
        ensures
            r == protected(self.width as nat, safe_spot.0 as int, safe_spot.1 as int, i as int),
    {
        Self::distance((i % self.width, i / self.width), safe_spot) <= FIRST_CLICK_PROTECTION
    }

    /// Marks as mines the first `mine_count` cells, in row-major order, that lie
    /// outside the safe zone around `safe_spot`.
    fn place_mine(&mut self, safe_spot: (usize, usize))
        requires
            old(self).wf(),
            !old(self)@.generated,
        ensures
            final(self).width == old(self).width,
            final(self).height == old(self).height,
            final(self).mine_count == old(self).mine_count,
            final(self).selected == old(self).selected,
            final(self).is_generated == old(self).is_generated,
            final(self).cells@.len() == old(self).cells@.len(),
            forall|i: int|
                0 <= i < old(self).cells@.len() ==> {
                    &&& (#[trigger] final(self).cells@[i]).revealed == old(self).cells@[i].revealed
                    &&& final(self).cells@[i].flagged == old(self).cells@[i].flagged
                    &&& final(self).cells@[i].adjacent_mines == old(self).cells@[i].adjacent_mines
                    &&& final(self).cells@[i].is_mine() == (!protected(
                        old(self)@.width,
                        safe_spot.0 as int,
                        safe_spot.1 as int,
                        i,
                    ) && free_before(old(self)@.width, safe_spot.0 as int, safe_spot.1 as int, i)
                        < old(self).mine_count)
                },
            final(self)@.mine_total() == min_nat(
                old(self)@.mine_count,
                old(self)@.free_cells(safe_spot.0 as int, safe_spot.1 as int),
            ),
    {
        let ghost b0 = self@;
        let ghost sx = safe_spot.0 as int;
        let ghost sy = safe_spot.1 as int;
        let size = self.cells.len();
        let mut placed: usize = 0;
        let mut i: usize = 0;
        while i < size
            invariant
                i <= size,
                size == b0.cells.len(),
                sx == safe_spot.0 as int,
                sy == safe_spot.1 as int,
                b0.wf(),
                !b0.generated,
                self.width == b0.width,
                self.height == b0.height,
                self.mine_count == b0.mine_count,
                self.selected == old(self).selected,
                self.is_generated == b0.generated,
                self.cells@.len() == size,
                placed == min_nat(b0.mine_count, free_before(b0.width, sx, sy, i as int)),
                placed == count_true(self@.mine_flags(), i as int),
                forall|k: int|
                    0 <= k < size ==> {
                        &&& (#[trigger] self.cells@[k]).revealed == b0.cells[k].revealed
                        &&& self.cells@[k].flagged == b0.cells[k].flagged
                        &&& self.cells@[k].adjacent_mines == b0.cells[k].adjacent_mines
                        &&& k < i ==> self.cells@[k].is_mine() == (!protected(b0.width, sx, sy, k)
                            && free_before(b0.width, sx, sy, k) < b0.mine_count)
                        &&& k >= i ==> !self.cells@[k].is_mine()
                    },
            decreases size - i,
        {
            let ghost before = self@;
            let is_safe = self.is_protected(safe_spot, i);
            if placed < self.mine_count && !is_safe {
                let c = self.cells[i];
                self.cells.set(i, Cell { cell_type: CellType::Mine, ..c });
                proof {
                    assert(self@.mine_flags() =~= before.mine_flags().update(i as int, true));
                    lemma_count_update(before.mine_flags(), i as int, true, i as int + 1);
                    lemma_count_agree(self@.mine_flags(), before.mine_flags(), i as int);
                }
                placed += 1;
            }
            assert(free_before(b0.width, sx, sy, i as int + 1) == free_before(b0.width, sx, sy, i as int)
                + if protected(b0.width, sx, sy, i as int) { 0nat } else { 1nat });
            assert forall|k: int| 0 <= k < size implies {
                &&& (#[trigger] self.cells@[k]).revealed == b0.cells[k].revealed
                &&& self.cells@[k].flagged == b0.cells[k].flagged
                &&& self.cells@[k].adjacent_mines == b0.cells[k].adjacent_mines
                &&& k < i + 1 ==> self.cells@[k].is_mine() == (!protected(b0.width, sx, sy, k)
                    && free_before(b0.width, sx, sy, k) < b0.mine_count)
                &&& k >= i + 1 ==> !self.cells@[k].is_mine()
            } by {
                if k != i {
                    assert(self.cells@[k] == before.cells[k]);
                }
            }
            i += 1;
        }
        proof {
            assert(self@.mine_total() == count_true(self@.mine_flags(), size as int));
        }
    }

    /// Shuffles the cells outside the safe zone around `safe_spot` with the given
    /// draws: for each index `i` from the second on, the cell trades places with the
    /// cell at `draws[i]`, unless the two are the same or either lies in the safe zone.
    fn shuffle(&mut self, safe_spot: (usize, usize), draws: &Vec<usize>)
        requires
            old(self).shaped(),
            valid_draws(draws@, old(self)@.cells.len() as int),
        ensures
            final(self).shaped(),
            final(self).width == old(self).width,
            final(self).height == old(self).height,
            final(self).mine_count == old(self).mine_count,
            final(self).selected == old(self).selected,
            final(self).is_generated == old(self).is_generated,
            final(self)@.cells == shuffled(
                old(self)@.cells,
                old(self)@.width,
                safe_spot.0 as int,
                safe_spot.1 as int,
                draws@,
            ),
            forall|i: int|
                0 <= i < old(self)@.cells.len() && protected(
                    old(self)@.width,
                    safe_spot.0 as int,
                    safe_spot.1 as int,
                    i,
                ) ==> #[trigger] final(self)@.cells[i] == old(self)@.cells[i],
            final(self)@.mine_total() == old(self)@.mine_total(),
            (forall|k: int|
                0 <= k < old(self)@.cells.len() ==> !(#[trigger] old(self)@.cells[k]).revealed
                    || !old(self)@.cells[k].flagged) ==> forall|k: int|
                0 <= k < old(self)@.cells.len() ==> !(#[trigger] final(self)@.cells[k]).revealed
                    || !final(self)@.cells[k].flagged,
    {
        let ghost b0 = self@;
        let ghost sx = safe_spot.0 as int;
        let ghost sy = safe_spot.1 as int;
        let ghost exclusive = forall|k: int|
            0 <= k < b0.cells.len() ==> !(#[trigger] b0.cells[k]).revealed || !b0.cells[k].flagged;
        let size = self.cells.len();
        assert(size >= 1) by (nonlinear_arith)
            requires
                self.width > 0,
                self.height > 0,
                size == self.width * self.height,
        ;
        let mut i: usize = 1;
        while i < size
            invariant
                1 <= i <= size,
                size == b0.cells.len(),
                sx == safe_spot.0 as int,
                sy == safe_spot.1 as int,
                self.shaped(),
                self.width == b0.width,
                self.height == b0.height,
                self.mine_count == b0.mine_count,
                self.selected == old(self).selected,
                self.is_generated == b0.generated,
                self.cells@.len() == size,
                self@.mine_total() == b0.mine_total(),
                valid_draws(draws@, size as int),
                self.cells@ == shuffled_upto(b0.cells, b0.width, sx, sy, draws@, i as int),
                forall|k: int|
                    0 <= k < size && protected(b0.width, sx, sy, k) ==> #[trigger] self.cells@[k]
                        == b0.cells[k],
                exclusive == forall|k: int|
                    0 <= k < b0.cells.len() ==> !(#[trigger] b0.cells[k]).revealed
                        || !b0.cells[k].flagged,
                exclusive ==> forall|k: int|
                    0 <= k < size ==> !(#[trigger] self.cells@[k]).revealed
                        || !self.cells@[k].flagged,
            decreases size - i,
        {
            let j = draws[i];
            let ghost prev = self.cells@;
            if i != j && !self.is_protected(safe_spot, i) && !self.is_protected(safe_spot, j) {
                let ghost before = self@;
                let a = self.cells[i];
                let b = self.cells[j];
                self.cells.set(i, b);
                let ghost middle = self@;
                self.cells.set(j, a);
                proof {
                    assert(middle.mine_flags() =~= before.mine_flags().update(
                        i as int,
                        b.is_mine(),
                    ));
                    assert(self@.mine_flags() =~= middle.mine_flags().update(
                        j as int,
                        a.is_mine(),
                    ));
                    lemma_count_update(before.mine_flags(), i as int, b.is_mine(), size as int);
                    lemma_count_update(middle.mine_flags(), j as int, a.is_mine(), size as int);
                    assert forall|k: int|
                        0 <= k < size && protected(b0.width, sx, sy, k) implies #[trigger] self.cells@[k]
                            == b0.cells[k] by {
                        assert(self.cells@[k] == before.cells[k]);
                    }
                    if exclusive {
                        assert forall|k: int| 0 <= k < size implies !(
                        #[trigger] self.cells@[k]).revealed || !self.cells@[k].flagged by {
                            if k == i {
                                assert(before.cells[j as int] == b);
                            } else if k == j {
                                assert(before.cells[i as int] == a);
                            } else {
                                assert(self.cells@[k] == before.cells[k]);
                            }
                        }
                    }
                }
            }
            proof {
                assert(self.cells@ =~= shuffle_step(prev, b0.width, sx, sy, i as int, j as int));
            }
            i += 1;
        }
    }
}

/// Draws for a shuffle of `n` cells, each uniformly at random up to its own index.
fn random_draws(n: usize) -> (r: Vec<usize>)
    requires
        n >= 1,
    ensures
        valid_draws(r@, n as int),
{
    let mut draws: Vec<usize> = Vec::new();
    draws.push(0);
    let mut i: usize = 1;
    while i < n
        invariant
            1 <= i <= n,
            draws@.len() == i,
            forall|k: int| 0 <= k < i ==> #[trigger] draws@[k] <= k,
        decreases n - i,
    {
        draws.push(random_index(i));
        i += 1;
    }
    draws
}

impl Grid {
    /// 1 when the cell at `(x + dx - 1, y + dy - 1)` is on the board and holds a mine, else 0.
    fn mine_near(&self, x: usize, y: usize, dx: usize, dy: usize) -> (r: u8)
        requires
            self.shaped(),
            x < self@.width,
            y < self@.height,
            dx <= 2,
            dy <= 2,
        ensures
            r == self@.mine_at(x + dx - 1, y + dy - 1),
    {
        if (x == 0 && dx == 0) || (y == 0 && dy == 0) {
            return 0;
        }
        let nx = if dx == 0 { x - 1 } else { x + (dx - 1) };
        let ny = if dy == 0 { y - 1 } else { y + (dy - 1) };
        if nx >= self.width || ny >= self.height {
            return 0;
        }
        let i = self.index_of(nx, ny);
        match self.cells[i].cell_type {
            CellType::Mine => 1,
            CellType::Empty => 0,
        }
    }

    /// The number of mines around `(x, y)`.
    fn count_adjacent(&self, x: usize, y: usize) -> (r: u8)
        requires
            self.shaped(),
            x < self@.width,
            y < self@.height,
        ensures
            r == self@.neighbor_mines(x as int, y as int),
    {
        self.mine_near(x, y, 0, 0) + self.mine_near(x, y, 1, 0) + self.mine_near(x, y, 2, 0)
            + self.mine_near(x, y, 0, 1) + self.mine_near(x, y, 2, 1) + self.mine_near(x, y, 0, 2)
            + self.mine_near(x, y, 1, 2) + self.mine_near(x, y, 2, 2)
    }

    /// Stores in every cell the number of mines among its neighbours.
    fn update_mine_count(&mut self)
        requires
            old(self).shaped(),
        ensures
            final(self).shaped(),
            final(self).width == old(self).width,
            final(self).height == old(self).height,
            final(self).mine_count == old(self).mine_count,
            final(self).selected == old(self).selected,
            final(self).is_generated == old(self).is_generated,
            forall|i: int|
                0 <= i < old(self).cells@.len() ==> {
                    &&& (#[trigger] final(self).cells@[i]).revealed == old(self).cells@[i].revealed
                    &&& final(self).cells@[i].flagged == old(self).cells@[i].flagged
                    &&& final(self).cells@[i].cell_type == old(self).cells@[i].cell_type
                },
            forall|x: int, y: int|
                final(self)@.in_bounds(x, y) ==> (#[trigger] final(self)@.cell(x, y)).adjacent_mines
                    == final(self)@.neighbor_mines(x, y),
    {
        let ghost b0 = self@;
        let mut y: usize = 0;
        while y < self.height
            invariant
                self.shaped(),
                y <= self.height,
                self.width == b0.width,
                self.height == b0.height,
                self.mine_count == old(self).mine_count,
                self.selected == old(self).selected,
                self.is_generated == old(self).is_generated,
                b0.cells.len() == b0.size(),
                self.cells@.len() == b0.cells.len(),
                forall|i: int|
                    0 <= i < b0.cells.len() ==> {
                        &&& (#[trigger] self.cells@[i]).revealed == b0.cells[i].revealed
                        &&& self.cells@[i].flagged == b0.cells[i].flagged
                        &&& self.cells@[i].cell_type == b0.cells[i].cell_type
                    },
                forall|u: int, v: int|
                    b0.in_bounds(u, v) && v < y ==> (#[trigger] self@.cell(u, v)).adjacent_mines
                        == b0.neighbor_mines(u, v),
            decreases self.height - y,
        {
            let mut x: usize = 0;
            while x < self.width
                invariant
                    self.shaped(),
                    y < self.height,
                    x <= self.width,
                    self.width == b0.width,
                    self.height == b0.height,
                    self.mine_count == old(self).mine_count,
                    self.selected == old(self).selected,
                    self.is_generated == old(self).is_generated,
                    b0.cells.len() == b0.size(),
                    self.cells@.len() == b0.cells.len(),
                    forall|i: int|
                        0 <= i < b0.cells.len() ==> {
                            &&& (#[trigger] self.cells@[i]).revealed == b0.cells[i].revealed
                            &&& self.cells@[i].flagged == b0.cells[i].flagged
                            &&& self.cells@[i].cell_type == b0.cells[i].cell_type
                        },
                    forall|u: int, v: int|
                        b0.in_bounds(u, v) && (v < y || (v == y && u < x)) ==> (#[trigger] self@.cell(
                            u,
                            v,
                        )).adjacent_mines == b0.neighbor_mines(u, v),
                decreases self.width - x,
            {
                let n = self.count_adjacent(x, y);
                proof {
                    lemma_neighbors_frame(b0, self@, x as int, y as int);
                }
                let i = self.index_of(x, y);
                let c = self.cells[i];
                let ghost before = self@;
                self.cells.set(i, Cell { adjacent_mines: n, ..c });
                proof {
                    assert forall|u: int, v: int|
                        b0.in_bounds(u, v) && (v < y || (v == y && u < x + 1)) implies (
                        #[trigger] self@.cell(u, v)).adjacent_mines == b0.neighbor_mines(u, v) by {
                        lemma_index_unique(b0.width as int, u, v, x as int, y as int);
                        lemma_index_in_range(b0.width as int, b0.height as int, u, v);
                        if u != x || v != y {
                            assert(self@.cell(u, v) == before.cell(u, v));
                        }
                    }
                }
                x += 1;
            }
            y += 1;
        }
        proof {
            assert forall|x: int, y: int| self@.in_bounds(x, y) implies (#[trigger] self@.cell(
                x,
                y,
            )).adjacent_mines == self@.neighbor_mines(x, y) by {
                lemma_neighbors_frame(b0, self@, x, y);
            }
        }
    }

    /// Places the mines, keeping the cells around `safe_spot` free of them, shuffles
    /// the cells outside that zone with `draws`, then computes every cell's count of
    /// neighbouring mines. A board whose mines are already placed is left as it is.
    pub fn generate_with(&mut self, safe_spot: (usize, usize), draws: &Vec<usize>)
        requires
            old(self).wf(),
            valid_draws(draws@, old(self)@.cells.len() as int),
        ensures
            final(self).wf(),
            final(self)@.wf(),
            old(self)@.generated_with(
                safe_spot.0 as int,
                safe_spot.1 as int,
                draws@,
                final(self)@,
            ),
    {
        if self.is_generated {
            return;
        }
        let ghost b0 = self@;
        let ghost sx = safe_spot.0 as int;
        let ghost sy = safe_spot.1 as int;
        self.place_mine(safe_spot);
        let ghost placed = self@;
        proof {
            assert(placed.cells =~= b0.with_mines(sx, sy));
        }
        proof {
            assert forall|k: int| 0 <= k < placed.cells.len() implies !(
            #[trigger] placed.cells[k]).revealed || !placed.cells[k].flagged by {
                assert(b0.cells[k] == old(self).cells@[k]);
            }
        }
        self.shuffle(safe_spot, draws);
        let ghost shuffled = self@;
        let ghost d = draws@;
        self.update_mine_count();
        let ghost updated = self@;
        self.is_generated = true;
        proof {
            assert forall|x: int, y: int| self@.in_bounds(x, y) implies (#[trigger] self@.cell(
                x,
                y,
            )).adjacent_mines == self@.neighbor_mines(x, y) by {
                assert(updated.cell(x, y) == self@.cell(x, y));
                assert(updated.cell(x, y).adjacent_mines == updated.neighbor_mines(x, y));
                lemma_neighbors_frame(updated, self@, x, y);
            }
            assert(self@.mine_flags() =~= shuffled.mine_flags());
            let s = crate::board::shuffled(b0.with_mines(sx, sy), b0.width, sx, sy, d);
            assert forall|i: int| 0 <= i < b0.cells.len() implies {
                &&& (#[trigger] self@.cells[i]).cell_type == s[i].cell_type
                &&& self@.cells[i].revealed == s[i].revealed
                &&& self@.cells[i].flagged == s[i].flagged
            } by {
                assert(self.cells@[i].cell_type == shuffled.cells[i].cell_type);
            }
            assert forall|x: int, y: int| b0.in_bounds(x, y) && touching(x, y, sx, sy) implies !(
            #[trigger] self@.cell(x, y)).is_mine() by {
                let i = b0.index(x, y);
                lemma_index_in_range(b0.width as int, b0.height as int, x, y);
                vstd::arithmetic::div_mod::lemma_fundamental_div_mod_converse(
                    i,
                    b0.width as int,
                    y,
                    x,
                );
                assert(self.cells@[i].cell_type == shuffled.cells[i].cell_type);
                assert(shuffled.cells[i] == placed.cells[i]);
            }
            assert forall|i: int| 0 <= i < self.cells@.len() implies !(
            #[trigger] self.cells@[i]).revealed || !self.cells@[i].flagged by {
                assert(self.cells@[i].revealed == shuffled.cells[i].revealed);
            }
        }
    }

    /// Places the mines, keeping the cells around `safe_spot` free of them, shuffles
    /// the cells outside that zone at random, then computes every cell's count of
    /// neighbouring mines. A board whose mines are already placed is left as it is.
    pub fn generate(&mut self, safe_spot: (usize, usize))
        requires
            old(self).wf(),
        ensures
            final(self).wf(),
            final(self)@.wf(),
            old(self)@.generated_into(safe_spot.0 as int, safe_spot.1 as int, final(self)@),
    {
        let ghost b0 = self@;
        if self.is_generated {
            let ghost zeros = Seq::new(b0.cells.len(), |i: int| 0usize);
            assert(valid_draws(zeros, b0.cells.len() as int));
            assert(b0.generated_with(safe_spot.0 as int, safe_spot.1 as int, zeros, self@));
            return;
        }
        let size = self.cells.len();
        assert(size >= 1) by (nonlinear_arith)
            requires
                self.width > 0,
                self.height > 0,
                size == self.width * self.height,
        ;
        let draws = random_draws(size);
        self.generate_with(safe_spot, &draws);
        assert(valid_draws(draws@, b0.cells.len() as int));
    }
}

impl Grid {
    /// Whether every cell without a mine is revealed.
    fn all_cleared(&self) -> (r: bool)
        ensures
            r == self@.cleared(),
    {
        let mut i: usize = 0;
        while i < self.cells.len()
            invariant
                i <= self.cells@.len(),
                forall|k: int| 0 <= k < i ==> !(#[trigger] self.cells@[k]).is_mine() ==> self.cells@[k].revealed,
            decreases self.cells@.len() - i,
        {
            let c = self.cells[i];
            if c.cell_type == CellType::Empty && !c.revealed {
                return false;
            }
            i += 1;
        }
        true
    }

    /// What the game is left in once `(x, y)` has been revealed.
    fn outcome_at(&self, x: usize, y: usize) -> (r: RevealOutcome)
        requires
            self.shaped(),
            x < self@.width,
            y < self@.height,
        ensures
            r == self@.outcome(x as int, y as int),
    {
        let i = self.index_of(x, y);
        let c = self.cells[i];
        if c.revealed && c.cell_type == CellType::Mine {
            RevealOutcome::HitMine
        } else if self.all_cleared() {
            RevealOutcome::Cleared
        } else {
            RevealOutcome::Continue
        }
    }

    /// Opens `(nx, ny)`, a neighbour of `(px, py)`, if it is hidden and not
    /// flagged, and queues it when it has no mine around it.
    fn open_one(
        &mut self,
        stack: &mut Vec<(usize, usize)>,
        nx: usize,
        ny: usize,
        Ghost(b0): Ghost<Board>,
        Ghost(tx): Ghost<int>,
        Ghost(ty): Ghost<int>,
        Ghost(px): Ghost<int>,
        Ghost(py): Ghost<int>,
    )
        requires
            old(self).shaped(),
            flood_inv(b0, old(self)@, tx, ty, old(stack)@, px, py),
            b0.in_bounds(nx as int, ny as int),
            touching(px, py, nx as int, ny as int),
            b0.in_bounds(px, py),
            old(self)@.cell(px, py).revealed,
            !b0.cell(px, py).revealed,
            b0.cell(px, py).is_zero(),
        ensures
            final(self).shaped(),
            flood_inv(b0, final(self)@, tx, ty, final(stack)@, px, py),
            final(self)@.width == old(self)@.width,
            final(self)@.height == old(self)@.height,
            final(self)@.cells.len() == old(self)@.cells.len(),
            old(self)@.reveals_within(final(self)@),
            b0.eligible(nx as int, ny as int) ==> final(self)@.cell(nx as int, ny as int).revealed,
            final(self)@.hidden_total() + final(stack)@.len() <= old(self)@.hidden_total()
                + old(stack)@.len(),
    {
        proof {
            assert(self@.width == b0.width && self@.height == b0.height && b0.cells.len()
                == b0.size() && self@.cells.len() == b0.cells.len()) by {
                reveal(flood_inv);
            }
        }
        let ghost before = self@;
        let ghost before_stack = stack@;
        let ni = self.index_of(nx, ny);
        let n = self.cells[ni];
        proof {
            assert(n.cell_type == b0.cell(nx as int, ny as int).cell_type && n.adjacent_mines
                == b0.cell(nx as int, ny as int).adjacent_mines && n.flagged == b0.cell(
                nx as int,
                ny as int,
            ).flagged) by {
                reveal(flood_inv);
                lemma_index_in_range(b0.width as int, b0.height as int, nx as int, ny as int);
            }
        }
        if n.revealed || n.flagged {
            return;
        }
        self.cells.set(ni, Cell { revealed: true, ..n });
        proof {
            lemma_index_in_range(b0.width as int, b0.height as int, nx as int, ny as int);
            assert(self@.hidden_flags() =~= before.hidden_flags().update(ni as int, false));
            lemma_count_update(before.hidden_flags(), ni as int, false, b0.cells.len() as int);
            assert(self@ == before.with_cell(nx as int, ny as int, Cell { revealed: true, ..n }));
        }
        if n.cell_type == CellType::Empty && n.adjacent_mines == 0 {
            stack.push((nx, ny));
        }
        proof {
            lemma_open_step(b0, before, self@, tx, ty, before_stack, stack@, px, py, nx as int, ny as int);
        }
    }

    /// Opens every eligible neighbour of `(px, py)`, a revealed cell without mines around it.
    fn settle(
        &mut self,
        stack: &mut Vec<(usize, usize)>,
        px: usize,
        py: usize,
        Ghost(b0): Ghost<Board>,
        Ghost(tx): Ghost<int>,
        Ghost(ty): Ghost<int>,
    )
        requires
            old(self).shaped(),
            flood_inv(b0, old(self)@, tx, ty, old(stack)@, px as int, py as int),
            b0.in_bounds(px as int, py as int),
            old(self)@.cell(px as int, py as int).revealed,
            !b0.cell(px as int, py as int).revealed,
            b0.cell(px as int, py as int).is_zero(),
        ensures
            final(self).shaped(),
            flood_inv(b0, final(self)@, tx, ty, final(stack)@, -1, -1),
            final(self)@.hidden_total() + final(stack)@.len() <= old(self)@.hidden_total()
                + old(stack)@.len(),
    {
        let ghost start = self@;
        proof {
            assert(start.width == b0.width && start.height == b0.height && start.cells.len()
                == b0.cells.len() && b0.cells.len() == b0.size()) by {
                reveal(flood_inv);
            }
        }
        let mut dx: usize = 0;
        let mut dy: usize = 0;
        while dy < 3
            invariant
                self.shaped(),
                flood_inv(b0, self@, tx, ty, stack@, px as int, py as int),
                self@.width == b0.width,
                self@.height == b0.height,
                self@.cells.len() == b0.cells.len(),
                b0.cells.len() == b0.size(),
                start.reveals_within(self@),
                start.cells.len() == b0.cells.len(),
                start.width == b0.width,
                start.height == b0.height,
                dx < 3,
                dy <= 3,
                dy == 3 ==> dx == 0,
                b0.in_bounds(px as int, py as int),
                self@.cell(px as int, py as int).revealed,
                !b0.cell(px as int, py as int).revealed,
                b0.cell(px as int, py as int).is_zero(),
                self@.hidden_total() + stack@.len() <= start.hidden_total() + old(stack)@.len(),
                forall|a: int, b: int|
                    touching(px as int, py as int, a, b) && (a - px + 1) + 3 * (b - py + 1) < dx + 3
                        * dy && b0.eligible(a, b) ==> (#[trigger] self@.cell(a, b)).revealed,
            decreases 9 - (dx + 3 * dy),
        {
            let ghost before = self@;
            if !((px == 0 && dx == 0) || (py == 0 && dy == 0)) {
                let nx = if dx == 0 { px - 1 } else { px + (dx - 1) };
                let ny = if dy == 0 { py - 1 } else { py + (dy - 1) };
                if nx < self.width && ny < self.height {
                    self.open_one(stack, nx, ny, Ghost(b0), Ghost(tx), Ghost(ty), Ghost(px as int), Ghost(py as int));
                }
            }
            proof {
                lemma_index_in_range(b0.width as int, b0.height as int, px as int, py as int);
                assert forall|a: int, b: int|
                    touching(px as int, py as int, a, b) && (a - px + 1) + 3 * (b - py + 1) < dx + 3
                        * dy + 1 && b0.eligible(a, b) implies (#[trigger] self@.cell(a, b)).revealed by {
                    lemma_index_in_range(b0.width as int, b0.height as int, a, b);
                    assert(before.cell(a, b).revealed ==> self@.cell(a, b).revealed);
                }
            }
            if dx == 2 {
                dx = 0;
                dy += 1;
            } else {
                dx += 1;
            }
        }
        proof {
            assert forall|a: int, b: int|
                touching(px as int, py as int, a, b) && b0.eligible(a, b) implies (#[trigger] self@.cell(
                    a,
                    b,
                )).revealed by {
                assert((a - px + 1) + 3 * (b - py + 1) < 9);
            }
            assert(self@.settled(b0, px as int, py as int));
            reveal(flood_inv);
            reveal(sound_part);
            reveal(stack_part);
            reveal(pending_part);
        }
    }

    /// Reveals the cell at `(x, y)`. A flagged or already revealed cell is left as
    /// it is. A revealed cell without mines around it opens its neighbours in turn,
    /// so the whole region of such cells that it belongs to opens, with its border.
    /// The result reports the board's state afterwards, whether or not anything
    /// changed: `HitMine` when the cell at `(x, y)` is a revealed mine (also when it
    /// was one already), else `Cleared` when every cell without a mine is revealed,
    /// else `Continue`.
    pub fn reveal_cell(&mut self, x: usize, y: usize) -> (r: RevealOutcome)
        requires
            old(self).wf(),
            x < old(self)@.width,
            y < old(self)@.height,
        ensures
            final(self).wf(),
            final(self)@.wf(),
            old(self)@.revealed_into(x as int, y as int, final(self)@),
            !old(self)@.eligible(x as int, y as int) ==> final(self)@ == old(self)@,
            r == final(self)@.outcome(x as int, y as int),
    {
        let ghost b0 = self@;
        let ghost tx = x as int;
        let ghost ty = y as int;
        let i = self.index_of(x, y);
        let c = self.cells[i];
        if c.revealed || c.flagged {
            proof {
                assert forall|u: int, v: int, n: nat| !b0.reached(tx, ty, u, v, n) by {
                    if b0.reached(tx, ty, u, v, n) {
                        lemma_reached_eligible(b0, tx, ty, u, v, n);
                    }
                }
            }
            return self.outcome_at(x, y);
        }
        self.cells.set(i, Cell { revealed: true, ..c });
        proof {
            assert(self@.hidden_flags() =~= b0.hidden_flags().update(i as int, false));
            lemma_count_update(b0.hidden_flags(), i as int, false, b0.cells.len() as int);
            assert(b0.reached(tx, ty, tx, ty, 0));
            assert forall|u: int, v: int|
                b0.in_bounds(u, v) && (#[trigger] self@.cell(u, v)).revealed && !b0.cell(
                    u,
                    v,
                ).revealed implies b0.cascade(tx, ty, u, v) by {
                lemma_index_unique(b0.width as int, u, v, tx, ty);
                lemma_index_in_range(b0.width as int, b0.height as int, u, v);
                assert(b0.reached(tx, ty, tx, ty, 0));
            }
        }
        let mut stack: Vec<(usize, usize)> = Vec::new();
        if c.cell_type == CellType::Empty && c.adjacent_mines == 0 {
            stack.push((x, y));
        }
        proof {
            assert forall|u: int, v: int|
                b0.in_bounds(u, v) && (#[trigger] self@.cell(u, v)).revealed && !b0.cell(
                    u,
                    v,
                ).revealed && b0.cell(u, v).is_zero() implies stack@.contains(
                (u as usize, v as usize),
            ) || self@.settled(b0, u, v) by {
                lemma_index_unique(b0.width as int, u, v, tx, ty);
                lemma_index_in_range(b0.width as int, b0.height as int, u, v);
                assert(stack@[0] == (x, y));
            }
            reveal(flood_inv);
            reveal(sound_part);
            reveal(stack_part);
            reveal(pending_part);
        }
        while stack.len() > 0
            invariant
                self.shaped(),
                tx == x as int,
                ty == y as int,
                flood_inv(b0, self@, tx, ty, stack@, -1, -1),
                self@.hidden_total() + stack@.len() <= b0.hidden_total(),
            decreases self@.hidden_total() + stack@.len(),
        {
            let ghost whole = stack@;
            let p = stack.pop().unwrap();
            proof {
                reveal(flood_inv);
                reveal(sound_part);
                reveal(stack_part);
                reveal(pending_part);
                assert(whole =~= stack@.push(p));
                assert(stack_entry(b0, self@, whole[whole.len() - 1]));
                assert forall|k: int| 0 <= k < stack@.len() implies stack_entry(b0, self@, #[trigger] stack@[k]) by {
                    assert(stack@[k] == whole[k]);
                }
                assert forall|u: int, v: int|
                    b0.in_bounds(u, v) && (#[trigger] self@.cell(u, v)).revealed && !b0.cell(
                        u,
                        v,
                    ).revealed && b0.cell(u, v).is_zero() && !(u == p.0 && v == p.1) implies stack@.contains(
                        (u as usize, v as usize),
                    ) || self@.settled(b0, u, v) by {
                    if whole.contains((u as usize, v as usize)) {
                        let k = choose|k: int|
                            0 <= k < whole.len() && whole[k] == (u as usize, v as usize);
                        if k < stack@.len() {
                            assert(stack@[k] == whole[k]);
                        }
                    }
                }
            }
            self.settle(&mut stack, p.0, p.1, Ghost(b0), Ghost(tx), Ghost(ty));
        }
        proof {
            assert(stack@ =~= Seq::<(usize, usize)>::empty());
            lemma_flood_done(b0, self@, tx, ty);
            reveal(flood_inv);
            lemma_wf_frame(b0, self@);
        }
        self.outcome_at(x, y)
    }
}

impl Grid {
    /// The board as lines of text: the top border, one line per row with the
    /// cursor's cell inverted, and the bottom border.
    pub fn render(&self) -> (r: Vec<String>)
        requires
            self.wf(),
        ensures
            r@.len() == self@.height + 2,
            r@[0]@ == top_line(self@.width),
            r@[self@.height + 1int]@ == bottom_line(self@.width),
            forall|y: int| 0 <= y < self@.height ==> (#[trigger] r@[y + 1])@ == row_line(self@, y),
    {
        proof {
            reveal_strlit("╭");
            reveal_strlit("╮");
            reveal_strlit("╰");
            reveal_strlit("╯");
            reveal_strlit("│ ");
            reveal_strlit("│");
            assert("╭"@ =~= seq!['╭']);
            assert("╮"@ =~= seq!['╮']);
            assert("╰"@ =~= seq!['╰']);
            assert("╯"@ =~= seq!['╯']);
        }
        assert forall|u: int, v: int| self@.in_bounds(u, v) implies (#[trigger] self@.cell(
            u,
            v,
        )).adjacent_mines <= 8 by {
            assert(self@.cell(u, v).adjacent_mines == self@.neighbor_mines(u, v));
        }
        let mut lines: Vec<String> = Vec::new();
        lines.push(border_line(self.width, "╭", "╮"));
        let mut y: usize = 0;
        while y < self.height
            invariant
                self.shaped(),
                forall|u: int, v: int|
                    self@.in_bounds(u, v) ==> (#[trigger] self@.cell(u, v)).adjacent_mines <= 8,
                y <= self.height,
                lines@.len() == y + 1,
                lines@[0]@ == top_line(self@.width),
                forall|v: int| 0 <= v < y ==> (#[trigger] lines@[v + 1])@ == row_line(self@, v),
            decreases self.height - y,
        {
            let mut line = "│ ".to_owned();
            proof {
                reveal_strlit("│ ");
                assert("│ "@ =~= seq!['│', ' ']);
                assert(line@ =~= seq!['│', ' '] + row_cells(self@, y as int, 0));
            }
            let mut x: usize = 0;
            while x < self.width
                invariant
                    self.shaped(),
                    forall|u: int, v: int|
                        self@.in_bounds(u, v) ==> (#[trigger] self@.cell(u, v)).adjacent_mines <= 8,
                    y < self.height,
                    x <= self.width,
                    line@ == seq!['│', ' '] + row_cells(self@, y as int, x as int),
                decreases self.width - x,
            {
                let i = self.index_of(x, y);
                let c = self.cells[i];
                proof {
                    assert(c == self@.cell(x as int, y as int));
                }
                push_cell(&mut line, c, self.selected.0 == x && self.selected.1 == y);
                x += 1;
                proof {
                    assert(line@ =~= seq!['│', ' '] + row_cells(self@, y as int, x as int));
                }
            }
            line.append("│");
            proof {
                reveal_strlit("│");
                assert("│"@ =~= seq!['│']);
                assert(line@ =~= row_line(self@, y as int));
            }
            lines.push(line);
            y += 1;
        }
        lines.push(border_line(self.width, "╰", "╯"));
        lines
    }
}

/// A queued cell: on the board, newly revealed, and without mines around it.
spec fn stack_entry(b0: Board, s: Board, e: (usize, usize)) -> bool {
    &&& b0.in_bounds(e.0 as int, e.1 as int)
    &&& s.cell(e.0 as int, e.1 as int).revealed
    &&& !b0.cell(e.0 as int, e.1 as int).revealed
    &&& b0.cell(e.0 as int, e.1 as int).is_zero()
}

/// Every newly revealed cell belongs to the cascade from `(tx, ty)`.
#[verifier::opaque]
spec fn sound_part(b0: Board, s: Board, tx: int, ty: int) -> bool {
    forall|u: int, v: int|
        b0.in_bounds(u, v) && (#[trigger] s.cell(u, v)).revealed && !b0.cell(u, v).revealed
            ==> b0.cascade(tx, ty, u, v)
}

/// Every queued cell is newly revealed and has no mine around it.
#[verifier::opaque]
spec fn stack_part(b0: Board, s: Board, stack: Seq<(usize, usize)>) -> bool {
    forall|k: int| 0 <= k < stack.len() ==> stack_entry(b0, s, #[trigger] stack[k])
}

/// Every newly revealed cell without mines around it, but `(px, py)`, is queued or settled.
#[verifier::opaque]
spec fn pending_part(b0: Board, s: Board, stack: Seq<(usize, usize)>, px: int, py: int) -> bool {
    forall|u: int, v: int|
        b0.in_bounds(u, v) && (#[trigger] s.cell(u, v)).revealed && !b0.cell(u, v).revealed
            && b0.cell(u, v).is_zero() && !(u == px && v == py) ==> stack.contains(
            (u as usize, v as usize),
        ) || s.settled(b0, u, v)
}

/// What holds of a reveal of `(tx, ty)` on `b0` while its queue is `stack` and
/// the neighbours of `(px, py)` are being opened.
#[verifier::opaque]
spec fn flood_inv(
    b0: Board,
    s: Board,
    tx: int,
    ty: int,
    stack: Seq<(usize, usize)>,
    px: int,
    py: int,
) -> bool {
    &&& b0.wf()
    &&& b0.cells.len() == b0.size()
    &&& b0.eligible(tx, ty)
    &&& b0.opened_into(s)
    &&& s.cell(tx, ty).revealed
    &&& sound_part(b0, s, tx, ty)
    &&& stack_part(b0, s, stack)
    &&& pending_part(b0, s, stack, px, py)
}

/// The facts about one opening step that the parts of the invariant need.
spec fn open_step(b0: Board, before: Board, after: Board, px: int, py: int, nx: int, ny: int) -> bool {
    &&& b0.wf()
    &&& b0.cells.len() == b0.size()
    &&& b0.opened_into(before)
    &&& b0.in_bounds(nx, ny)
    &&& touching(px, py, nx, ny)
    &&& b0.in_bounds(px, py)
    &&& before.cell(px, py).revealed
    &&& !b0.cell(px, py).revealed
    &&& b0.cell(px, py).is_zero()
    &&& !before.cell(nx, ny).revealed
    &&& !before.cell(nx, ny).flagged
    &&& after == before.with_cell(nx, ny, Cell { revealed: true, ..before.cell(nx, ny) })
}

proof fn lemma_open_frame(b0: Board, before: Board, after: Board, px: int, py: int, nx: int, ny: int)
    requires
        open_step(b0, before, after, px, py, nx, ny),
    ensures
        b0.opened_into(after),
        before.reveals_within(after),
{
    lemma_index_in_range(b0.width as int, b0.height as int, nx, ny);
    assert forall|i: int| 0 <= i < b0.cells.len() implies {
        &&& (#[trigger] after.cells[i]).cell_type == b0.cells[i].cell_type
        &&& after.cells[i].adjacent_mines == b0.cells[i].adjacent_mines
        &&& after.cells[i].flagged == b0.cells[i].flagged
        &&& b0.cells[i].revealed ==> after.cells[i].revealed
        &&& !after.cells[i].revealed || !after.cells[i].flagged
    } by {
        assert(before.cells[i].cell_type == b0.cells[i].cell_type);
    }
}

proof fn lemma_open_sound(b0: Board, before: Board, after: Board, tx: int, ty: int, px: int, py: int, nx: int, ny: int)
    requires
        open_step(b0, before, after, px, py, nx, ny),
        sound_part(b0, before, tx, ty),
    ensures
        sound_part(b0, after, tx, ty),
{
    reveal(sound_part);
    lemma_index_in_range(b0.width as int, b0.height as int, px, py);
    lemma_index_in_range(b0.width as int, b0.height as int, nx, ny);
    assert(b0.cascade(tx, ty, px, py));
    let m = choose|m: nat| #[trigger] b0.reached(tx, ty, px, py, m);
    assert(b0.eligible(nx, ny));
    lemma_child(b0, tx, ty, px, py, nx, ny, m);
    assert forall|u: int, v: int|
        b0.in_bounds(u, v) && (#[trigger] after.cell(u, v)).revealed && !b0.cell(u, v).revealed
            implies b0.cascade(tx, ty, u, v) by {
        lemma_index_unique(b0.width as int, u, v, nx, ny);
        lemma_index_in_range(b0.width as int, b0.height as int, u, v);
        if u != nx || v != ny {
            assert(after.cell(u, v) == before.cell(u, v));
        } else {
            assert(b0.reached(tx, ty, u, v, m + 1));
        }
    }
}

proof fn lemma_open_stack(
    b0: Board,
    before: Board,
    after: Board,
    before_stack: Seq<(usize, usize)>,
    stack: Seq<(usize, usize)>,
    px: int,
    py: int,
    nx: int,
    ny: int,
)
    requires
        b0.cells.len() == b0.size(),
        before.width == b0.width,
        before.height == b0.height,
        before.cells.len() == b0.cells.len(),
        b0.in_bounds(nx, ny),
        nx <= usize::MAX,
        ny <= usize::MAX,
        !b0.cell(nx, ny).revealed,
        after == before.with_cell(nx, ny, Cell { revealed: true, ..before.cell(nx, ny) }),
        stack_part(b0, before, before_stack),
        stack == if b0.cell(nx, ny).is_zero() {
            before_stack.push((nx as usize, ny as usize))
        } else {
            before_stack
        },
    ensures
        stack_part(b0, after, stack),
{
    reveal(stack_part);
    lemma_index_in_range(b0.width as int, b0.height as int, nx, ny);
    assert forall|k: int| 0 <= k < stack.len() implies stack_entry(b0, after, #[trigger] stack[k]) by {
        if k < before_stack.len() {
            assert(stack[k] == before_stack[k]);
            assert(stack_entry(b0, before, before_stack[k]));
            let (u, v) = stack[k];
            lemma_index_in_range(b0.width as int, b0.height as int, u as int, v as int);
        } else {
            assert(stack[k] == (nx as usize, ny as usize));
            assert(after.cell(nx, ny).revealed);
        }
    }
}

proof fn lemma_open_pending(
    b0: Board,
    before: Board,
    after: Board,
    before_stack: Seq<(usize, usize)>,
    stack: Seq<(usize, usize)>,
    px: int,
    py: int,
    nx: int,
    ny: int,
)
    requires
        open_step(b0, before, after, px, py, nx, ny),
        pending_part(b0, before, before_stack, px, py),
        before.reveals_within(after),
        stack == if b0.cell(nx, ny).is_zero() {
            before_stack.push((nx as usize, ny as usize))
        } else {
            before_stack
        },
    ensures
        pending_part(b0, after, stack, px, py),
{
    reveal(pending_part);
    lemma_index_in_range(b0.width as int, b0.height as int, nx, ny);
    assert forall|u: int, v: int|
        b0.in_bounds(u, v) && (#[trigger] after.cell(u, v)).revealed && !b0.cell(u, v).revealed
            && b0.cell(u, v).is_zero() && !(u == px && v == py) implies stack.contains(
        (u as usize, v as usize),
    ) || after.settled(b0, u, v) by {
        lemma_index_unique(b0.width as int, u, v, nx, ny);
        lemma_index_in_range(b0.width as int, b0.height as int, u, v);
        if u != nx || v != ny {
            assert(after.cell(u, v) == before.cell(u, v));
            if before_stack.contains((u as usize, v as usize)) {
                let k = choose|k: int|
                    0 <= k < before_stack.len() && before_stack[k] == (u as usize, v as usize);
                assert(stack[k] == before_stack[k]);
            } else {
                lemma_settled_grows(b0, before, after, u, v);
            }
        } else {
            assert(stack[stack.len() - 1] == (nx as usize, ny as usize));
        }
    }
}

/// Opening one eligible neighbour `(nx, ny)` of `(px, py)`, and queueing it when it
/// has no mine around it, keeps the reveal's invariant.
proof fn lemma_open_step(
    b0: Board,
    before: Board,
    after: Board,
    tx: int,
    ty: int,
    before_stack: Seq<(usize, usize)>,
    stack: Seq<(usize, usize)>,
    px: int,
    py: int,
    nx: int,
    ny: int,
)
    requires
        flood_inv(b0, before, tx, ty, before_stack, px, py),
        b0.in_bounds(nx, ny),
        nx <= usize::MAX,
        ny <= usize::MAX,
        touching(px, py, nx, ny),
        b0.in_bounds(px, py),
        before.cell(px, py).revealed,
        !b0.cell(px, py).revealed,
        b0.cell(px, py).is_zero(),
        !before.cell(nx, ny).revealed,
        !before.cell(nx, ny).flagged,
        after == before.with_cell(nx, ny, Cell { revealed: true, ..before.cell(nx, ny) }),
        stack == if b0.cell(nx, ny).is_zero() {
            before_stack.push((nx as usize, ny as usize))
        } else {
            before_stack
        },
    ensures
        flood_inv(b0, after, tx, ty, stack, px, py),
        before.reveals_within(after),
{
    reveal(flood_inv);
    assert(open_step(b0, before, after, px, py, nx, ny));
    lemma_open_frame(b0, before, after, px, py, nx, ny);
    lemma_index_in_range(b0.width as int, b0.height as int, nx, ny);
    assert(!b0.cell(nx, ny).revealed);
    lemma_open_sound(b0, before, after, tx, ty, px, py, nx, ny);
    lemma_open_stack(b0, before, after, before_stack, stack, px, py, nx, ny);
    lemma_open_pending(b0, before, after, before_stack, stack, px, py, nx, ny);
    lemma_index_in_range(b0.width as int, b0.height as int, tx, ty);
    lemma_index_in_range(b0.width as int, b0.height as int, nx, ny);
}

/// With the queue empty, exactly the cascade has been revealed.
proof fn lemma_flood_done(b0: Board, s: Board, tx: int, ty: int)
    requires
        flood_inv(b0, s, tx, ty, Seq::empty(), -1, -1),
    ensures
        b0.revealed_into(tx, ty, s),
{
    reveal(flood_inv);
    reveal(sound_part);
    reveal(stack_part);
    reveal(pending_part);
    assert forall|u: int, v: int| b0.in_bounds(u, v) implies {
        &&& (#[trigger] s.cell(u, v)).cell_type == b0.cell(u, v).cell_type
        &&& s.cell(u, v).adjacent_mines == b0.cell(u, v).adjacent_mines
        &&& s.cell(u, v).flagged == b0.cell(u, v).flagged
        &&& s.cell(u, v).revealed == (b0.cell(u, v).revealed || b0.cascade(tx, ty, u, v))
    } by {
        lemma_index_in_range(b0.width as int, b0.height as int, u, v);
        if b0.cascade(tx, ty, u, v) {
            let n = choose|n: nat| #[trigger] b0.reached(tx, ty, u, v, n);
            lemma_cascade_complete(b0, s, tx, ty, u, v, n);
        }
    }
}

} // verus!
