use vstd::prelude::*;

use crate::cell::{Cell, CellType};
use crate::count::count_true;

verus! {

/// Radius around the first click inside which no mine is ever placed.
pub const FIRST_CLICK_PROTECTION: usize = 1;

/// The mathematical state of a grid: cells are stored row by row.
pub struct Board {
    pub width: nat,
    pub height: nat,
    pub cells: Seq<Cell>,
    pub mine_count: nat,
    pub selected: (nat, nat),
    pub generated: bool,
}

/// What a reveal leaves the game in.
#[derive(Clone, Copy, Debug, PartialEq, Eq, Structural)]
pub enum RevealOutcome {
    /// The game goes on.
    Continue,
    /// The revealed cell holds a mine.
    HitMine,
    /// Every cell without a mine is revealed.
    Cleared,
}

pub open spec fn abs_diff(a: int, b: int) -> int {
    if a >= b { a - b } else { b - a }
}

/// Chebyshev distance between two positions.
pub open spec fn chebyshev(x1: int, y1: int, x2: int, y2: int) -> int {
    if abs_diff(x1, x2) >= abs_diff(y1, y2) { abs_diff(x1, x2) } else { abs_diff(y1, y2) }
}

/// Two positions that touch, a position touching itself included.
pub open spec fn touching(x1: int, y1: int, x2: int, y2: int) -> bool {
    chebyshev(x1, y1, x2, y2) <= 1
}

/// The number of mines for `pct` percent of a `width` by `height` board.
pub open spec fn mines_for(width: nat, height: nat, pct: nat) -> nat {
    (pct * width * height / 100) as nat
}

/// Whether the cell at row-major index `i` lies in the safe zone around `(sx, sy)`.
pub open spec fn protected(width: nat, sx: int, sy: int, i: int) -> bool {
    chebyshev(i % (width as int), i / (width as int), sx, sy) <= FIRST_CLICK_PROTECTION as int
}

/// How many of the first `k` row-major positions lie outside the safe zone.
pub open spec fn free_before(width: nat, sx: int, sy: int, k: int) -> nat
    decreases k,
{
    if k <= 0 {
        0
    } else {
        free_before(width, sx, sy, k - 1) + if protected(width, sx, sy, k - 1) {
            0nat
        } else {
            1nat
        }
    }
}

/// Draws for a shuffle of `n` cells: one per index, none past its own index.
pub open spec fn valid_draws(draws: Seq<usize>, n: int) -> bool {
    draws.len() == n && forall|i: int| 0 <= i < n ==> #[trigger] draws[i] <= i
}

/// One step of the shuffle: the cells at `i` and `j` trade places, unless the two
/// are the same cell or either lies in the safe zone around `(sx, sy)`.
pub open spec fn shuffle_step(
    cells: Seq<Cell>,
    width: nat,
    sx: int,
    sy: int,
    i: int,
    j: int,
) -> Seq<Cell> {
    if i != j && !protected(width, sx, sy, i) && !protected(width, sx, sy, j) {
        cells.update(i, cells[j]).update(j, cells[i])
    } else {
        cells
    }
}

/// The cells after the shuffle steps for the indices from 1 up to `k - 1`, the
/// step for index `i` trading with index `draws[i]`.
pub open spec fn shuffled_upto(
    cells: Seq<Cell>,
    width: nat,
    sx: int,
    sy: int,
    draws: Seq<usize>,
    k: int,
) -> Seq<Cell>
    decreases k,
{
    if k <= 1 {
        cells
    } else {
        shuffle_step(
            shuffled_upto(cells, width, sx, sy, draws, k - 1),
            width,
            sx,
            sy,
            k - 1,
            draws[k - 1] as int,
        )
    }
}

/// The cells after a whole shuffle with the given draws.
pub open spec fn shuffled(cells: Seq<Cell>, width: nat, sx: int, sy: int, draws: Seq<usize>) -> Seq<
    Cell,
> {
    shuffled_upto(cells, width, sx, sy, draws, cells.len() as int)
}

pub open spec fn min_nat(a: nat, b: nat) -> nat {
    if a <= b { a } else { b }
}

/// Row-major positions of two cells on the board coincide exactly when the cells do.
pub proof fn lemma_index_unique(w: int, x1: int, y1: int, x2: int, y2: int)
    requires
        0 <= x1 < w,
        0 <= x2 < w,
        0 <= y1,
        0 <= y2,
    ensures
        (y1 * w + x1 == y2 * w + x2) == (x1 == x2 && y1 == y2),
{
    if y1 * w + x1 == y2 * w + x2 {
        vstd::arithmetic::div_mod::lemma_fundamental_div_mod_converse(y1 * w + x1, w, y1, x1);
        vstd::arithmetic::div_mod::lemma_fundamental_div_mod_converse(y2 * w + x2, w, y2, x2);
    }
}

/// A position on the board has a row-major index inside the board.
pub proof fn lemma_index_in_range(w: int, h: int, x: int, y: int)
    requires
        0 <= x < w,
        0 <= y < h,
    ensures
        0 <= y * w + x < w * h,
{
    assert(0 <= y * w + x < w * h) by (nonlinear_arith)
        requires
            0 <= x < w,
            0 <= y < h,
    ;
}

/// A neighbour count sees only which cells are mines.
pub proof fn lemma_mine_at_frame(b0: Board, b1: Board, x: int, y: int)
    requires
        b0.cells.len() == b0.size(),
        b1.width == b0.width,
        b1.height == b0.height,
        b1.cells.len() == b0.cells.len(),
        forall|i: int|
            0 <= i < b0.cells.len() ==> (#[trigger] b1.cells[i]).cell_type
                == b0.cells[i].cell_type,
    ensures
        b1.mine_at(x, y) == b0.mine_at(x, y),
{
    if b0.in_bounds(x, y) {
        lemma_index_in_range(b0.width as int, b0.height as int, x, y);
        assert(b1.cells[b1.index(x, y)].cell_type == b0.cells[b0.index(x, y)].cell_type);
    }
}

/// Neighbour counts see only which cells are mines.
pub proof fn lemma_neighbors_frame(b0: Board, b1: Board, x: int, y: int)
    requires
        b0.cells.len() == b0.size(),
        b1.width == b0.width,
        b1.height == b0.height,
        b1.cells.len() == b0.cells.len(),
        forall|i: int|
            0 <= i < b0.cells.len() ==> (#[trigger] b1.cells[i]).cell_type
                == b0.cells[i].cell_type,
    ensures
        b1.neighbor_mines(x, y) == b0.neighbor_mines(x, y),
{
    lemma_mine_at_frame(b0, b1, x - 1, y - 1);
    lemma_mine_at_frame(b0, b1, x, y - 1);
    lemma_mine_at_frame(b0, b1, x + 1, y - 1);
    lemma_mine_at_frame(b0, b1, x - 1, y);
    lemma_mine_at_frame(b0, b1, x + 1, y);
    lemma_mine_at_frame(b0, b1, x - 1, y + 1);
    lemma_mine_at_frame(b0, b1, x, y + 1);
    lemma_mine_at_frame(b0, b1, x + 1, y + 1);
}

/// Changing only what the player sees of cells keeps a board well formed.
pub proof fn lemma_wf_frame(b0: Board, b1: Board)
    requires
        b0.wf(),
        b1.width == b0.width,
        b1.height == b0.height,
        b1.generated == b0.generated,
        b1.cells.len() == b0.cells.len(),
        b1.selected.0 < b1.width,
        b1.selected.1 < b1.height,
        forall|i: int|
            0 <= i < b0.cells.len() ==> (#[trigger] b1.cells[i]).cell_type
                == b0.cells[i].cell_type && b1.cells[i].adjacent_mines
                == b0.cells[i].adjacent_mines && (!b1.cells[i].revealed || !b1.cells[i].flagged),
    ensures
        b1.wf(),
{
    assert forall|x: int, y: int| b1.in_bounds(x, y) implies (#[trigger] b1.cell(
        x,
        y,
    )).adjacent_mines == b1.neighbor_mines(x, y) by {
        lemma_index_in_range(b0.width as int, b0.height as int, x, y);
        assert(b0.cell(x, y).adjacent_mines == b0.neighbor_mines(x, y));
        lemma_neighbors_frame(b0, b1, x, y);
    }
}

/// Settled cells stay settled as more cells are revealed.
pub proof fn lemma_settled_grows(b0: Board, s1: Board, s2: Board, u: int, v: int)
    requires
        s1.settled(b0, u, v),
        s1.reveals_within(s2),
        s1.width == b0.width,
        s2.width == b0.width,
        s1.height == b0.height,
        s1.cells.len() == b0.size(),
    ensures
        s2.settled(b0, u, v),
{
    assert forall|a: int, b: int| touching(u, v, a, b) && b0.eligible(a, b) implies (
    #[trigger] s2.cell(a, b)).revealed by {
        lemma_index_in_range(b0.width as int, b0.height as int, a, b);
        assert(s1.cell(a, b).revealed);
    }
}

/// A cell opened at step `n` but not before has a neighbour that spreads at step `n - 1`.
pub proof fn lemma_parent(b0: Board, tx: int, ty: int, x: int, y: int, n: nat) -> (p: (int, int))
    requires
        n > 0,
        b0.reached(tx, ty, x, y, n),
        !b0.reached(tx, ty, x, y, (n - 1) as nat),
    ensures
        touching(p.0, p.1, x, y),
        b0.spreads(tx, ty, p.0, p.1, (n - 1) as nat),
        b0.eligible(x, y),
{
    let m = (n - 1) as nat;
    if b0.spreads(tx, ty, x - 1, y - 1, m) {
        (x - 1, y - 1)
    } else if b0.spreads(tx, ty, x, y - 1, m) {
        (x, y - 1)
    } else if b0.spreads(tx, ty, x + 1, y - 1, m) {
        (x + 1, y - 1)
    } else if b0.spreads(tx, ty, x - 1, y, m) {
        (x - 1, y)
    } else if b0.spreads(tx, ty, x + 1, y, m) {
        (x + 1, y)
    } else if b0.spreads(tx, ty, x - 1, y + 1, m) {
        (x - 1, y + 1)
    } else if b0.spreads(tx, ty, x, y + 1, m) {
        (x, y + 1)
    } else {
        (x + 1, y + 1)
    }
}

/// An eligible neighbour of a cell that spreads at step `m` is opened at step `m + 1`.
pub proof fn lemma_child(b0: Board, tx: int, ty: int, px: int, py: int, x: int, y: int, m: nat)
    requires
        touching(px, py, x, y),
        b0.spreads(tx, ty, px, py, m),
        b0.eligible(x, y),
    ensures
        b0.reached(tx, ty, x, y, m + 1),
{
    if px == x && py == y {
        assert(b0.reached(tx, ty, x, y, m));
    }
}

/// Every step of a cascade opens an eligible cell.
pub proof fn lemma_reached_eligible(b0: Board, tx: int, ty: int, x: int, y: int, n: nat)
    requires
        b0.reached(tx, ty, x, y, n),
    ensures
        b0.eligible(x, y),
        b0.eligible(tx, ty),
    decreases n,
{
    if n > 0 {
        if b0.reached(tx, ty, x, y, (n - 1) as nat) {
            lemma_reached_eligible(b0, tx, ty, x, y, (n - 1) as nat);
        } else {
            let m = (n - 1) as nat;
            let (px, py) = lemma_parent(b0, tx, ty, x, y, n);
            lemma_reached_eligible(b0, tx, ty, px, py, (n - 1) as nat);
        }
    }
}

/// Once the start is revealed and every newly revealed cell without mines around it
/// is settled, the whole cascade is revealed.
pub proof fn lemma_cascade_complete(b0: Board, s: Board, tx: int, ty: int, x: int, y: int, n: nat)
    requires
        b0.wf(),
        b0.opened_into(s),
        s.cell(tx, ty).revealed,
        forall|u: int, v: int|
            b0.in_bounds(u, v) && (#[trigger] s.cell(u, v)).revealed && !b0.cell(u, v).revealed
                && b0.cell(u, v).is_zero() ==> s.settled(b0, u, v),
        b0.reached(tx, ty, x, y, n),
    ensures
        s.cell(x, y).revealed,
    decreases n,
{
    if n > 0 {
        if b0.reached(tx, ty, x, y, (n - 1) as nat) {
            lemma_cascade_complete(b0, s, tx, ty, x, y, (n - 1) as nat);
        } else {
            let (px, py) = lemma_parent(b0, tx, ty, x, y, n);
            lemma_cascade_complete(b0, s, tx, ty, px, py, (n - 1) as nat);
            lemma_reached_eligible(b0, tx, ty, px, py, (n - 1) as nat);
            lemma_reached_eligible(b0, tx, ty, x, y, n);
            assert(s.settled(b0, px, py));
        }
    }
}

impl Board {
    pub open spec fn size(self) -> int {
        (self.width * self.height) as int
    }

    pub open spec fn in_bounds(self, x: int, y: int) -> bool {
        0 <= x < self.width && 0 <= y < self.height
    }

    pub open spec fn index(self, x: int, y: int) -> int {
        y * self.width + x
    }

    pub open spec fn cell(self, x: int, y: int) -> Cell {
        self.cells[self.index(x, y)]
    }

    pub open spec fn mine_at(self, x: int, y: int) -> nat {
        if self.in_bounds(x, y) && self.cell(x, y).is_mine() { 1 } else { 0 }
    }

    /// Mines among the up to eight neighbours of `(x, y)` that lie on the board.
    pub open spec fn neighbor_mines(self, x: int, y: int) -> nat {
        self.mine_at(x - 1, y - 1) + self.mine_at(x, y - 1) + self.mine_at(x + 1, y - 1)
            + self.mine_at(x - 1, y) + self.mine_at(x + 1, y) + self.mine_at(x - 1, y + 1)
            + self.mine_at(x, y + 1) + self.mine_at(x + 1, y + 1)
    }

    /// Which cells are mines, row by row.
    pub open spec fn mine_flags(self) -> Seq<bool> {
        self.cells.map_values(|c: Cell| c.is_mine())
    }

    /// Which cells are hidden, row by row.
    pub open spec fn hidden_flags(self) -> Seq<bool> {
        self.cells.map_values(|c: Cell| !c.revealed)
    }

    /// The number of mines on the board.
    pub open spec fn mine_total(self) -> nat {
        count_true(self.mine_flags(), self.cells.len() as int)
    }

    /// The number of hidden cells on the board.
    pub open spec fn hidden_total(self) -> nat {
        count_true(self.hidden_flags(), self.cells.len() as int)
    }

    /// The number of cells outside the safe zone around `(sx, sy)`.
    pub open spec fn free_cells(self, sx: int, sy: int) -> nat {
        free_before(self.width, sx, sy, self.size())
    }

    /// The same board with the cell at `(x, y)` replaced.
    pub open spec fn with_cell(self, x: int, y: int, c: Cell) -> Board {
        Board { cells: self.cells.update(self.index(x, y), c), ..self }
    }

    pub open spec fn wf(self) -> bool {
        &&& self.width > 0
        &&& self.height > 0
        &&& self.cells.len() == self.size()
        &&& self.selected.0 < self.width
        &&& self.selected.1 < self.height
        &&& forall|i: int| 0 <= i < self.cells.len() ==> !(#[trigger] self.cells[i]).revealed
            || !self.cells[i].flagged
        &&& !self.generated ==> forall|i: int|
            0 <= i < self.cells.len() ==> !(#[trigger] self.cells[i]).is_mine()
        &&& forall|x: int, y: int|
            self.in_bounds(x, y) ==> (#[trigger] self.cell(x, y)).adjacent_mines
                == self.neighbor_mines(x, y)
    }

    /// A cell that the player may open: on the board, hidden and not flagged.
    pub open spec fn eligible(self, x: int, y: int) -> bool {
        self.in_bounds(x, y) && !self.cell(x, y).revealed && !self.cell(x, y).flagged
    }

    /// Every cell without a mine is revealed.
    pub open spec fn cleared(self) -> bool {
        forall|i: int| 0 <= i < self.cells.len() ==> !(#[trigger] self.cells[i]).is_mine()
            ==> self.cells[i].revealed
    }

    pub open spec fn outcome(self, x: int, y: int) -> RevealOutcome {
        if self.cell(x, y).revealed && self.cell(x, y).is_mine() {
            RevealOutcome::HitMine
        } else if self.cleared() {
            RevealOutcome::Cleared
        } else {
            RevealOutcome::Continue
        }
    }

    /// `(px, py)` is opened within `n` steps of a cascade from `(tx, ty)` and,
    /// having no mine around it, opens its neighbours at the next step.
    pub open spec fn spreads(self, tx: int, ty: int, px: int, py: int, n: nat) -> bool
        decreases n, 1nat,
    {
        self.cell(px, py).is_zero() && self.reached(tx, ty, px, py, n)
    }

    /// `(x, y)` is opened within `n` steps of a cascade that starts at `(tx, ty)`:
    /// the start itself, or an eligible neighbour of a cell that spreads.
    pub open spec fn reached(self, tx: int, ty: int, x: int, y: int, n: nat) -> bool
        decreases n, 0nat,
    {
        if n == 0 {
            x == tx && y == ty && self.eligible(x, y)
        } else {
            let m = (n - 1) as nat;
            self.reached(tx, ty, x, y, m) || (self.eligible(x, y) && (self.spreads(
                tx,
                ty,
                x - 1,
                y - 1,
                m,
            ) || self.spreads(tx, ty, x, y - 1, m) || self.spreads(tx, ty, x + 1, y - 1, m)
                || self.spreads(tx, ty, x - 1, y, m) || self.spreads(tx, ty, x + 1, y, m)
                || self.spreads(tx, ty, x - 1, y + 1, m) || self.spreads(tx, ty, x, y + 1, m)
                || self.spreads(tx, ty, x + 1, y + 1, m)))
        }
    }

    /// `(x, y)` is opened by a reveal of `(tx, ty)` on this board.
    pub open spec fn cascade(self, tx: int, ty: int, x: int, y: int) -> bool {
        exists|n: nat| #[trigger] self.reached(tx, ty, x, y, n)
    }

    /// `after` is `self` once `(tx, ty)` has been revealed: exactly the cells of the
    /// cascade are newly revealed, and nothing else changes.
    pub open spec fn revealed_into(self, tx: int, ty: int, after: Board) -> bool {
        &&& after.width == self.width
        &&& after.height == self.height
        &&& after.mine_count == self.mine_count
        &&& after.selected == self.selected
        &&& after.generated == self.generated
        &&& after.cells.len() == self.cells.len()
        &&& forall|x: int, y: int|
            self.in_bounds(x, y) ==> {
                &&& (#[trigger] after.cell(x, y)).cell_type == self.cell(x, y).cell_type
                &&& after.cell(x, y).adjacent_mines == self.cell(x, y).adjacent_mines
                &&& after.cell(x, y).flagged == self.cell(x, y).flagged
                &&& after.cell(x, y).revealed == (self.cell(x, y).revealed || self.cascade(
                    tx,
                    ty,
                    x,
                    y,
                ))
            }
    }

    /// The cells once the first `mine_count` positions, in row-major order, that lie
    /// outside the safe zone around `(sx, sy)` hold a mine.
    pub open spec fn with_mines(self, sx: int, sy: int) -> Seq<Cell> {
        Seq::new(
            self.cells.len(),
            |i: int|
                Cell {
                    cell_type: if !protected(self.width, sx, sy, i) && free_before(
                        self.width,
                        sx,
                        sy,
                        i,
                    ) < self.mine_count {
                        CellType::Mine
                    } else {
                        CellType::Empty
                    },
                    ..self.cells[i]
                },
        )
    }

    /// `after` is `self` once mines have been placed with `(sx, sy)` as the first
    /// click and shuffled with the draws `d`.
    pub open spec fn generated_with(self, sx: int, sy: int, d: Seq<usize>, after: Board) -> bool {
        if self.generated {
            after == self
        } else {
            let s = shuffled(self.with_mines(sx, sy), self.width, sx, sy, d);
            &&& after.generated
            &&& after.width == self.width
            &&& after.height == self.height
            &&& after.mine_count == self.mine_count
            &&& after.selected == self.selected
            &&& after.cells.len() == self.cells.len()
            &&& forall|i: int|
                0 <= i < self.cells.len() ==> {
                    &&& (#[trigger] after.cells[i]).cell_type == s[i].cell_type
                    &&& after.cells[i].revealed == s[i].revealed
                    &&& after.cells[i].flagged == s[i].flagged
                }
            &&& forall|x: int, y: int|
                self.in_bounds(x, y) && touching(x, y, sx, sy) ==> !(#[trigger] after.cell(
                    x,
                    y,
                )).is_mine()
            &&& after.mine_total() == min_nat(self.mine_count, self.free_cells(sx, sy))
        }
    }

    /// `after` is `self` once mines have been placed with `(sx, sy)` as the first
    /// click and shuffled with some draws.
    pub open spec fn generated_into(self, sx: int, sy: int, after: Board) -> bool {
        exists|d: Seq<usize>|
            #[trigger] valid_draws(d, self.cells.len() as int) && self.generated_with(
                sx,
                sy,
                d,
                after,
            )
    }

    /// `after` differs from `self` only in hidden, unflagged cells that are now revealed.
    pub open spec fn opened_into(self, after: Board) -> bool {
        &&& after.width == self.width
        &&& after.height == self.height
        &&& after.mine_count == self.mine_count
        &&& after.selected == self.selected
        &&& after.generated == self.generated
        &&& after.cells.len() == self.cells.len()
        &&& forall|i: int|
            0 <= i < self.cells.len() ==> {
                &&& (#[trigger] after.cells[i]).cell_type == self.cells[i].cell_type
                &&& after.cells[i].adjacent_mines == self.cells[i].adjacent_mines
                &&& after.cells[i].flagged == self.cells[i].flagged
                &&& self.cells[i].revealed ==> after.cells[i].revealed
                &&& !after.cells[i].revealed || !after.cells[i].flagged
            }
    }

    /// Every cell revealed in `self` is revealed in `after`.
    pub open spec fn reveals_within(self, after: Board) -> bool {
        forall|i: int|
            0 <= i < self.cells.len() && (#[trigger] self.cells[i]).revealed ==> after.cells[i].revealed
    }

    /// Every neighbour of `(u, v)` that `before` lets the player open is revealed here.
    pub open spec fn settled(self, before: Board, u: int, v: int) -> bool {
        forall|a: int, b: int|
            touching(u, v, a, b) && before.eligible(a, b) ==> (#[trigger] self.cell(a, b)).revealed
    }

    /// `after` is `self` once the flag at `(x, y)` has been toggled.
    pub open spec fn toggled_into(self, x: int, y: int, after: Board) -> bool {
        let c = self.cell(x, y);
        if c.revealed {
            after == self
        } else {
            after == self.with_cell(
                x,
                y,
                Cell { flagged: !c.flagged, ..c },
            )
        }
    }
}

} // verus!
