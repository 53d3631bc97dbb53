use vstd::prelude::*;

use crate::board::{touching, Board};
use crate::cell::CellType;

verus! {

/// Once mines are placed, and provided the board has room for all of them outside
/// the safe zone, exactly `mine_count` cells hold a mine.
pub proof fn law_generate_places_every_mine(before: Board, after: Board, sx: int, sy: int)
    requires
        before.wf(),
        !before.generated,
        before.generated_into(sx, sy, after),
        before.mine_count <= before.free_cells(sx, sy),
    ensures
        after.mine_total() == after.mine_count,
{
}

/// Once mines are placed, no cell within one step of the first click holds a mine.
pub proof fn law_generate_keeps_first_click_safe(before: Board, after: Board, sx: int, sy: int)
    requires
        before.wf(),
        !before.generated,
        before.generated_into(sx, sy, after),
    ensures
        forall|x: int, y: int|
            after.in_bounds(x, y) && touching(x, y, sx, sy) ==> !(#[trigger] after.cell(
                x,
                y,
            )).is_mine(),
{
}

/// On a well-formed board every empty cell counts exactly the mines among its
/// neighbours on the board.
pub proof fn law_adjacent_counts(b: Board)
    requires
        b.wf(),
    ensures
        forall|x: int, y: int|
            b.in_bounds(x, y) && (#[trigger] b.cell(x, y)).cell_type == CellType::Empty
                ==> b.cell(x, y).adjacent_mines == b.neighbor_mines(x, y),
{
}

/// Revealing a flagged or already revealed cell changes nothing.
pub proof fn law_reveal_blocked_is_noop(before: Board, after: Board, x: int, y: int)
    requires
        before.wf(),
        before.in_bounds(x, y),
        before.cell(x, y).revealed || before.cell(x, y).flagged,
        before.revealed_into(x, y, after),
    ensures
        after == before,
{
    assert forall|u: int, v: int, n: nat| !before.reached(x, y, u, v, n) by {
        if before.reached(x, y, u, v, n) {
            crate::board::lemma_reached_eligible(before, x, y, u, v, n);
        }
    }
    assert forall|i: int| 0 <= i < before.cells.len() implies after.cells[i] == before.cells[i] by {
        let w = before.width as int;
        vstd::arithmetic::div_mod::lemma_fundamental_div_mod(i, w);
        let (u, v) = (i % w, i / w);
        assert(0 <= v < before.height) by (nonlinear_arith)
            requires
                0 <= i < w * before.height,
                w > 0,
                v == i / w,
        ;
        assert(i == before.index(u, v)) by (nonlinear_arith)
            requires
                i == w * (i / w) + i % w,
                u == i % w,
                v == i / w,
                before.index(u, v) == v * w + u,
        ;
        assert(after.cell(u, v) == before.cell(u, v));
    }
    assert(after.cells =~= before.cells);
}

/// A cell without mines around it opens, with the reveal, every eligible neighbour:
/// the region of such cells around the start opens together with its border.
pub proof fn law_reveal_cascades(before: Board, after: Board, x: int, y: int, a: int, b: int)
    requires
        before.wf(),
        before.revealed_into(x, y, after),
        before.in_bounds(a, b),
        before.cascade(x, y, a, b),
        before.cell(a, b).is_zero(),
    ensures
        after.cell(a, b).revealed,
        forall|c: int, d: int|
            touching(a, b, c, d) && before.eligible(c, d) ==> (#[trigger] after.cell(c, d)).revealed,
{
    let n = choose|n: nat| #[trigger] before.reached(x, y, a, b, n);
    assert forall|c: int, d: int|
        touching(a, b, c, d) && before.eligible(c, d) implies (#[trigger] after.cell(c, d)).revealed by {
        crate::board::lemma_child(before, x, y, a, b, c, d, n);
    }
}

/// Every cell that a reveal opens is the revealed cell itself or a neighbour of an
/// opened cell without mines around it: a reveal opens nothing beyond the region of
/// such cells and its border.
pub proof fn law_reveal_opens_only_region_and_border(
    before: Board,
    after: Board,
    x: int,
    y: int,
    a: int,
    b: int,
)
    requires
        before.wf(),
        before.revealed_into(x, y, after),
        before.in_bounds(a, b),
        after.cell(a, b).revealed,
        !before.cell(a, b).revealed,
    ensures
        (a == x && b == y) || exists|p: int, q: int|
            touching(p, q, a, b) && before.in_bounds(p, q) && before.cell(p, q).is_zero()
                && #[trigger] after.cell(p, q).revealed && !before.cell(p, q).revealed,
{
    let n = choose|n: nat| #[trigger] before.reached(x, y, a, b, n);
    lemma_first_step(before, after, x, y, a, b, n);
}

proof fn lemma_first_step(before: Board, after: Board, x: int, y: int, a: int, b: int, n: nat)
    requires
        before.wf(),
        before.revealed_into(x, y, after),
        before.reached(x, y, a, b, n),
    ensures
        (a == x && b == y) || exists|p: int, q: int|
            touching(p, q, a, b) && before.in_bounds(p, q) && before.cell(p, q).is_zero()
                && #[trigger] after.cell(p, q).revealed && !before.cell(p, q).revealed,
    decreases n,
{
    if n > 0 {
        if before.reached(x, y, a, b, (n - 1) as nat) {
            lemma_first_step(before, after, x, y, a, b, (n - 1) as nat);
        } else {
            let (p, q) = crate::board::lemma_parent(before, x, y, a, b, n);
            crate::board::lemma_reached_eligible(before, x, y, p, q, (n - 1) as nat);
            assert(before.cascade(x, y, p, q));
            assert(after.cell(p, q).revealed);
        }
    }
}

/// Toggling a flag twice gives back the board it started from.
pub proof fn law_toggle_twice(b0: Board, b1: Board, b2: Board, x: int, y: int)
    requires
        b0.wf(),
        b0.in_bounds(x, y),
        b0.toggled_into(x, y, b1),
        b1.toggled_into(x, y, b2),
    ensures
        b2 == b0,
{
    crate::board::lemma_index_in_range(b0.width as int, b0.height as int, x, y);
    if !b0.cell(x, y).revealed {
        assert(b2.cells =~= b0.cells);
    }
}

} // verus!
