//! What holds of the library as a whole, proved from the contracts of its
//! functions.

use crate::board::{
    blocked, first_conflict, in_grid, is_board, is_full, is_valid, lemma_first_conflict,
    peers, related, Board,
};
use crate::field::Field;
use crate::generator::{is_puzzle, is_settled};
use crate::solver::{is_search_result, is_solution_of, lemma_search_result};
use vstd::prelude::*;

verus! {

/// Conflicts point both ways. If a look around `(ax, ay)` for digit `d`
/// reports `(bx, by)`, then a look around `(bx, by)` for `d` reports a
/// position in the row, the column or the box of `(ax, ay)`, provided that
/// some peer of `(bx, by)` holds `d` at all, and that every such peer shares
/// a row, a column or a box with `(ax, ay)`.
pub proof fn conflict_symmetry(b: Board, ax: int, ay: int, bx: int, by: int, d: u8)
    requires
        is_board(b),
        in_grid(ax, ay),
        first_conflict(b, ax, ay, d) == Some((bx, by)),
        blocked(b, bx, by, d),
        forall|cx: int, cy: int| #[trigger]
            peers(bx, by, cx, cy) && b[cy][cx] == Some(d) ==> related(ax, ay, cx, cy),
    ensures
        first_conflict(b, bx, by, d) matches Some(c) && in_grid(c.0, c.1) && related(
            ax,
            ay,
            c.0,
            c.1,
        ),
{
    lemma_first_conflict(b, ax, ay, d);
    lemma_first_conflict(b, bx, by, d);
}

/// Where `(ax, ay)` holds digit `d` itself and a look around it reports
/// `(bx, by)`, a look around `(bx, by)` reports a conflict too; it names
/// `(ax, ay)` where no other peer of `(bx, by)` holds `d`.
pub proof fn conflict_is_mutual(b: Board, ax: int, ay: int, bx: int, by: int, d: u8)
    requires
        is_board(b),
        in_grid(ax, ay),
        b[ay][ax] == Some(d),
        first_conflict(b, ax, ay, d) == Some((bx, by)),
    ensures
        first_conflict(b, bx, by, d) is Some,
        (forall|cx: int, cy: int| #[trigger]
            peers(bx, by, cx, cy) && b[cy][cx] == Some(d) ==> cx == ax && cy == ay)
            ==> first_conflict(b, bx, by, d) == Some((ax, ay)),
{
    lemma_first_conflict(b, ax, ay, d);
    lemma_first_conflict(b, bx, by, d);
    assert(peers(bx, by, ax, ay) && b[ay][ax] == Some(d));
}

/// A puzzle has one solution: a search on it that is asked for two or more
/// returns exactly one.
pub proof fn puzzle_has_one_solution(puzzle: Field, stop_at: u32, sols: Seq<Field>)
    requires
        is_puzzle(puzzle),
        stop_at >= 2,
        is_search_result(puzzle, stop_at, sols),
    ensures
        sols.len() == 1,
{
    lemma_search_result(puzzle, stop_at, sols);
}

/// The givens of a puzzle stand: a fixed cell holds a digit, and every
/// solution of the puzzle holds the same digit there, fixed as well.
pub proof fn fixed_cells_keep_their_digit(puzzle: Field, solution: Field, x: int, y: int)
    requires
        is_puzzle(puzzle),
        is_solution_of(puzzle, solution),
        in_grid(x, y),
        puzzle.cell(x, y).fixed,
    ensures
        puzzle.cell(x, y).content is Digit,
        solution.cell(x, y) == puzzle.cell(x, y),
{
    puzzle.lemma_view();
    solution.lemma_view();
    assert(is_settled(puzzle, x, y));
    assert(puzzle@[y][x].is_some());
    assert(solution.cell(x, y).content is Digit);
    assert(solution.cell(x, y).fixed == puzzle.cell(x, y).fixed);
}

/// A grid without an empty cell that obeys the rules solves to itself: a
/// search on it that is asked for one solution or more returns the grid,
/// unchanged, and nothing else.
pub proof fn full_grid_solves_to_itself(grid: Field, stop_at: u32, sols: Seq<Field>)
    requires
        is_full(grid@),
        is_valid(grid@),
        stop_at >= 1,
        is_search_result(grid, stop_at, sols),
    ensures
        sols == seq![grid],
{
    lemma_search_result(grid, stop_at, sols);
}

/// A grid that breaks the rules has no solution: a search on it returns
/// nothing, whatever it is asked for.
pub proof fn broken_grid_has_no_solution(grid: Field, stop_at: u32, sols: Seq<Field>)
    requires
        !is_valid(grid@),
        is_search_result(grid, stop_at, sols),
    ensures
        sols.len() == 0,
{
    lemma_search_result(grid, stop_at, sols);
}

} // verus!
