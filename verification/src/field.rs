//! The grid and its cells, with the operations that read and edit them.

use crate::board::{
    blocked, cell_valid, first_conflict, first_conflict_from, in_grid, is_board, is_valid,
    lemma_first_conflict, peers, put, related, scan_cell, Board,
};
pub use crate::container::FieldContent;
use vstd::prelude::*;

verus! {

/// A position of the grid: column `x` and row `y`, both in `0..9`.
#[derive(Copy, Clone, Debug, PartialEq, Eq, Structural)]
pub struct Coords {
    pub x: u8,
    pub y: u8,
}

/// One cell: what it holds, and whether it is a given of the puzzle.
#[derive(Copy, Clone)]
pub struct Cell {
    pub content: FieldContent,
    pub fixed: bool,
}

/// The 9×9 grid; `cells[y][x]` is the cell in column `x` of row `y`.
#[derive(Copy, Clone)]
pub struct Field {
    pub cells: [[Cell; 9]; 9],
}

impl View for Field {
    type V = Board;

    /// The digits of the grid. Flags and candidates are no part of the view:
    /// contracts speak of them through `cell`.
    open spec fn view(&self) -> Board {
        Seq::new(9, |y: int| Seq::new(9, |x: int| self.cell(x, y).content.digit()))
    }
}

/// Whether `after` is `before` with digit `value` struck from its candidates:
/// a cell that holds candidates loses that one, any other cell is unchanged.
pub open spec fn struck(before: Cell, after: Cell, value: u8) -> bool {
    &&& after.fixed == before.fixed
    &&& match before.content {
        FieldContent::Hints(h) => after.content matches FieldContent::Hints(h2) && h2@
            == h@.update(value - 1, false),
        _ => after.content == before.content,
    }
}

/// Whether `after` is `before` with digit `value` offered again: a cell that
/// holds candidates gains that one if `free` says so, any other cell is
/// unchanged.
pub open spec fn restored(before: Cell, after: Cell, value: u8, free: bool) -> bool {
    &&& after.fixed == before.fixed
    &&& match before.content {
        FieldContent::Hints(h) => if free {
            after.content matches FieldContent::Hints(h2) && h2@ == h@.update(value - 1, true)
        } else {
            after.content == before.content
        },
        _ => after.content == before.content,
    }
}

/// Whether `after` is `before` with digit `value` placed at `(x, y)`: that
/// cell holds the digit, every other cell in its row, column or box has lost
/// it as a candidate, and the rest is unchanged. No cell changes its flag.
pub open spec fn is_placed(before: Field, after: Field, x: int, y: int, value: u8) -> bool {
    &&& after.cell(x, y) == (Cell {
        content: FieldContent::Digit(value),
        fixed: before.cell(x, y).fixed,
    })
    &&& forall|cx: int, cy: int|
        in_grid(cx, cy) && !(cx == x && cy == y) ==> if related(x, y, cx, cy) {
            struck(before.cell(cx, cy), #[trigger] after.cell(cx, cy), value)
        } else {
            after.cell(cx, cy) == before.cell(cx, cy)
        }
}

/// Whether `after` is `before` with digit `value` erased at `(x, y)`: that
/// cell holds its candidates, computed afresh; every other cell in its row,
/// column or box that holds candidates and has no peer left with `value`
/// gains `value` as a candidate; the rest is unchanged. No cell changes its
/// flag.
pub open spec fn is_erased(before: Field, after: Field, x: int, y: int, value: u8) -> bool {
    &&& after@ == put(before@, x, y, None)
    &&& after.cell(x, y).fixed == before.cell(x, y).fixed
    &&& after.cell(x, y).content matches FieldContent::Hints(h) && forall|d: u8|
        1 <= d <= 9 ==> (#[trigger] h[d - 1] <==> !blocked(after@, x, y, d))
    &&& forall|cx: int, cy: int|
        in_grid(cx, cy) && !(cx == x && cy == y) ==> if related(x, y, cx, cy) {
            restored(
                before.cell(cx, cy),
                #[trigger] after.cell(cx, cy),
                value,
                !blocked(after@, cx, cy, value),
            )
        } else {
            after.cell(cx, cy) == before.cell(cx, cy)
        }
}

/// Whether `cell` is a cell of a fresh grid: not fixed, every digit a candidate.
pub open spec fn is_open(cell: Cell) -> bool {
    &&& !cell.fixed
    &&& cell.content matches FieldContent::Hints(h) && forall|i: int| 0 <= i < 9 ==> h[i]
}

/// Whether step `i` of a strike around `(x, y)` has passed `(cx, cy)`: step
/// `k` visits column `k` of the row, row `k` of the column and position `k`
/// of the box, counted row by row.
pub open spec fn passed(x: int, y: int, cx: int, cy: int, i: int) -> bool {
    ||| (cy == y && cx < i)
    ||| (cx == x && cy < i)
    ||| (cx / 3 == x / 3 && cy / 3 == y / 3 && (cy - y / 3 * 3) * 3 + (cx - x / 3 * 3) < i)
}

impl Field {
    /// The cell in column `x` of row `y`.
    pub open spec fn cell(self, x: int, y: int) -> Cell {
        self.cells[y][x]
    }

    /// Two grids with the same cells are the same grid.
    pub proof fn lemma_same_cells(self, other: Field)
        requires
            forall|x: int, y: int| in_grid(x, y) ==> #[trigger] self.cell(x, y) == other.cell(x, y),
        ensures
            self == other,
    {
        assert forall|y: int| 0 <= y < 9 implies #[trigger] self.cells[y] == other.cells[y] by {
            assert forall|x: int| 0 <= x < 9 implies #[trigger] self.cells[y][x]
                == other.cells[y][x] by {
                assert(self.cell(x, y) == other.cell(x, y));
            }
            assert(self.cells[y] =~= other.cells[y]);
        }
        assert(self.cells =~= other.cells);
    }

    /// The view of a grid is a board, and holds the digits of its cells.
    pub proof fn lemma_view(self)
        ensures
            is_board(self@),
            forall|x: int, y: int|
                in_grid(x, y) ==> #[trigger] self@[y][x] == self.cell(x, y).content.digit(),
    {
    }

    /// The cell in column `x` of row `y`.
    pub fn get_cell(&self, x: u8, y: u8) -> (cell: &Cell)
        requires
            x < 9,
            y < 9,
        ensures
            *cell == self.cell(x as int, y as int),
    {
        &self.cells[y as usize][x as usize]
    }

    /// The cell in column `x` of row `y`, to be changed in place; no other
    /// cell changes with it.
    pub fn get_cell_mut(&mut self, x: u8, y: u8) -> (cell: &mut Cell)
        requires
            x < 9,
            y < 9,
        ensures
            *cell == old(self).cell(x as int, y as int),
            final(self).cell(x as int, y as int) == *final(cell),
            forall|cx: int, cy: int|
                in_grid(cx, cy) && !(cx == x && cy == y) ==> #[trigger] final(self).cell(cx, cy)
                    == old(self).cell(cx, cy),
    {
        &mut self.cells[y as usize][x as usize]
    }

    /// Replaces what the cell at `(x, y)` holds, and nothing else.
    pub fn set_content(&mut self, x: u8, y: u8, value: FieldContent)
        requires
            x < 9,
            y < 9,
        ensures
            final(self).cell(x as int, y as int) == (Cell {
                content: value,
                fixed: old(self).cell(x as int, y as int).fixed,
            }),
            forall|cx: int, cy: int|
                in_grid(cx, cy) && !(cx == x && cy == y) ==> #[trigger] final(self).cell(cx, cy)
                    == old(self).cell(cx, cy),
    {
        self.cells[y as usize][x as usize].content = value
    }
    /// Strikes digit `value` from the candidates of the cell at `(x, y)`, if
    /// it holds candidates.
    fn strike(&mut self, x: u8, y: u8, value: u8)
        requires
            x < 9,
            y < 9,
            1 <= value <= 9,
        ensures
            struck(old(self).cell(x as int, y as int), final(self).cell(x as int, y as int), value),
            forall|cx: int, cy: int|
                in_grid(cx, cy) && !(cx == x && cy == y) ==> #[trigger] final(self).cell(cx, cy)
                    == old(self).cell(cx, cy),
    {
        if let FieldContent::Hints(mut hints) = self.cells[y as usize][x as usize].content {
            hints[(value - 1) as usize] = false;
            self.cells[y as usize][x as usize].content = FieldContent::Hints(hints);
        }
    }

    /// Writes digit `value` at `(x, y)` and strikes it from the candidates of
    /// every cell in the same row, column or box.
    pub fn set_value(&mut self, x: u8, y: u8, value: u8)
        requires
            x < 9,
            y < 9,
            1 <= value <= 9,
        ensures
            is_placed(*old(self), *final(self), x as int, y as int, value),
            final(self)@ == put(old(self)@, x as int, y as int, Some(value)),
    {
        for i in 0..9u8
            invariant
                x < 9,
                y < 9,
                1 <= value <= 9,
                forall|cx: int, cy: int|
                    in_grid(cx, cy) ==> if passed(x as int, y as int, cx, cy, i as int) {
                        struck(old(self).cell(cx, cy), #[trigger] self.cell(cx, cy), value)
                    } else {
                        self.cell(cx, cy) == old(self).cell(cx, cy)
                    },
        {
            let ghost s0 = *self;
            self.strike(i, y, value);
            let ghost s1 = *self;
            self.strike(x, i, value);
            let ghost s2 = *self;
            self.strike((x / 3) * 3 + i % 3, (y / 3) * 3 + (i / 3), value);
            proof {
                assert forall|cx: int, cy: int| in_grid(cx, cy) implies if passed(
                    x as int,
                    y as int,
                    cx,
                    cy,
                    i + 1,
                ) {
                    struck(old(self).cell(cx, cy), #[trigger] self.cell(cx, cy), value)
                } else {
                    self.cell(cx, cy) == old(self).cell(cx, cy)
                } by {
                    let a = old(self).cell(cx, cy);
                    lemma_struck_chain(a, s0.cell(cx, cy), s1.cell(cx, cy), value);
                    lemma_struck_chain(a, s1.cell(cx, cy), s2.cell(cx, cy), value);
                    lemma_struck_chain(a, s2.cell(cx, cy), self.cell(cx, cy), value);
                }
            }
        }
        self.set_content(x, y, FieldContent::Digit(value));
        assert(final(self)@ =~~= put(old(self)@, x as int, y as int, Some(value)));
    }

    /// Recomputes the candidates of the cell at `(x, y)` from the digits
    /// around it, overwriting what the cell held.
    pub fn set_hints(&mut self, x: u8, y: u8)
        requires
            x < 9,
            y < 9,
        ensures
            final(self).cell(x as int, y as int).fixed == old(self).cell(x as int, y as int).fixed,
            final(self).cell(x as int, y as int).content matches FieldContent::Hints(h)
                && forall|d: u8|
                1 <= d <= 9 ==> (#[trigger] h[d - 1] <==> first_conflict(
                    final(self)@,
                    x as int,
                    y as int,
                    d,
                ) is None),
            forall|d: u8|
                first_conflict(final(self)@, x as int, y as int, d) == first_conflict(
                    old(self)@,
                    x as int,
                    y as int,
                    d,
                ),
            forall|cx: int, cy: int|
                in_grid(cx, cy) && !(cx == x && cy == y) ==> #[trigger] final(self).cell(cx, cy)
                    == old(self).cell(cx, cy),
            final(self)@ == put(old(self)@, x as int, y as int, None),
    {
        let c = Coords { x: x, y: y };
        let mut hints = [true;9];
        for i in 0..9u8
            invariant
                c.x == x < 9,
                c.y == y < 9,
                forall|d: u8|
                    1 <= d <= i ==> (#[trigger] hints[d - 1] <==> first_conflict(
                        self@,
                        x as int,
                        y as int,
                        d,
                    ) is None),
                forall|j: int| i <= j < 9 ==> hints[j],
        {
            if let Some(_) = self.find_conflict(&c, i + 1) {
                hints[i as usize] = false;
            }
        }
        self.set_content(x, y, FieldContent::Hints(hints));
        assert(final(self)@ =~~= put(old(self)@, x as int, y as int, None));
        proof {
            assert forall|d: u8|
                first_conflict(final(self)@, x as int, y as int, d) == first_conflict(
                    old(self)@,
                    x as int,
                    y as int,
                    d,
                ) by {
                old(self).lemma_conflict_ignores_own(x as int, y as int, None, d);
            }
        }
    }

    /// The first conflict of a digit at a position is the same whatever the
    /// position itself holds.
    pub proof fn lemma_conflict_ignores_own(self, x: int, y: int, v: Option<u8>, d: u8)
        requires
            in_grid(x, y),
        ensures
            first_conflict(put(self@, x, y, v), x, y, d) == first_conflict(self@, x, y, d),
    {
        lemma_conflict_from_ignores_own(self@, x, y, v, d, 0);
    }

    /// Finds a cell that rules out `digit` at `coords`: the first cell other
    /// than `coords` that holds `digit`, looking along the row, then along the
    /// column, then through the box.
    pub fn find_conflict(&self, coords: &Coords, digit: u8) -> (conflict: Option<Coords>)
        requires
            coords.x < 9,
            coords.y < 9,
        ensures
            match conflict {
                Some(c) => first_conflict(self@, coords.x as int, coords.y as int, digit) == Some(
                    (c.x as int, c.y as int),
                ),
                None => first_conflict(self@, coords.x as int, coords.y as int, digit) is None,
            },
            conflict is None <==> !blocked(self@, coords.x as int, coords.y as int, digit),
            conflict matches Some(c) ==> peers(
                coords.x as int,
                coords.y as int,
                c.x as int,
                c.y as int,
            ) && self.cell(c.x as int, c.y as int).content == FieldContent::Digit(digit),
    {
        let ghost b = self@;
        let ghost tx = coords.x as int;
        let ghost ty = coords.y as int;
        for x in 0..9u8
            invariant
                b == self@,
                tx == coords.x < 9,
                ty == coords.y < 9,
                first_conflict(b, tx, ty, digit) == first_conflict_from(b, tx, ty, digit, x as int),
        {
            if x != coords.x {
                if let FieldContent::Digit(cell_digit) = self.get_cell(x, coords.y).content {
                    if cell_digit == digit {
                        proof {
    lemma_first_conflict(b, tx, ty, digit);
}
return Some(Coords { x: x, y: coords.y });
                    }
                }
            }
        }

        for y in 0..9u8
            invariant
                b == self@,
                tx == coords.x < 9,
                ty == coords.y < 9,
                first_conflict(b, tx, ty, digit) == first_conflict_from(
                    b,
                    tx,
                    ty,
                    digit,
                    9 + y as int,
                ),
        {
            if y != coords.y {
                if let FieldContent::Digit(cell_digit) = self.get_cell(coords.x, y).content {
                    if cell_digit == digit {
                        proof {
    lemma_first_conflict(b, tx, ty, digit);
}
return Some(Coords { x: coords.x, y: y });
                    }
                }
            }
        }

        let section = Coords { x: coords.x / 3, y: coords.y / 3 };
        for x in section.x * 3..(section.x + 1) * 3
            invariant
                b == self@,
                tx == coords.x < 9,
                ty == coords.y < 9,
                section.x == coords.x / 3,
                section.y == coords.y / 3,
                first_conflict(b, tx, ty, digit) == first_conflict_from(
                    b,
                    tx,
                    ty,
                    digit,
                    18 + 3 * (x - section.x * 3),
                ),
        {
            for y in section.y * 3..(section.y + 1) * 3
                invariant
                    b == self@,
                    tx == coords.x < 9,
                    ty == coords.y < 9,
                    section.x == coords.x / 3,
                    section.y == coords.y / 3,
                    section.x * 3 <= x < (section.x + 1) * 3,
                    first_conflict(b, tx, ty, digit) == first_conflict_from(
                        b,
                        tx,
                        ty,
                        digit,
                        18 + 3 * (x - section.x * 3) + (y - section.y * 3),
                    ),
            {
                assert(scan_cell(tx, ty, 18 + 3 * (x - section.x * 3) + (y - section.y * 3)) == (
                    x as int,
                    y as int,
                ));
                if x != coords.x || y != coords.y {
                    if let FieldContent::Digit(cell_digit) = self.get_cell(x, y).content {
                        if cell_digit == digit {
                            proof {
    lemma_first_conflict(b, tx, ty, digit);
}
return Some(Coords { x: x, y: y });
                        }
                    }
                }
            }
        }

        proof {
            lemma_first_conflict(b, tx, ty, digit);
        }
        None
    }

    /// Offers digit `value` again at `(x, y)`: if the cell holds candidates
    /// and no peer holds `value`, the digit becomes a candidate.
    fn restore(&mut self, x: u8, y: u8, value: u8)
        requires
            x < 9,
            y < 9,
            1 <= value <= 9,
        ensures
            restored(
                old(self).cell(x as int, y as int),
                final(self).cell(x as int, y as int),
                value,
                !blocked(old(self)@, x as int, y as int, value),
            ),
            forall|cx: int, cy: int|
                in_grid(cx, cy) && !(cx == x && cy == y) ==> #[trigger] final(self).cell(cx, cy)
                    == old(self).cell(cx, cy),
            final(self)@ == old(self)@,
    {
        let c = Coords { x: x, y: y };
        if !self.find_conflict(&c, value).is_some() {
            if let FieldContent::Hints(mut hints) = self.cells[y as usize][x as usize].content {
                hints[(value - 1) as usize] = true;
                self.cells[y as usize][x as usize].content = FieldContent::Hints(hints);
            }
        }
        proof {
            old(self).lemma_view();
            self.lemma_view();
            assert forall|cy: int| 0 <= cy < 9 implies #[trigger] self@[cy] =~= old(self)@[cy] by {
                assert forall|cx: int| 0 <= cx < 9 implies #[trigger] self@[cy][cx] == old(
                    self,
                )@[cy][cx] by {
                    assert(self.cell(cx, cy).content.digit() == old(self).cell(
                        cx,
                        cy,
                    ).content.digit());
                }
            }
            assert(self@ =~= old(self)@);
        }
    }

    /// Erases the digit at `(x, y)`, if the cell holds one, and tells which
    /// digit it was. The cell gets its candidates, computed afresh, and the
    /// cells around it that hold candidates get the digit back as one where
    /// no other cell rules it out.
    pub fn clear_value(&mut self, x: u8, y: u8) -> (erased: Option<u8>)
        requires
            x < 9,
            y < 9,
            old(self).cell(x as int, y as int).content matches FieldContent::Digit(d) ==> 1 <= d
                <= 9,
        ensures
            erased == old(self).cell(x as int, y as int).content.digit(),
            match erased {
                Some(d) => is_erased(*old(self), *final(self), x as int, y as int, d),
                None => *final(self) == *old(self),
            },
    {
        if let FieldContent::Digit(digit) = self.get_cell(x, y).content {
            self.set_hints(x, y);
            let ghost cleared = *self;
            let ghost b = self@;
            proof {
                cleared.lemma_view();
                assert forall|d: u8| 1 <= d <= 9 implies (first_conflict(b, x as int, y as int, d)
                    is None <==> !blocked(b, x as int, y as int, d)) by {
                    lemma_first_conflict(b, x as int, y as int, d);
                }
            }
            for i in 0..9u8
                invariant
                    x < 9,
                    y < 9,
                    1 <= digit <= 9,
                    self@ == b,
                    forall|cx: int, cy: int|
                        in_grid(cx, cy) ==> if passed(x as int, y as int, cx, cy, i as int) {
                            restored(
                                cleared.cell(cx, cy),
                                #[trigger] self.cell(cx, cy),
                                digit,
                                !blocked(b, cx, cy, digit),
                            )
                        } else {
                            self.cell(cx, cy) == cleared.cell(cx, cy)
                        },
            {
                let ghost s0 = *self;
                self.restore(i, y, digit);
                let ghost s1 = *self;
                self.restore(x, i, digit);
                let ghost s2 = *self;
                self.restore((x / 3) * 3 + i % 3, (y / 3) * 3 + (i / 3), digit);
                proof {
                    assert forall|cx: int, cy: int| in_grid(cx, cy) implies if passed(
                        x as int,
                        y as int,
                        cx,
                        cy,
                        i + 1,
                    ) {
                        restored(
                            cleared.cell(cx, cy),
                            #[trigger] self.cell(cx, cy),
                            digit,
                            !blocked(b, cx, cy, digit),
                        )
                    } else {
                        self.cell(cx, cy) == cleared.cell(cx, cy)
                    } by {
                        let a = cleared.cell(cx, cy);
                        let free = !blocked(b, cx, cy, digit);
                        lemma_restored_chain(a, s0.cell(cx, cy), s1.cell(cx, cy), digit, free);
                        lemma_restored_chain(a, s1.cell(cx, cy), s2.cell(cx, cy), digit, free);
                        lemma_restored_chain(a, s2.cell(cx, cy), self.cell(cx, cy), digit, free);
                    }
                }
            }
            proof {
                let tx = x as int;
                let ty = y as int;
                assert(passed(tx, ty, tx, ty, 9));
                assert(restored(
                    cleared.cell(tx, ty),
                    self.cell(tx, ty),
                    digit,
                    !blocked(b, tx, ty, digit),
                ));
                let h = cleared.cell(tx, ty).content->Hints_0;
                let h2 = self.cell(tx, ty).content->Hints_0;
                assert(h2@ =~= h@);
                assert forall|d: u8| 1 <= d <= 9 implies (#[trigger] h2[d - 1] <==> !blocked(
                    b,
                    tx,
                    ty,
                    d,
                )) by {
                    assert(h2[d - 1] == h[d - 1]);
                }
                assert forall|cx: int, cy: int|
                    in_grid(cx, cy) && !(cx == tx && cy == ty) implies if related(tx, ty, cx, cy) {
                    restored(
                        old(self).cell(cx, cy),
                        #[trigger] self.cell(cx, cy),
                        digit,
                        !blocked(b, cx, cy, digit),
                    )
                } else {
                    self.cell(cx, cy) == old(self).cell(cx, cy)
                } by {
                    assert(cleared.cell(cx, cy) == old(self).cell(cx, cy));
                    assert(passed(tx, ty, cx, cy, 9) == related(tx, ty, cx, cy));
                }
            }
            Some(digit)
        } else {
            None
        }
    }

    /// Whether the digits of the grid obey the rules: each is in `1..=9`, and
    /// none is held twice in a row, a column or a box.
    pub fn follows_rules(&self) -> (ok: bool)
        ensures
            ok == is_valid(self@),
    {
        proof {
            self.lemma_view();
        }
        for y in 0..9u8
            invariant
                is_board(self@),
                forall|cx: int, cy: int|
                    in_grid(cx, cy) && cy < y ==> #[trigger] cell_valid(self@, cx, cy),
        {
            for x in 0..9u8
                invariant
                    y < 9,
                    is_board(self@),
                    forall|cx: int, cy: int|
                        in_grid(cx, cy) && (cy < y || (cy == y && cx < x))
                            ==> #[trigger] cell_valid(self@, cx, cy),
            {
                proof {
                    self.lemma_view();
                }
                if let FieldContent::Digit(digit) = self.get_cell(x, y).content {
                    if digit < 1 || digit > 9 || self.find_conflict(
                        &Coords { x: x, y: y },
                        digit,
                    ).is_some() {
                        assert(!cell_valid(self@, x as int, y as int));
                        return false;
                    }
                }
            }
        }
        true
    }

    /// Resets every cell: not fixed, every digit a candidate.
    pub fn clear(&mut self)
        ensures
            forall|x: int, y: int| in_grid(x, y) ==> is_open(#[trigger] final(self).cell(x, y)),
            final(self)@ == crate::board::blank(),
    {
        for y in 0..9usize
            invariant
                forall|cx: int, cy: int|
                    in_grid(cx, cy) && cx < y ==> is_open(#[trigger] self.cell(cx, cy)),
        {
            for x in 0..9usize
                invariant
                    y < 9,
                    forall|cx: int, cy: int|
                        in_grid(cx, cy) && (cx < y || (cx == y && cy < x)) ==> is_open(
                            #[trigger] self.cell(cx, cy),
                        ),
            {
                let ghost before = *self;
                self.cells[x][y] = Cell { content: FieldContent::Hints([true;9]), fixed: false };
                assert(is_open(self.cell(y as int, x as int)));
                assert forall|cx: int, cy: int|
                    in_grid(cx, cy) && !(cx == y && cy == x) implies #[trigger] self.cell(cx, cy)
                    == before.cell(cx, cy) by {}
            }
        }
        assert(final(self)@ =~~= crate::board::blank());
    }
}

/// Striking a digit once more changes nothing: two steps of which each
/// strikes the digit or leaves the cell alone amount to one such step, and
/// to a strike if either was one.
pub proof fn lemma_struck_chain(a: Cell, b: Cell, c: Cell, value: u8)
    requires
        1 <= value <= 9,
        a == b || struck(a, b, value),
        b == c || struck(b, c, value),
    ensures
        a == c || struck(a, c, value),
        struck(a, b, value) || struck(b, c, value) ==> struck(a, c, value),
{
    if struck(a, b, value) && struck(b, c, value) {
        if let FieldContent::Hints(h) = a.content {
            let h2 = b.content->Hints_0;
            let h3 = c.content->Hints_0;
            assert(h3@ =~= h@.update(value - 1, false));
        }
    }
}

/// Offering a digit once more changes nothing: two steps of which each
/// restores the digit or leaves the cell alone amount to one such step, and
/// to a restoring one if either was one.
pub proof fn lemma_restored_chain(a: Cell, b: Cell, c: Cell, value: u8, free: bool)
    requires
        1 <= value <= 9,
        a == b || restored(a, b, value, free),
        b == c || restored(b, c, value, free),
    ensures
        a == c || restored(a, c, value, free),
        restored(a, b, value, free) || restored(b, c, value, free) ==> restored(
            a,
            c,
            value,
            free,
        ),
{
    if free && restored(a, b, value, free) && restored(b, c, value, free) {
        if let FieldContent::Hints(h) = a.content {
            let h2 = b.content->Hints_0;
            let h3 = c.content->Hints_0;
            assert(h3@ =~= h@.update(value - 1, true));
        }
    }
}

/// From any step on, the scan around a position does not look at the
/// position itself.
pub proof fn lemma_conflict_from_ignores_own(
    b: Board,
    x: int,
    y: int,
    v: Option<u8>,
    d: u8,
    k: int,
)
    requires
        is_board(b),
        in_grid(x, y),
        0 <= k,
    ensures
        first_conflict_from(put(b, x, y, v), x, y, d, k) == first_conflict_from(b, x, y, d, k),
    decreases 27 - k,
{
    if k < 27 {
        lemma_conflict_from_ignores_own(b, x, y, v, d, k + 1);
        let c = scan_cell(x, y, k);
        if c != (x, y) {
            assert(put(b, x, y, v)[c.1][c.0] == b[c.1][c.0]);
        }
    }
}

} // verus!
