//! The generator: a random full grid, carved down cell by cell for as long
//! as the puzzle keeps a single solution.

use crate::board::{
    blocked, cell_valid, digit_count, digits_upto, has_unique_completion, in_grid,
    is_only_completion, is_valid, lemma_first_conflict, put, Board,
};
use crate::completion::{lemma_full_completion, lemma_put, lemma_valid_without};
use crate::container::FieldContent;
use crate::field::{Cell, Coords, Field};
use crate::pattern::{lemma_count_without, lemma_digits_left, lemma_seeded_solvable};
use crate::random::{draw, entropy_source};
use crate::solver::is_solution_of;
use rand::rngs::StdRng;
use vstd::prelude::*;

verus! {

/// Whether the cell at `(x, y)` is as a finished puzzle has it: a digit is
/// fixed; an empty cell is not, and holds as candidates exactly the digits
/// that no peer holds.
pub open spec fn is_settled(f: Field, x: int, y: int) -> bool {
    match f.cell(x, y).content {
        FieldContent::Digit(_) => f.cell(x, y).fixed,
        FieldContent::Hints(h) => !f.cell(x, y).fixed && forall|d: u8|
            1 <= d <= 9 ==> (#[trigger] h[d - 1] <==> !blocked(f@, x, y, d)),
        FieldContent::Empty => false,
    }
}

/// Whether `f` is a puzzle: a valid grid with exactly one solution, whose
/// digits are fixed and whose empty cells carry their candidates.
pub open spec fn is_puzzle(f: Field) -> bool {
    &&& is_valid(f@)
    &&& has_unique_completion(f@)
    &&& forall|x: int, y: int| in_grid(x, y) ==> #[trigger] is_settled(f, x, y)
}

/// Whether the digit at `(x, y)` is needed: without it, the board would not
/// have exactly one completion.
pub open spec fn is_needed(b: Board, x: int, y: int) -> bool {
    in_grid(x, y) && b[y][x] is Some && !has_unique_completion(put(b, x, y, None))
}

/// Whether carving has come to its end on `b`: some digit is needed.
pub open spec fn is_carved(b: Board) -> bool {
    exists|x: int, y: int| #[trigger] is_needed(b, x, y)
}

/// Whether no cell of `f` is fixed.
pub open spec fn none_fixed(f: Field) -> bool {
    forall|x: int, y: int| in_grid(x, y) ==> !(#[trigger] f.cell(x, y)).fixed
}

/// Whether no cell from `(x, y)` on, reading row by row, is fixed.
pub open spec fn none_fixed_from(f: Field, x: int, y: int) -> bool {
    forall|cx: int, cy: int|
        in_grid(cx, cy) && (cy > y || (cy == y && cx >= x)) ==> !(#[trigger] f.cell(cx, cy)).fixed
}

impl Field {
    /// How many cells hold a digit.
    pub fn count_digits(&self) -> (n: u8)
        ensures
            n == digit_count(self@),
            n <= 81,
    {
        let ghost b = self@;
        let mut n: u8 = 0;
        for y in 0..9u8
            invariant
                b == self@,
                n == digits_upto(b, 9 * y),
                n <= 9 * y,
        {
            for x in 0..9u8
                invariant
                    b == self@,
                    y < 9,
                    n == digits_upto(b, 9 * y + x),
                    n <= 9 * y + x,
            {
                assert((9 * y + x) / 9 == y && (9 * y + x) % 9 == x);
                if self.get_cell(x, y).content.is_some() {
                    n = n + 1;
                }
            }
        }
        n
    }

    /// The cell that holds a digit and has `n` such cells before it, reading
    /// row by row; none where the grid holds `n` digits or fewer.
    pub fn nth_digit_cell(&self, n: u8) -> (found: Option<Coords>)
        ensures
            match found {
                Some(c) => {
                    &&& c.x < 9 && c.y < 9
                    &&& self.cell(c.x as int, c.y as int).content is Digit
                    &&& digits_upto(self@, 9 * c.y + c.x) == n
                },
                None => digit_count(self@) <= n,
            },
    {
        let ghost b = self@;
        let mut seen: u8 = 0;
        for y in 0..9u8
            invariant
                b == self@,
                seen == digits_upto(b, 9 * y),
                seen <= n,
                seen <= 9 * y,
        {
            for x in 0..9u8
                invariant
                    b == self@,
                    y < 9,
                    seen == digits_upto(b, 9 * y + x),
                    seen <= n,
                    seen <= 9 * y + x,
            {
                assert((9 * y + x) / 9 == y && (9 * y + x) % 9 == x);
                if self.get_cell(x, y).content.is_some() {
                    if seen == n {
                        return Some(Coords { x: x, y: y });
                    }
                    seen = seen + 1;
                }
            }
        }
        None
    }

    /// A cell that holds a digit, each as likely as any other; none where
    /// the grid holds no digit.
    pub fn pick_digit_cell(&self, rng: &mut StdRng) -> (found: Option<Coords>)
        ensures
            match found {
                Some(c) => c.x < 9 && c.y < 9 && self.cell(c.x as int, c.y as int).content is Digit,
                None => digit_count(self@) == 0,
            },
    {
        let n = self.count_digits();
        if n == 0 {
            return None;
        }
        let k = draw(rng, 0, n);
        self.nth_digit_cell(k)
    }

    /// Makes the grid a fresh puzzle, drawing from `rng`: a random full grid
    /// from which cells are taken one by one for as long as a single solution
    /// remains; the first cell whose removal allows a second solution is put
    /// back, and carving ends there.
    pub fn fill_random_with(&mut self, rng: &mut StdRng)
        ensures
            is_puzzle(*final(self)),
            is_carved(final(self)@),
    {
        self.clear();

        let x = draw(rng, 0u8, 9u8);
        let y = draw(rng, 0u8, 9u8);
        let digit = draw(rng, 1u8, 10u8);
        self.set_value(x, y, digit);
        let ghost seeded = *self;
        proof {
            lemma_seeded_solvable(x as int, y as int, digit);
        }

        let solution = self.find_solution_with(rng).unwrap();
        self.cells = solution.cells;
        proof {
            self.lemma_view();
            assert(is_solution_of(seeded, *self));
            lemma_full_completion(self@);
            assert(is_only_completion(self@, self@));
        }

        loop
            invariant
                is_valid(self@),
                has_unique_completion(self@),
                none_fixed(*self),
            ensures
                is_carved(self@),
            decreases digit_count(self@),
        {
            let ghost before = *self;
            proof {
                self.lemma_view();
                lemma_digits_left(self@);
            }
            let c = self.pick_digit_cell(rng).unwrap();
            let digit = self.get_cell(c.x, c.y).content.unwrap();
            self.set_content(c.x, c.y, FieldContent::Empty);
            proof {
                assert(cell_valid(before@, c.x as int, c.y as int));
                self.lemma_view();
                lemma_put(before@, c.x as int, c.y as int, None);
                assert(self@ =~~= put(before@, c.x as int, c.y as int, None));
                lemma_valid_without(before@, c.x as int, c.y as int);
                lemma_count_without(before@, c.x as int, c.y as int, 81);
            }

            let solutions = self.find_solutions_with(2, rng);
            if solutions.len() == 1 {
                continue;
            }
            let ghost carved = *self;
            self.set_value(c.x, c.y, digit);
            proof {
                lemma_put(carved@, c.x as int, c.y as int, Some(digit));
                assert(self@ =~~= before@);
                assert(is_needed(self@, c.x as int, c.y as int));
            }

            break;
        }

        let ghost b = self@;
        for y in 0..9u8
            invariant
                b == self@,
                is_valid(b),
                has_unique_completion(b),
                is_carved(b),
                none_fixed_from(*self, 0, y as int),
                forall|cx: int, cy: int|
                    in_grid(cx, cy) && cy < y ==> #[trigger] is_settled(*self, cx, cy),
        {
            for x in 0..9u8
                invariant
                    b == self@,
                    y < 9,
                    none_fixed_from(*self, x as int, y as int),
                    forall|cx: int, cy: int|
                        in_grid(cx, cy) && (cy < y || (cy == y && cx < x))
                            ==> #[trigger] is_settled(*self, cx, cy),
            {
                let ghost prev = *self;
                if self.get_cell(x, y).content.is_some() {
                    self.get_cell_mut(x, y).fixed = true;
                } else {
                    self.set_hints(x, y);
                }
                proof {
                    prev.lemma_view();
                    self.lemma_view();
                    assert forall|cy: int| 0 <= cy < 9 implies #[trigger] self@[cy] =~= b[cy] by {
                        assert forall|cx: int| 0 <= cx < 9 implies #[trigger] self@[cy][cx]
                            == b[cy][cx] by {
                            if !(cx == x && cy == y) {
                                assert(self.cell(cx, cy) == prev.cell(cx, cy));
                            }
                        }
                    }
                    assert(self@ =~= b);
                    assert forall|cx: int, cy: int|
                        in_grid(cx, cy) && (cy < y || (cy == y && cx < x + 1))
                        implies #[trigger] is_settled(*self, cx, cy) by {
                        if cx == x && cy == y {
                            if let FieldContent::Hints(h) = self.cell(cx, cy).content {
                                assert forall|d: u8| 1 <= d <= 9 implies (#[trigger] h[d - 1]
                                    <==> !blocked(b, cx, cy, d)) by {
                                    lemma_first_conflict(b, cx, cy, d);
                                }
                            }
                        } else {
                            assert(self.cell(cx, cy) == prev.cell(cx, cy));
                            assert(is_settled(prev, cx, cy));
                        }
                    }
                    assert forall|cx: int, cy: int|
                        in_grid(cx, cy) && (cy > y || (cy == y && cx >= x + 1))
                        implies !(#[trigger] self.cell(cx, cy)).fixed by {
                        assert(self.cell(cx, cy) == prev.cell(cx, cy));
                    }
                }
            }
        }
    }

    /// Makes the grid a fresh puzzle, with a random source of its own.
    pub fn fill_random(&mut self)
        ensures
            is_puzzle(*final(self)),
            is_carved(final(self)@),
    {
        let mut rng = entropy_source();
        self.fill_random_with(&mut rng)
    }

    /// A fresh puzzle, drawn from `rng`.
    pub fn new_with(rng: &mut StdRng) -> (field: Field)
        ensures
            is_puzzle(field),
            is_carved(field@),
    {
        let mut field = Field {
            cells: [[Cell { content: FieldContent::Hints([true;9]), fixed: false };9];9],
        };
        field.fill_random_with(rng);
        field
    }

    /// A fresh puzzle.
    pub fn new() -> (field: Field)
        ensures
            is_puzzle(field),
            is_carved(field@),
    {
        let mut rng = entropy_source();
        Field::new_with(&mut rng)
    }
}

} // verus!
