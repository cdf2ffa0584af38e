//! The solver: an exhaustive backtracking search that tries the digits of
//! each empty cell in random order and stops at a requested number of
//! solutions.

use crate::board::{
    cell_valid, first_gap, has_unique_completion, in_grid, is_completion, is_full,
    is_only_completion, is_unsolvable, is_valid, Board,
};
use crate::completion::{
    lemma_blocked_excludes, lemma_broken_is_unsolvable, lemma_completed_is_valid,
    lemma_completion_narrow, lemma_completion_widen, lemma_first_gap, lemma_full_completion,
    lemma_full_has_no_gap, lemma_gap_advances, lemma_put, lemma_valid_with,
};
use crate::container::FieldContent;
use crate::field::{Coords, Field};
use crate::random::{entropy_source, is_digit_order, shuffled_digits};
use rand::rngs::StdRng;
use vstd::prelude::*;

verus! {

/// Whether two grids have the same cells marked as fixed.
pub open spec fn same_flags(a: Field, b: Field) -> bool {
    forall|x: int, y: int|
        #![trigger a.cell(x, y)]
        #![trigger b.cell(x, y)]
        in_grid(x, y) ==> a.cell(x, y).fixed == b.cell(x, y).fixed
}

/// Whether `s` is a solution of `base`: every cell holds a digit, the digits
/// obey the rules throughout and keep those of `base`, and the same cells are
/// fixed.
pub open spec fn is_solution_of(base: Field, s: Field) -> bool {
    &&& is_completion(base@, s@)
    &&& same_flags(s, base)
    &&& forall|x: int, y: int| in_grid(x, y) ==> #[trigger] s.cell(x, y).content is Digit
}

/// Whether one of `sols`, from index `from` on, has the digits `b`.
pub open spec fn listed(sols: Seq<Field>, from: int, b: Board) -> bool {
    exists|i: int| from <= i < sols.len() && (#[trigger] sols[i])@ == b
}

/// Whether `v` is one of the first `upto` of `digits`.
pub open spec fn tried(digits: Seq<u8>, upto: int, v: Option<u8>) -> bool {
    exists|j: int| 0 <= j < upto && v == Some(#[trigger] digits[j])
}

/// Whether no two of `sols`, from index `from` on, have the same digits.
pub open spec fn all_differ(sols: Seq<Field>, from: int) -> bool {
    forall|i: int, j: int|
        from <= i < j < sols.len() ==> (#[trigger] sols[i])@ != (#[trigger] sols[j])@
}

/// What a search on `base` that stops at `stop_at` returns: at most
/// `stop_at` solutions of `base`, no two with the same digits, and every
/// solution there is unless the list has reached `stop_at`.
pub open spec fn is_search_result(base: Field, stop_at: u32, sols: Seq<Field>) -> bool {
    &&& sols.len() <= stop_at
    &&& forall|i: int| 0 <= i < sols.len() ==> is_solution_of(base, #[trigger] sols[i])
    &&& all_differ(sols, 0)
    &&& sols.len() < stop_at ==> forall|b: Board| #[trigger]
        is_completion(base@, b) ==> listed(sols, 0, b)
}

/// What a search result tells. A grid that breaks the rules has none. Of a
/// search that was asked for at least one solution, an empty result means
/// that there is none; of one that was asked for two or more, a single
/// result means that there is exactly one; and a full grid that obeys the
/// rules is its own and only solution.
pub proof fn lemma_search_result(base: Field, stop_at: u32, sols: Seq<Field>)
    requires
        is_search_result(base, stop_at, sols),
    ensures
        !is_valid(base@) ==> sols.len() == 0,
        stop_at >= 1 ==> (sols.len() == 0 <==> is_unsolvable(base@)),
        stop_at >= 2 ==> (sols.len() == 1 <==> has_unique_completion(base@)),
        stop_at >= 1 && is_full(base@) && is_valid(base@) ==> sols == seq![base],
{
    base.lemma_view();
    if sols.len() > 0 {
        assert(is_solution_of(base, sols[0]));
        lemma_completed_is_valid(base@, sols[0]@);
    }
    if stop_at >= 1 && sols.len() == 0 {
        assert forall|b: Board| !is_completion(base@, b) by {
            if is_completion(base@, b) {
                assert(listed(sols, 0, b));
            }
        }
    }
    if stop_at >= 2 {
        if sols.len() == 1 {
            assert forall|c: Board| #[trigger] is_completion(base@, c) implies c == sols[0]@ by {
                assert(listed(sols, 0, c));
            }
            assert(is_only_completion(base@, sols[0]@));
        }
        if has_unique_completion(base@) {
            let b = choose|b: Board| is_only_completion(base@, b);
            if sols.len() >= 2 {
                assert(is_solution_of(base, sols[0]));
                assert(is_solution_of(base, sols[1]));
                assert(sols[0]@ != sols[1]@);
            }
        }
    }
    if stop_at >= 1 && is_full(base@) && is_valid(base@) {
        lemma_full_completion(base@);
        if sols.len() >= 2 {
            assert(is_solution_of(base, sols[0]));
            assert(is_solution_of(base, sols[1]));
            assert(sols[0]@ != sols[1]@);
        }
        assert(sols.len() == 1);
        let s = sols[0];
        s.lemma_view();
        assert forall|x: int, y: int| in_grid(x, y) implies #[trigger] s.cell(x, y) == base.cell(
            x,
            y,
        ) by {
            assert(s@[y][x] == base@[y][x]);
            assert(base@[y][x].is_some());
            assert(s.cell(x, y).content is Digit);
        }
        s.lemma_same_cells(base);
        assert(sols =~= seq![base]);
    }
}

impl Field {
    /// Searches for solutions of this grid, up to `stop_at` of them, trying
    /// digits in an order drawn from `rng`. A grid that breaks the rules has
    /// no solution, and a search for none finds none. The grid itself is left
    /// alone: the search runs on a copy.
    pub fn find_solutions_with(&self, stop_at: u32, rng: &mut StdRng) -> (solutions: Vec<Field>)
        ensures
            is_search_result(*self, stop_at, solutions@),
            !is_valid(self@) ==> solutions@.len() == 0,
            stop_at >= 1 ==> (solutions@.len() == 0 <==> is_unsolvable(self@)),
            stop_at >= 2 ==> (solutions@.len() == 1 <==> has_unique_completion(self@)),
            stop_at >= 1 && is_full(self@) && is_valid(self@) ==> solutions@ == seq![*self],
    {
        let mut solutions = Vec::new();
        if stop_at == 0 || !self.follows_rules() {
            proof {
                self.lemma_view();
                if !is_valid(self@) {
                    lemma_broken_is_unsolvable(self@);
                }
                lemma_search_result(*self, stop_at, solutions@);
            }
            return solutions;
        }
        let mut field = self.clone();
        field.find_solutions_impl(&mut solutions, stop_at, rng);
        proof {
            lemma_search_result(*self, stop_at, solutions@);
        }
        solutions
    }

    /// Searches for solutions of this grid, up to `stop_at` of them, with a
    /// random source of its own.
    pub fn find_solutions(&mut self, stop_at: u32) -> (solutions: Vec<Field>)
        ensures
            *final(self) == *old(self),
            is_search_result(*old(self), stop_at, solutions@),
            !is_valid(old(self)@) ==> solutions@.len() == 0,
            stop_at >= 1 ==> (solutions@.len() == 0 <==> is_unsolvable(old(self)@)),
            stop_at >= 2 ==> (solutions@.len() == 1 <==> has_unique_completion(old(self)@)),
            stop_at >= 1 && is_full(old(self)@) && is_valid(old(self)@) ==> solutions@
                == seq![*old(self)],
    {
        let mut rng = entropy_source();
        self.find_solutions_with(stop_at, &mut rng)
    }

    /// A solution of this grid, if it has one, found with digits tried in
    /// an order drawn from `rng`. A grid that breaks the rules has none.
    pub fn find_solution_with(&self, rng: &mut StdRng) -> (solution: Option<Field>)
        ensures
            match solution {
                Some(s) => is_solution_of(*self, s),
                None => is_unsolvable(self@),
            },
            !is_valid(self@) ==> solution is None,
    {
        let solutions = self.find_solutions_with(1, rng);
        if solutions.len() > 0 {
            return Some(solutions[0]);
        }
        None
    }

    /// A solution of this grid, if it has one. A grid that breaks the rules
    /// has none.
    pub fn find_solution(&mut self) -> (solution: Option<Field>)
        ensures
            *final(self) == *old(self),
            match solution {
                Some(s) => is_solution_of(*old(self), s),
                None => is_unsolvable(old(self)@),
            },
            !is_valid(old(self)@) ==> solution is None,
    {
        let mut rng = entropy_source();
        self.find_solution_with(&mut rng)
    }

    /// Replaces the grid by one of its solutions, found with `rng`; a grid
    /// without a solution stays as it is.
    pub fn fill_solution_with(&mut self, rng: &mut StdRng)
        ensures
            if is_unsolvable(old(self)@) {
                *final(self) == *old(self)
            } else {
                is_solution_of(*old(self), *final(self))
            },
            !is_valid(old(self)@) ==> *final(self) == *old(self),
    {
        if let Some(s) = self.find_solution_with(rng) {
            self.cells = s.cells;
        }
    }

    /// Replaces the grid by one of its solutions; a grid without a solution
    /// stays as it is.
    pub fn fill_solution(&mut self)
        ensures
            if is_unsolvable(old(self)@) {
                *final(self) == *old(self)
            } else {
                is_solution_of(*old(self), *final(self))
            },
            !is_valid(old(self)@) ==> *final(self) == *old(self),
    {
        let mut rng = entropy_source();
        self.fill_solution_with(&mut rng)
    }

    /// The first cell without a digit, reading row by row from the top, each
    /// row from the left.
    pub fn first_empty(&self) -> (gap: Option<Coords>)
        ensures
            match gap {
                Some(c) => {
                    &&& c.x < 9 && c.y < 9
                    &&& first_gap(self@, 0) == 9 * c.y + c.x
                    &&& self@[c.y as int][c.x as int] is None
                },
                None => first_gap(self@, 0) == 81 && is_full(self@),
            },
    {
        let ghost b = self@;
        for y in 0..9u8
            invariant
                b == self@,
                first_gap(b, 0) == first_gap(b, 9 * y),
        {
            for x in 0..9u8
                invariant
                    b == self@,
                    y < 9,
                    first_gap(b, 0) == first_gap(b, 9 * y + x),
            {
                assert((9 * y + x) / 9 == y && (9 * y + x) % 9 == x);
                if self.get_cell(x, y).content.is_none() {
                    return Some(Coords { x: x, y: y });
                }
            }
        }
        proof {
            lemma_full_has_no_gap(b);
        }
        None
    }

    /// One step of the search: extends `solutions` by solutions of this
    /// grid until the list has reached `stop_at`, and tells whether it has.
    /// Where it has, the grid is left as the solution found last; where it
    /// has not, the grid holds the digits it held before.
    fn find_solutions_impl(
        &mut self,
        solutions: &mut Vec<Field>,
        stop_at: u32,
        rng: &mut StdRng,
    ) -> (stop: bool)
        requires
            old(solutions)@.len() < stop_at,
            is_valid(old(self)@),
        ensures
            final(solutions)@.len() >= old(solutions)@.len(),
            final(solutions)@.subrange(0, old(solutions)@.len() as int) == old(solutions)@,
            forall|i: int|
                old(solutions)@.len() <= i < final(solutions)@.len() ==> is_solution_of(
                    *old(self),
                    #[trigger] final(solutions)@[i],
                ),
            all_differ(final(solutions)@, old(solutions)@.len() as int),
            same_flags(*final(self), *old(self)),
            stop ==> {
                &&& final(solutions)@.len() == stop_at
                &&& *final(self) == final(solutions)@.last()
            },
            !stop ==> {
                &&& final(solutions)@.len() < stop_at
                &&& final(self)@ == old(self)@
                &&& forall|b: Board| #[trigger]
                    is_completion(old(self)@, b) ==> listed(
                        final(solutions)@,
                        old(solutions)@.len() as int,
                        b,
                    )
            },
        decreases 81 - first_gap(old(self)@, 0),
    {
        let ghost base = self@;
        let ghost start = *self;
        let ghost found = solutions@;
        proof {
            start.lemma_view();
            lemma_first_gap(base, 0);
        }
        let empty_cell = self.first_empty();
        if empty_cell.is_none() {
            solutions.push(self.clone());
            proof {
                lemma_full_completion(base);
                let s = solutions@[found.len() as int];
                assert(s == start);
                assert forall|x: int, y: int| in_grid(x, y) implies #[trigger] s.cell(
                    x,
                    y,
                ).content is Digit by {
                    assert(base[y][x].is_some());
                }
                assert(is_solution_of(start, s));
                assert forall|b: Board| #[trigger] is_completion(base, b) implies listed(
                    solutions@,
                    found.len() as int,
                    b,
                ) by {
                    assert(s@ == b);
                }
                assert(solutions@.subrange(0, found.len() as int) =~= found);
            }
            return solutions.len() >= (stop_at as usize);
        }
        let coords = empty_cell.unwrap();
        let ghost cx = coords.x as int;
        let ghost cy = coords.y as int;

        let digits = shuffled_digits(rng);
        assert(solutions@.subrange(0, found.len() as int) =~= found);

        for k in 0..9usize
            invariant
                coords.x < 9,
                coords.y < 9,
                cx == coords.x,
                cy == coords.y,
                is_digit_order(digits@),
                start == *old(self),
                base == start@,
                is_valid(base),
                base[cy][cx] is None,
                first_gap(base, 0) == 9 * cy + cx,
                self@ == base,
                same_flags(*self, start),
                solutions@.len() >= found.len(),
                solutions@.subrange(0, found.len() as int) == found,
                found == old(solutions)@,
                solutions@.len() < stop_at,
                forall|i: int|
                    found.len() <= i < solutions@.len() ==> is_solution_of(
                        start,
                        #[trigger] solutions@[i],
                    ) && tried(digits@, k as int, solutions@[i]@[cy][cx]),
                all_differ(solutions@, found.len() as int),
                forall|b: Board|
                    #[trigger] is_completion(base, b) && tried(digits@, k as int, b[cy][cx])
                        ==> listed(solutions@, found.len() as int, b),
        {
            let digit = digits[k];
            let ghost mid = solutions@;
            assert(digits@.contains(digit));
            if self.find_conflict(&coords, digit).is_none() {
                self.set_value(coords.x, coords.y, digit);
                let ghost placed = *self;
                proof {
                    lemma_gap_advances(base, cx, cy, digit);
                    lemma_put(base, cx, cy, Some(digit));
                    lemma_valid_with(base, cx, cy, digit);
                    lemma_first_gap(self@, 0);
                }
                let stop = self.find_solutions_impl(solutions, stop_at, rng);
                proof {
                    assert(solutions@.subrange(0, found.len() as int) =~= found) by {
                        assert(mid =~= solutions@.subrange(0, mid.len() as int));
                        assert(found =~= mid.subrange(0, found.len() as int));
                    }
                    assert forall|i: int| found.len() <= i < solutions@.len() implies {
                        &&& is_solution_of(start, #[trigger] solutions@[i])
                        &&& tried(digits@, k + 1, solutions@[i]@[cy][cx])
                    } by {
                        let s = solutions@[i];
                        if i < mid.len() {
                            assert(s == mid[i]);
                            assert(tried(digits@, k as int, s@[cy][cx]));
                            let j = choose|j: int|
                                0 <= j < k && s@[cy][cx] == Some(#[trigger] digits@[j]);
                            assert(0 <= j < k + 1 && s@[cy][cx] == Some(digits@[j]));
                        } else {
                            assert(is_solution_of(placed, s));
                            lemma_completion_widen(base, s@, cx, cy, digit);
                            assert(s@[cy][cx] == Some(digits@[k as int]));
                        }
                    }
                    assert forall|i: int, j: int|
                        found.len() <= i < j < solutions@.len() implies (#[trigger] solutions@[i])@
                        != (#[trigger] solutions@[j])@ by {
                        if j < mid.len() {
                            assert(solutions@[i] == mid[i]);
                            assert(solutions@[j] == mid[j]);
                        } else if i < mid.len() {
                            assert(solutions@[i] == mid[i]);
                            assert(tried(digits@, k as int, mid[i]@[cy][cx]));
                            let t = choose|t: int|
                                0 <= t < k && mid[i]@[cy][cx] == Some(#[trigger] digits@[t]);
                            assert(digits@[t] != digits@[k as int]);
                            assert(is_solution_of(placed, solutions@[j]));
                            lemma_completion_widen(base, solutions@[j]@, cx, cy, digit);
                        }
                    }
                }
                if stop {
                    return true;
                }
                let ghost after = *self;
                self.set_content(coords.x, coords.y, FieldContent::Empty);
                proof {
                    self.lemma_view();
                    after.lemma_view();
                    lemma_put(base, cx, cy, Some(digit));
                    assert forall|y: int| 0 <= y < 9 implies #[trigger] self@[y] =~= base[y] by {
                        assert forall|x: int| 0 <= x < 9 implies #[trigger] self@[y][x]
                            == base[y][x] by {
                            if !(x == cx && y == cy) {
                                assert(self.cell(x, y) == after.cell(x, y));
                                assert(after@[y][x] == base[y][x]);
                            }
                        }
                    }
                    assert(self@ =~= base);
                    assert forall|b: Board|
                        #[trigger] is_completion(base, b) && tried(
                            digits@,
                            k + 1,
                            b[cy][cx],
                        ) implies listed(solutions@, found.len() as int, b) by {
                        if tried(digits@, k as int, b[cy][cx]) {
                            assert(listed(mid, found.len() as int, b));
                            let i = choose|i: int|
                                found.len() <= i < mid.len() && (#[trigger] mid[i])@ == b;
                            assert(solutions@[i] == mid[i]);
                        } else {
                            assert(b[cy][cx] == Some(digit));
                            lemma_completion_narrow(base, b, cx, cy, digit);
                            assert(listed(solutions@, mid.len() as int, b));
                            let i = choose|i: int|
                                mid.len() <= i < solutions@.len() && (#[trigger] solutions@[i])@
                                    == b;
                            assert(found.len() <= i < solutions@.len() && solutions@[i]@ == b);
                        }
                    }
                }
            } else {
                proof {
                    assert forall|b: Board|
                        #[trigger] is_completion(base, b) && tried(
                            digits@,
                            k + 1,
                            b[cy][cx],
                        ) implies listed(solutions@, found.len() as int, b) by {
                        if !tried(digits@, k as int, b[cy][cx]) {
                            lemma_blocked_excludes(base, b, cx, cy, digit);
                        }
                    }
                    assert forall|i: int| found.len() <= i < solutions@.len() implies tried(
                        digits@,
                        k + 1,
                        (#[trigger] solutions@[i])@[cy][cx],
                    ) by {
                        let s = solutions@[i];
                        assert(tried(digits@, k as int, s@[cy][cx]));
                        let j = choose|j: int|
                            0 <= j < k && s@[cy][cx] == Some(#[trigger] digits@[j]);
                        assert(0 <= j < k + 1 && s@[cy][cx] == Some(digits@[j]));
                    }
                }
            }
        }
        proof {
            assert forall|b: Board| #[trigger] is_completion(base, b) implies listed(
                solutions@,
                found.len() as int,
                b,
            ) by {
                assert(b[cy][cx].is_some());
                assert(cell_valid(b, cx, cy));
                let d = b[cy][cx]->0;
                assert(digits@.contains(d));
                let j = choose|j: int| 0 <= j < digits@.len() && digits@[j] == d;
                assert(0 <= j < 9 && b[cy][cx] == Some(digits@[j]));
                assert(tried(digits@, 9, b[cy][cx]));
            }
        }
        false
    }
}

} // verus!
