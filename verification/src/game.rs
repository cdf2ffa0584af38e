//! A game in progress: the grid, the cell the player has selected, and the
//! cell that ruled out the last digit the player tried.

use crate::board::{digits_in_range, first_conflict, is_unsolvable, is_valid};
use crate::completion::{lemma_put, lemma_valid_in_range};
use crate::field::{is_erased, is_placed, Coords, Field};
use crate::generator::{is_carved, is_puzzle};
use crate::random::entropy_source;
use crate::solver::is_solution_of;
use rand::rngs::StdRng;
use vstd::prelude::*;

verus! {

/// A step of the selection.
#[derive(Copy, Clone, Debug, PartialEq, Eq, Structural)]
pub enum Direction {
    Up,
    Down,
    Left,
    Right,
}

/// The grid with the player's selection and the last conflict shown.
#[derive(Copy, Clone)]
pub struct Game {
    pub field: Field,
    pub selected_cell: Option<Coords>,
    pub conflicting_cell: Option<Coords>,
}

/// Where the selection goes on a step: one cell on, unless it is at the
/// edge; with nothing selected, to the top left corner.
pub open spec fn step(selected: Option<Coords>, direction: Direction) -> Coords {
    match selected {
        Some(c) => match direction {
            Direction::Up => if c.y > 0 {
                Coords { x: c.x, y: (c.y - 1) as u8 }
            } else {
                c
            },
            Direction::Down => if c.y < 8 {
                Coords { x: c.x, y: (c.y + 1) as u8 }
            } else {
                c
            },
            Direction::Left => if c.x > 0 {
                Coords { x: (c.x - 1) as u8, y: c.y }
            } else {
                c
            },
            Direction::Right => if c.x < 8 {
                Coords { x: (c.x + 1) as u8, y: c.y }
            } else {
                c
            },
        },
        None => Coords { x: 0, y: 0 },
    }
}

/// The coordinates of a position found on the board.
pub open spec fn coords_of(p: (int, int)) -> Coords {
    Coords { x: p.0 as u8, y: p.1 as u8 }
}

impl Game {
    /// Whether the game is in order: the cells it names are on the grid, and
    /// the digits of the grid are in `1..=9`.
    pub open spec fn wf(self) -> bool {
        &&& self.selected_cell matches Some(c) ==> c.x < 9 && c.y < 9
        &&& self.conflicting_cell matches Some(c) ==> c.x < 9 && c.y < 9
        &&& digits_in_range(self.field@)
    }

    /// Whether the player may edit the selected cell: one is selected, and
    /// it is not a given of the puzzle.
    pub open spec fn can_edit(self) -> bool {
        self.selected_cell matches Some(c) && !self.field.cell(c.x as int, c.y as int).fixed
    }

    /// A new game on a fresh puzzle drawn from `rng`, with nothing selected.
    /// The puzzle is carved as far as the generator carves: one of its
    /// digits can no longer be taken off.
    pub fn new_with(rng: &mut StdRng) -> (game: Game)
        ensures
            game.wf(),
            is_puzzle(game.field),
            is_carved(game.field@),
            game.selected_cell is None,
            game.conflicting_cell is None,
    {
        let field = Field::new_with(rng);
        proof {
            lemma_valid_in_range(field@);
        }
        Game { field: field, selected_cell: None, conflicting_cell: None }
    }

    /// A new game on a fresh puzzle, with nothing selected.
    pub fn new() -> (game: Game)
        ensures
            game.wf(),
            is_puzzle(game.field),
            is_carved(game.field@),
            game.selected_cell is None,
            game.conflicting_cell is None,
    {
        let mut rng = entropy_source();
        Game::new_with(&mut rng)
    }

    /// Selects the cell at `(x, y)`.
    pub fn select(&mut self, x: u8, y: u8)
        requires
            old(self).wf(),
            x < 9,
            y < 9,
        ensures
            final(self).wf(),
            final(self).selected_cell == Some(Coords { x: x, y: y }),
            final(self).field == old(self).field,
            final(self).conflicting_cell == old(self).conflicting_cell,
    {
        self.selected_cell = Some(Coords { x: x, y: y });
    }

    /// Moves the selection one cell on, as `step` says.
    pub fn move_selection(&mut self, direction: Direction)
        requires
            old(self).wf(),
        ensures
            final(self).wf(),
            final(self).selected_cell == Some(step(old(self).selected_cell, direction)),
            final(self).field == old(self).field,
            final(self).conflicting_cell == old(self).conflicting_cell,
    {
        let next = match self.selected_cell {
            Some(c) => match direction {
                Direction::Up => if c.y > 0 {
                    Coords { x: c.x, y: c.y - 1 }
                } else {
                    c
                },
                Direction::Down => if c.y < 8 {
                    Coords { x: c.x, y: c.y + 1 }
                } else {
                    c
                },
                Direction::Left => if c.x > 0 {
                    Coords { x: c.x - 1, y: c.y }
                } else {
                    c
                },
                Direction::Right => if c.x < 8 {
                    Coords { x: c.x + 1, y: c.y }
                } else {
                    c
                },
            },
            None => Coords { x: 0, y: 0 },
        };
        self.selected_cell = Some(next);
    }

    /// The player tries `digit` in the selected cell. Where the cell may be
    /// edited, the digit is placed unless a cell rules it out; that cell is
    /// then shown as the conflict. Else nothing happens.
    pub fn enter_digit(&mut self, digit: u8)
        requires
            old(self).wf(),
            1 <= digit <= 9,
        ensures
            final(self).wf(),
            final(self).selected_cell == old(self).selected_cell,
            match old(self).selected_cell {
                Some(c) if old(self).can_edit() => match first_conflict(
                    old(self).field@,
                    c.x as int,
                    c.y as int,
                    digit,
                ) {
                    Some(p) => final(self).field == old(self).field && final(self).conflicting_cell
                        == Some(coords_of(p)),
                    None => is_placed(
                        old(self).field,
                        final(self).field,
                        c.x as int,
                        c.y as int,
                        digit,
                    ) && final(self).conflicting_cell is None,
                },
                _ => *final(self) == *old(self),
            },
    {
        if let Some(cell) = self.selected_cell {
            if !self.field.get_cell(cell.x, cell.y).fixed {
                match self.field.find_conflict(&cell, digit) {
                    Some(coords) => {
                        self.conflicting_cell = Some(coords);
                    },
                    None => {
                        proof {
                            self.field.lemma_view();
                            lemma_put(self.field@, cell.x as int, cell.y as int, Some(digit));
                        }
                        self.field.set_value(cell.x, cell.y, digit);
                        self.conflicting_cell = None;
                    },
                }
            }
        }
    }

    /// The player erases the selected cell. Where the cell may be edited and
    /// holds a digit, the digit goes, the candidates around it are brought up
    /// to date and no conflict is shown any more. Else nothing happens.
    pub fn erase(&mut self)
        requires
            old(self).wf(),
        ensures
            final(self).wf(),
            final(self).selected_cell == old(self).selected_cell,
            match old(self).selected_cell {
                Some(c) if old(self).can_edit() => match old(self).field.cell(
                    c.x as int,
                    c.y as int,
                ).content.digit() {
                    Some(d) => is_erased(
                        old(self).field,
                        final(self).field,
                        c.x as int,
                        c.y as int,
                        d,
                    ) && final(self).conflicting_cell is None,
                    None => *final(self) == *old(self),
                },
                _ => *final(self) == *old(self),
            },
    {
        if let Some(cell) = self.selected_cell {
            if !self.field.get_cell(cell.x, cell.y).fixed {
                proof {
                    self.field.lemma_view();
                    lemma_put(self.field@, cell.x as int, cell.y as int, None);
                    assert(self.field@[cell.y as int][cell.x as int] == self.field.cell(
                        cell.x as int,
                        cell.y as int,
                    ).content.digit());
                }
                if self.field.clear_value(cell.x, cell.y).is_some() {
                    self.conflicting_cell = None;
                }
            }
        }
    }

    /// Shows a solution of the grid as it stands, found with `rng`, if there
    /// is one, and drops the selection and the conflict.
    pub fn show_solution_with(&mut self, rng: &mut StdRng)
        requires
            old(self).wf(),
        ensures
            final(self).wf(),
            final(self).selected_cell is None,
            final(self).conflicting_cell is None,
            if is_unsolvable(old(self).field@) {
                final(self).field == old(self).field
            } else {
                is_solution_of(old(self).field, final(self).field)
            },
            !is_valid(old(self).field@) ==> final(self).field == old(self).field,
    {
        self.field.fill_solution_with(rng);
        self.conflicting_cell = None;
        self.selected_cell = None;
        proof {
            if !is_unsolvable(old(self).field@) {
                lemma_valid_in_range(self.field@);
            }
        }
    }

    /// Shows a solution of the grid as it stands, if there is one, and drops
    /// the selection and the conflict.
    pub fn show_solution(&mut self)
        requires
            old(self).wf(),
        ensures
            final(self).wf(),
            final(self).selected_cell is None,
            final(self).conflicting_cell is None,
            if is_unsolvable(old(self).field@) {
                final(self).field == old(self).field
            } else {
                is_solution_of(old(self).field, final(self).field)
            },
            !is_valid(old(self).field@) ==> final(self).field == old(self).field,
    {
        let mut rng = entropy_source();
        self.show_solution_with(&mut rng)
    }

    /// Starts over on a fresh puzzle drawn from `rng`, with nothing selected.
    pub fn restart_with(&mut self, rng: &mut StdRng)
        ensures
            final(self).wf(),
            is_puzzle(final(self).field),
            is_carved(final(self).field@),
            final(self).selected_cell is None,
            final(self).conflicting_cell is None,
    {
        self.field.fill_random_with(rng);
        self.conflicting_cell = None;
        self.selected_cell = None;
        proof {
            lemma_valid_in_range(self.field@);
        }
    }

    /// Starts over on a fresh puzzle, with nothing selected.
    pub fn restart(&mut self)
        ensures
            final(self).wf(),
            is_puzzle(final(self).field),
            is_carved(final(self).field@),
            final(self).selected_cell is None,
            final(self).conflicting_cell is None,
    {
        let mut rng = entropy_source();
        self.restart_with(&mut rng)
    }
}

} // verus!
