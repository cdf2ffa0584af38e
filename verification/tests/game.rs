use rand::rngs::StdRng;
use rand::SeedableRng;
use sudoku::container::FieldContent;
use sudoku::field::{Cell, Coords, Field};
use sudoku::game::{Direction, Game};

fn open_game() -> Game {
    Game {
        field: Field {
            cells: [[Cell { content: FieldContent::Hints([true; 9]), fixed: false }; 9]; 9],
        },
        selected_cell: None,
        conflicting_cell: None,
    }
}

fn digit_at(field: &Field, x: u8, y: u8) -> Option<u8> {
    match field.get_cell(x, y).content {
        FieldContent::Digit(d) => Some(d),
        _ => None,
    }
}

#[test]
fn new_game_has_a_puzzle_and_no_selection() {
    let game = Game::new_with(&mut StdRng::seed_from_u64(40));
    assert_eq!(game.selected_cell, None);
    assert_eq!(game.conflicting_cell, None);
    let mut fixed = 0;
    for y in 0..9 {
        for x in 0..9 {
            let cell = game.field.get_cell(x, y);
            assert_eq!(cell.fixed, cell.content.is_some());
            if cell.fixed {
                fixed += 1;
            }
        }
    }
    assert!(fixed > 0 && fixed < 81);
}

#[test]
fn first_step_selects_the_corner() {
    for direction in [Direction::Up, Direction::Down, Direction::Left, Direction::Right] {
        let mut game = open_game();
        game.move_selection(direction);
        assert_eq!(game.selected_cell, Some(Coords { x: 0, y: 0 }));
    }
}

#[test]
fn selection_moves_and_stops_at_the_edges() {
    let mut game = open_game();
    game.select(7, 1);
    game.move_selection(Direction::Right);
    assert_eq!(game.selected_cell, Some(Coords { x: 8, y: 1 }));
    game.move_selection(Direction::Right);
    assert_eq!(game.selected_cell, Some(Coords { x: 8, y: 1 }));
    game.move_selection(Direction::Up);
    assert_eq!(game.selected_cell, Some(Coords { x: 8, y: 0 }));
    game.move_selection(Direction::Up);
    assert_eq!(game.selected_cell, Some(Coords { x: 8, y: 0 }));
    game.move_selection(Direction::Left);
    assert_eq!(game.selected_cell, Some(Coords { x: 7, y: 0 }));
    game.move_selection(Direction::Down);
    assert_eq!(game.selected_cell, Some(Coords { x: 7, y: 1 }));
    game.select(0, 8);
    game.move_selection(Direction::Down);
    assert_eq!(game.selected_cell, Some(Coords { x: 0, y: 8 }));
    game.move_selection(Direction::Left);
    assert_eq!(game.selected_cell, Some(Coords { x: 0, y: 8 }));
}

#[test]
fn digit_without_selection_does_nothing() {
    let mut game = open_game();
    game.enter_digit(5);
    assert_eq!(game.field.count_digits(), 0);
    assert_eq!(game.conflicting_cell, None);
}

#[test]
fn digit_is_placed_where_nothing_rules_it_out() {
    let mut game = open_game();
    game.select(2, 3);
    game.enter_digit(5);
    assert_eq!(digit_at(&game.field, 2, 3), Some(5));
    assert_eq!(game.conflicting_cell, None);
    assert_eq!(game.selected_cell, Some(Coords { x: 2, y: 3 }));
    assert!(matches!(game.field.get_cell(2, 8).content, FieldContent::Hints(h) if !h[4]));
}

#[test]
fn digit_that_conflicts_is_refused_and_the_conflict_shown() {
    let mut game = open_game();
    game.select(2, 3);
    game.enter_digit(5);
    game.select(2, 7);
    game.enter_digit(5);
    assert_eq!(digit_at(&game.field, 2, 7), None);
    assert_eq!(game.conflicting_cell, Some(Coords { x: 2, y: 3 }));
    game.enter_digit(6);
    assert_eq!(digit_at(&game.field, 2, 7), Some(6));
    assert_eq!(game.conflicting_cell, None);
}

#[test]
fn fixed_cell_is_not_edited() {
    let mut game = open_game();
    game.field.set_value(4, 4, 9);
    game.field.get_cell_mut(4, 4).fixed = true;
    game.select(4, 4);
    game.enter_digit(1);
    assert_eq!(digit_at(&game.field, 4, 4), Some(9));
    game.erase();
    assert_eq!(digit_at(&game.field, 4, 4), Some(9));
    assert_eq!(game.conflicting_cell, None);
}

#[test]
fn erase_takes_the_digit_and_clears_the_conflict() {
    let mut game = open_game();
    game.select(0, 0);
    game.enter_digit(4);
    game.select(1, 0);
    game.enter_digit(4);
    assert_eq!(game.conflicting_cell, Some(Coords { x: 0, y: 0 }));
    game.select(0, 0);
    game.erase();
    assert_eq!(digit_at(&game.field, 0, 0), None);
    assert_eq!(game.conflicting_cell, None);
    assert!(matches!(game.field.get_cell(0, 0).content, FieldContent::Hints(h) if h == [true; 9]));
    assert!(matches!(game.field.get_cell(5, 0).content, FieldContent::Hints(h) if h[3]));
}

#[test]
fn erase_on_an_empty_cell_keeps_the_conflict() {
    let mut game = open_game();
    game.select(0, 0);
    game.enter_digit(4);
    game.select(1, 0);
    game.enter_digit(4);
    game.erase();
    assert_eq!(game.conflicting_cell, Some(Coords { x: 0, y: 0 }));
    assert_eq!(digit_at(&game.field, 0, 0), Some(4));
}

#[test]
fn show_solution_fills_the_grid() {
    let mut game = Game::new_with(&mut StdRng::seed_from_u64(41));
    let puzzle = game.field;
    game.select(3, 3);
    game.show_solution_with(&mut StdRng::seed_from_u64(42));
    assert_eq!(game.selected_cell, None);
    assert_eq!(game.conflicting_cell, None);
    assert_eq!(game.field.count_digits(), 81);
    for y in 0..9 {
        for x in 0..9 {
            if let Some(d) = digit_at(&puzzle, x, y) {
                assert_eq!(digit_at(&game.field, x, y), Some(d));
            }
        }
    }
    game.show_solution();
    assert_eq!(game.field.count_digits(), 81);
}

#[test]
fn show_solution_leaves_a_broken_grid_alone() {
    let mut game = open_game();
    game.field.set_value(0, 0, 3);
    game.field.set_value(0, 1, 3);
    game.select(5, 5);
    game.show_solution_with(&mut StdRng::seed_from_u64(44));
    assert_eq!(game.selected_cell, None);
    assert_eq!(game.conflicting_cell, None);
    assert_eq!(game.field.count_digits(), 2);
    assert_eq!(digit_at(&game.field, 0, 0), Some(3));
    assert_eq!(digit_at(&game.field, 0, 1), Some(3));
}

#[test]
fn restart_gives_a_new_puzzle() {
    let mut game = open_game();
    game.select(1, 1);
    game.enter_digit(1);
    game.restart_with(&mut StdRng::seed_from_u64(43));
    assert_eq!(game.selected_cell, None);
    assert_eq!(game.conflicting_cell, None);
    let digits = game.field.count_digits();
    assert!(digits > 0 && digits < 81);
    let fresh = Game::new();
    assert_eq!(fresh.selected_cell, None);
    assert_eq!(fresh.conflicting_cell, None);
}
