use rand::rngs::StdRng;
use rand::SeedableRng;
use sudoku::container::FieldContent;
use sudoku::field::{Cell, Coords, Field};
use sudoku::random::shuffled_digits;

fn open_grid() -> Field {
    Field { cells: [[Cell { content: FieldContent::Hints([true; 9]), fixed: false }; 9]; 9] }
}

fn digit_at(field: &Field, x: u8, y: u8) -> Option<u8> {
    match field.get_cell(x, y).content {
        FieldContent::Digit(d) => Some(d),
        _ => None,
    }
}

fn digits_of(field: &Field) -> Vec<Option<u8>> {
    let mut all = Vec::new();
    for y in 0..9 {
        for x in 0..9 {
            all.push(digit_at(field, x, y));
        }
    }
    all
}

fn pattern_grid() -> Field {
    let mut field = open_grid();
    for y in 0..9u8 {
        for x in 0..9u8 {
            field.set_content(x, y, FieldContent::Digit((3 * (y % 3) + y / 3 + x) % 9 + 1));
        }
    }
    field
}

fn is_full_and_valid(field: &Field) -> bool {
    for y in 0..9 {
        for x in 0..9 {
            match digit_at(field, x, y) {
                Some(d) if (1..=9).contains(&d) => {
                    if field.find_conflict(&Coords { x, y }, d).is_some() {
                        return false;
                    }
                },
                _ => return false,
            }
        }
    }
    true
}

fn extends(base: &Field, solution: &Field) -> bool {
    for y in 0..9 {
        for x in 0..9 {
            if let Some(d) = digit_at(base, x, y) {
                if digit_at(solution, x, y) != Some(d) {
                    return false;
                }
            }
            if base.get_cell(x, y).fixed != solution.get_cell(x, y).fixed {
                return false;
            }
        }
    }
    true
}

#[test]
fn shuffled_digits_are_the_nine_digits_reordered() {
    let mut rng = StdRng::seed_from_u64(11);
    let mut reordered = false;
    for _ in 0..5 {
        let digits = shuffled_digits(&mut rng);
        let mut sorted = digits.clone();
        sorted.sort();
        assert_eq!(sorted, vec![1, 2, 3, 4, 5, 6, 7, 8, 9]);
        if digits != sorted {
            reordered = true;
        }
    }
    assert!(reordered);
}

#[test]
fn seeded_grid_has_a_solution() {
    let mut field = open_grid();
    field.set_value(0, 0, 5);
    let mut rng = StdRng::seed_from_u64(2024);
    let solutions = field.find_solutions_with(1, &mut rng);
    assert_eq!(solutions.len(), 1);
    assert!(is_full_and_valid(&solutions[0]));
    assert_eq!(digit_at(&solutions[0], 0, 0), Some(5));
    assert!(extends(&field, &solutions[0]));
}

#[test]
fn search_leaves_the_grid_alone() {
    let mut field = open_grid();
    field.set_value(0, 0, 5);
    let before = digits_of(&field);
    let hints_before = match field.get_cell(1, 0).content {
        FieldContent::Hints(h) => h,
        _ => panic!("candidates expected"),
    };
    let mut rng = StdRng::seed_from_u64(5);
    let _ = field.find_solutions_with(1, &mut rng);
    assert_eq!(digits_of(&field), before);
    assert!(matches!(field.get_cell(1, 0).content, FieldContent::Hints(h) if h == hints_before));
}

#[test]
fn asking_for_two_gives_two_different_solutions() {
    let mut field = open_grid();
    field.set_value(3, 4, 8);
    let mut rng = StdRng::seed_from_u64(99);
    let solutions = field.find_solutions_with(2, &mut rng);
    assert_eq!(solutions.len(), 2);
    assert!(is_full_and_valid(&solutions[0]));
    assert!(is_full_and_valid(&solutions[1]));
    assert!(extends(&field, &solutions[0]));
    assert!(extends(&field, &solutions[1]));
    assert_ne!(digits_of(&solutions[0]), digits_of(&solutions[1]));
}

#[test]
fn asking_for_none_gives_none() {
    let mut rng = StdRng::seed_from_u64(1);
    let mut field = pattern_grid();
    assert_eq!(field.find_solutions_with(0, &mut rng).len(), 0);
    field.set_content(4, 4, FieldContent::Empty);
    assert_eq!(field.find_solutions_with(0, &mut rng).len(), 0);
    assert_eq!(field.find_solutions(0).len(), 0);
    let mut seeded = open_grid();
    seeded.set_value(0, 0, 5);
    assert_eq!(seeded.find_solutions_with(0, &mut rng).len(), 0);
}

#[test]
fn asking_for_one_gives_one() {
    let mut field = pattern_grid();
    for (x, y) in [(0, 0), (4, 4), (8, 8), (1, 7)] {
        field.set_content(x, y, FieldContent::Empty);
    }
    let mut rng = StdRng::seed_from_u64(1);
    let solutions = field.find_solutions_with(1, &mut rng);
    assert_eq!(solutions.len(), 1);
    assert_eq!(digits_of(&solutions[0]), digits_of(&pattern_grid()));
}

#[test]
fn full_grid_is_its_only_solution() {
    let field = pattern_grid();
    assert!(is_full_and_valid(&field));
    let mut rng = StdRng::seed_from_u64(3);
    for limit in [1u32, 2, 5] {
        let solutions = field.find_solutions_with(limit, &mut rng);
        assert_eq!(solutions.len(), 1);
        assert_eq!(digits_of(&solutions[0]), digits_of(&field));
    }
}

#[test]
fn full_grid_comes_back_with_its_flags() {
    let mut field = pattern_grid();
    field.get_cell_mut(6, 2).fixed = true;
    let mut rng = StdRng::seed_from_u64(3);
    let solutions = field.find_solutions_with(2, &mut rng);
    assert_eq!(solutions.len(), 1);
    for y in 0..9 {
        for x in 0..9 {
            assert_eq!(solutions[0].get_cell(x, y).fixed, (x, y) == (6, 2));
        }
    }
}

#[test]
fn full_grid_with_a_clash_has_no_solution() {
    let mut field = pattern_grid();
    field.set_content(0, 0, FieldContent::Digit(2));
    let mut rng = StdRng::seed_from_u64(3);
    assert_eq!(field.find_solutions_with(2, &mut rng).len(), 0);
    assert!(field.find_solution_with(&mut rng).is_none());
    assert!(field.find_solution().is_none());
}

#[test]
fn grid_of_ones_has_no_solution() {
    let mut field =
        Field { cells: [[Cell { content: FieldContent::Digit(1), fixed: false }; 9]; 9] };
    assert!(!field.follows_rules());
    assert!(field.find_solution().is_none());
    assert_eq!(field.find_solutions(2).len(), 0);
    field.fill_solution();
    for y in 0..9 {
        for x in 0..9 {
            assert_eq!(digit_at(&field, x, y), Some(1));
        }
    }
}

#[test]
fn repeated_given_leaves_no_solution() {
    let mut rng = StdRng::seed_from_u64(12);
    for (x, y) in [(5u8, 0u8), (0, 6), (2, 1)] {
        let mut field = open_grid();
        field.set_value(0, 0, 7);
        field.set_value(x, y, 7);
        assert!(!field.follows_rules());
        assert_eq!(field.find_solutions_with(2, &mut rng).len(), 0);
        assert!(field.find_solution_with(&mut rng).is_none());
        let before = digits_of(&field);
        field.fill_solution_with(&mut rng);
        assert_eq!(digits_of(&field), before);
    }
}

#[test]
fn digit_out_of_range_leaves_no_solution() {
    let mut rng = StdRng::seed_from_u64(13);
    for d in [0u8, 10, 255] {
        let mut field = pattern_grid();
        field.set_content(3, 3, FieldContent::Empty);
        field.set_content(6, 2, FieldContent::Digit(d));
        assert!(!field.follows_rules());
        assert_eq!(field.find_solutions_with(1, &mut rng).len(), 0);
        assert!(field.find_solution_with(&mut rng).is_none());
    }
}

#[test]
fn follows_rules_tells_valid_grids() {
    assert!(open_grid().follows_rules());
    assert!(pattern_grid().follows_rules());
    let mut field = pattern_grid();
    field.set_content(8, 8, FieldContent::Empty);
    field.set_content(0, 3, FieldContent::Hints([false; 9]));
    assert!(field.follows_rules());
    let mut boxed = open_grid();
    boxed.set_value(3, 3, 4);
    boxed.set_value(5, 5, 4);
    assert!(!boxed.follows_rules());
    let mut apart = open_grid();
    apart.set_value(3, 3, 4);
    apart.set_value(6, 6, 4);
    assert!(apart.follows_rules());
}

#[test]
fn single_gap_has_a_single_solution() {
    let mut field = pattern_grid();
    field.set_content(7, 2, FieldContent::Empty);
    let mut rng = StdRng::seed_from_u64(8);
    let solutions = field.find_solutions_with(2, &mut rng);
    assert_eq!(solutions.len(), 1);
    assert_eq!(digits_of(&solutions[0]), digits_of(&pattern_grid()));
}

fn count_completions(grid: &mut [[u8; 9]; 9]) -> usize {
    for y in 0..9 {
        for x in 0..9 {
            if grid[y][x] == 0 {
                let mut total = 0;
                for d in 1..=9u8 {
                    let clash = (0..9).any(|i| {
                        grid[y][i] == d
                            || grid[i][x] == d
                            || grid[y / 3 * 3 + i / 3][x / 3 * 3 + i % 3] == d
                    });
                    if !clash {
                        grid[y][x] = d;
                        total += count_completions(grid);
                        grid[y][x] = 0;
                    }
                }
                return total;
            }
        }
    }
    1
}

#[test]
fn search_finds_every_solution() {
    // The pattern without its ones and twos: the two digits can be put back
    // in several ways.
    let mut field = pattern_grid();
    let mut plain = [[0u8; 9]; 9];
    for y in 0..9u8 {
        for x in 0..9u8 {
            let d = digit_at(&field, x, y).unwrap();
            if d <= 2 {
                field.set_content(x, y, FieldContent::Empty);
            } else {
                plain[y as usize][x as usize] = d;
            }
        }
    }
    let expected = count_completions(&mut plain);
    assert!(expected >= 2);
    let mut rng = StdRng::seed_from_u64(21);
    let two = field.find_solutions_with(2, &mut rng);
    assert_eq!(two.len(), 2);
    let all = field.find_solutions_with(100_000, &mut rng);
    assert_eq!(all.len(), expected);
    for (i, s) in all.iter().enumerate() {
        assert!(is_full_and_valid(s));
        assert!(extends(&field, s));
        for t in &all[..i] {
            assert_ne!(digits_of(s), digits_of(t));
        }
    }
    let capped = field.find_solutions_with(expected as u32, &mut rng);
    assert_eq!(capped.len(), expected);
}

#[test]
fn grid_without_a_candidate_has_no_solution() {
    let mut field = open_grid();
    for x in 0..8u8 {
        field.set_value(x, 0, x + 1);
    }
    field.set_value(8, 1, 9);
    let mut rng = StdRng::seed_from_u64(4);
    assert_eq!(field.find_solutions_with(2, &mut rng).len(), 0);
    assert!(field.find_solution_with(&mut rng).is_none());
    let before = digits_of(&field);
    field.fill_solution_with(&mut rng);
    assert_eq!(digits_of(&field), before);
}

#[test]
fn find_solution_gives_a_completion() {
    let mut field = pattern_grid();
    for (x, y) in [(1, 1), (5, 5), (8, 0)] {
        field.set_content(x, y, FieldContent::Empty);
    }
    let mut rng = StdRng::seed_from_u64(6);
    let solution = field.find_solution_with(&mut rng).unwrap();
    assert_eq!(digits_of(&solution), digits_of(&pattern_grid()));
    let again = field.find_solution().unwrap();
    assert_eq!(digits_of(&again), digits_of(&pattern_grid()));
    assert_eq!(digit_at(&field, 1, 1), None);
}

#[test]
fn fill_solution_completes_the_grid() {
    let mut field = pattern_grid();
    field.get_cell_mut(0, 0).fixed = true;
    for (x, y) in [(2, 2), (6, 6)] {
        field.set_content(x, y, FieldContent::Empty);
    }
    let mut seeded = field;
    seeded.fill_solution_with(&mut StdRng::seed_from_u64(10));
    assert_eq!(digits_of(&seeded), digits_of(&pattern_grid()));
    assert!(seeded.get_cell(0, 0).fixed);
    assert!(!seeded.get_cell(2, 2).fixed);
    field.fill_solution();
    assert_eq!(digits_of(&field), digits_of(&pattern_grid()));
}

#[test]
fn find_solutions_with_its_own_source() {
    let mut field = pattern_grid();
    field.set_content(4, 0, FieldContent::Empty);
    let solutions = field.find_solutions(2);
    assert_eq!(solutions.len(), 1);
    assert_eq!(digits_of(&solutions[0]), digits_of(&pattern_grid()));
    assert_eq!(digit_at(&field, 4, 0), None);
}

#[test]
fn first_empty_reads_row_by_row() {
    let mut field = pattern_grid();
    assert_eq!(field.first_empty(), None);
    field.set_content(2, 5, FieldContent::Empty);
    field.set_content(7, 3, FieldContent::Hints([true; 9]));
    assert_eq!(field.first_empty(), Some(Coords { x: 7, y: 3 }));
    field.set_content(0, 4, FieldContent::Empty);
    assert_eq!(field.first_empty(), Some(Coords { x: 7, y: 3 }));
    assert_eq!(open_grid().first_empty(), Some(Coords { x: 0, y: 0 }));
}
