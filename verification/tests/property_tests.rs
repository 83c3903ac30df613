use rand::SeedableRng;
use std::collections::HashSet;
use sudoku::{gen_board, solve_puzzle, unique_soln, valid_board, Sudoku, SudokuError};

/// The canonical Latin-square-derived 9x9 grid.
fn canonical_grid() -> Sudoku {
    let rows: Vec<Vec<u8>> = vec![
        vec![1, 2, 3, 4, 5, 6, 7, 8, 9],
        vec![4, 5, 6, 7, 8, 9, 1, 2, 3],
        vec![7, 8, 9, 1, 2, 3, 4, 5, 6],
        vec![2, 3, 4, 5, 6, 7, 8, 9, 1],
        vec![5, 6, 7, 8, 9, 1, 2, 3, 4],
        vec![8, 9, 1, 2, 3, 4, 5, 6, 7],
        vec![3, 4, 5, 6, 7, 8, 9, 1, 2],
        vec![6, 7, 8, 9, 1, 2, 3, 4, 5],
        vec![9, 1, 2, 3, 4, 5, 6, 7, 8],
    ];
    let mut game = Sudoku::new(9).unwrap();
    for r in 0..9 {
        for c in 0..9 {
            game.set_value(r, c, rows[r][c]);
        }
    }
    game
}

/// A 4x4 grid whose upper two rows admit a rectangle swap: both
/// completions of the dug version are valid.
fn ambiguous_4x4() -> Sudoku {
    let rows: Vec<Vec<u8>> = vec![
        vec![0, 2, 0, 4],
        vec![0, 4, 0, 2],
        vec![2, 1, 4, 3],
        vec![4, 3, 2, 1],
    ];
    let mut game = Sudoku::new(4).unwrap();
    for r in 0..4 {
        for c in 0..4 {
            game.set_value(r, c, rows[r][c]);
        }
    }
    game
}

fn fill_full_board(dim: usize, seed: u64) -> (Sudoku, bool) {
    let mut rng = rand::rngs::StdRng::seed_from_u64(seed);
    let mut game = Sudoku::new(dim).unwrap();
    let mut nums: Vec<u8> = (1..(dim + 1) as u8).collect();
    let mut lk_up: HashSet<u32> = HashSet::new();
    let ok = game.fill_board(&mut lk_up, &mut nums, &mut rng);
    (game, ok)
}

#[test]
fn full_boards_are_filled_and_valid() {
    for dim in [1usize, 4, 9] {
        for seed in [7u64, 99] {
            let (game, ok) = fill_full_board(dim, seed);
            assert!(ok, "fill failed for dimension {}", dim);
            assert!(game.is_filled(), "board not filled for dimension {}", dim);
            assert!(valid_board(&game), "board not valid for dimension {}", dim);
        }
    }
}

#[test]
fn solve_is_idempotent_on_filled_board() {
    let board = canonical_grid();
    let mut solved = board.clone();
    let ok = solve_puzzle(&mut solved);
    assert!(ok);
    for r in 0..9 {
        for c in 0..9 {
            assert_eq!(solved.get_value(r, c), board.get_value(r, c));
        }
    }
}

#[test]
fn solve_preserves_given_cells() {
    let mut puzzle = canonical_grid();
    // Dig a diagonal band of cells out.
    for r in 0..9 {
        puzzle.set_value(r, r, 0);
        puzzle.set_value(r, (r + 3) % 9, 0);
    }
    let given = puzzle.clone();
    let ok = solve_puzzle(&mut puzzle);
    assert!(ok);
    assert!(puzzle.is_filled());
    assert!(valid_board(&puzzle));
    for r in 0..9 {
        for c in 0..9 {
            if given.get_value(r, c) != 0 {
                assert_eq!(puzzle.get_value(r, c), given.get_value(r, c));
            }
        }
    }
}

#[test]
fn solve_returns_false_on_clashing_board() {
    let mut grid = canonical_grid();
    grid.set_value(5, 2, 2); // row duplicate
    let before = grid.clone();
    let ok = solve_puzzle(&mut grid);
    assert!(!ok);
    for r in 0..9 {
        for c in 0..9 {
            assert_eq!(grid.get_value(r, c), before.get_value(r, c));
        }
    }
}

#[test]
fn unique_soln_rejects_two_completions() {
    let game = ambiguous_4x4();
    // Both 1 and 3 complete the board at (0, 0).
    assert!(!unique_soln(&game, 0, 0));
}

#[test]
fn unique_soln_accepts_forced_cell() {
    let mut game = canonical_grid();
    game.set_value(0, 0, 0);
    // Only the original 1 fits at (0, 0).
    assert!(unique_soln(&game, 0, 0));
}

#[test]
fn unique_soln_sweep_excludes_the_dimension() {
    // The only value completing (8, 0) is 9, which the candidate sweep
    // `1..9` never tries: zero found completions report `true`.
    let mut game = canonical_grid();
    game.set_value(8, 0, 0);
    assert!(unique_soln(&game, 8, 0));
}

#[test]
fn canonical_grid_is_valid_and_filled() {
    let game = canonical_grid();
    assert!(valid_board(&game));
    assert!(game.is_filled());
}

#[test]
fn row_duplicate_is_invalid() {
    let mut game = canonical_grid();
    game.set_value(5, 2, 2); // (5, 2) held 1; 2 already sits at (5, 3)
    assert!(!valid_board(&game));
}

#[test]
fn partial_board_is_not_valid() {
    let mut game = canonical_grid();
    game.set_value(4, 4, 0);
    assert!(!valid_board(&game));
}

#[test]
fn new_rejects_non_square_dimension() {
    assert!(matches!(Sudoku::new(8), Err(SudokuError::InvalidDimension)));
    assert!(matches!(Sudoku::new(0), Err(SudokuError::InvalidDimension)));
    assert!(matches!(
        Sudoku::new(226),
        Err(SudokuError::InvalidDimension)
    ));
    assert!(Sudoku::new(16).is_ok());
}

#[test]
fn gen_board_rejects_non_square_dimension() {
    let mut rng = rand::rngs::StdRng::seed_from_u64(5);
    assert!(matches!(
        gen_board(12, &mut rng),
        Err(SudokuError::InvalidDimension)
    ));
}

#[test]
fn gen_board_exhausts_retries_on_trivial_dimension() {
    // A 1x1 board loses its only value to the first dig; the second dig
    // then never finds a non-empty cell and gives up.
    let mut rng = rand::rngs::StdRng::seed_from_u64(11);
    assert!(matches!(
        gen_board(1, &mut rng),
        Err(SudokuError::ExhaustedRetry)
    ));
}

#[test]
fn duplicate_value_is_reported_with_position() {
    let mut game = canonical_grid();
    game.set_value(5, 2, 2);
    match game.make_lk_up() {
        Err(SudokuError::DuplicateValue { row, col, value }) => {
            // (5, 2) is the first scanned cell that clashes: the 2 written
            // there shares its box with the 2 at (3, 0).
            assert_eq!(row, 5);
            assert_eq!(col, 2);
            assert_eq!(value, 2);
        }
        _ => panic!("expected a duplicate-value report"),
    }
}

#[test]
fn puzzle_keeps_at_least_twenty_one_givens() {
    // Sixty dig attempts clear at most sixty of the eighty-one cells.
    let mut rng = rand::rngs::StdRng::seed_from_u64(77);
    let puzzle = gen_board(9, &mut rng).unwrap();
    let mut givens = 0;
    for r in 0..9 {
        for c in 0..9 {
            if puzzle.get_value(r, c) != 0 {
                givens += 1;
            }
        }
    }
    assert!(givens >= 21, "only {} givens left", givens);
}

#[test]
fn solver_is_deterministic() {
    let mut rng = rand::rngs::StdRng::seed_from_u64(2024);
    let puzzle = gen_board(9, &mut rng).unwrap();
    let mut first = puzzle.clone();
    let mut second = puzzle.clone();
    assert!(solve_puzzle(&mut first));
    assert!(solve_puzzle(&mut second));
    for r in 0..9 {
        for c in 0..9 {
            assert_eq!(first.get_value(r, c), second.get_value(r, c));
        }
    }
}

#[test]
fn generated_puzzle_solves_back_to_its_givens() {
    let mut rng = rand::rngs::StdRng::seed_from_u64(4242);
    let puzzle = gen_board(9, &mut rng).unwrap();
    assert!(valid_board(&puzzle) == puzzle.is_filled());
    let mut solved = puzzle.clone();
    assert!(solve_puzzle(&mut solved));
    assert!(valid_board(&solved));
    for r in 0..9 {
        for c in 0..9 {
            if puzzle.get_value(r, c) != 0 {
                assert_eq!(solved.get_value(r, c), puzzle.get_value(r, c));
            }
        }
    }
}
