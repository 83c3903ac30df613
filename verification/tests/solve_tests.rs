use rand::SeedableRng;
use sudoku::{gen_board, solve_puzzle, valid_board};

fn run_solve_puzzle_test(dim: usize, test_name: &str) {
    let seed = test_name
        .bytes()
        .fold(dim as u64, |acc, b| acc.wrapping_mul(31).wrapping_add(b as u64));
    let mut rng = rand::rngs::StdRng::seed_from_u64(seed);
    let board = gen_board(dim, &mut rng).unwrap();
    let mut solved = board.clone();
    solve_puzzle(&mut solved);
    assert!(
        valid_board(&solved),
        "Invalid board solved for {}",
        test_name
    );

    for row in 0..dim {
        for col in 0..dim {
            if board.get_value(row, col) != 0 {
                assert!(
                    board.get_value(row, col) == solved.get_value(row, col),
                    "Board solve failed for {} at ({}, {})",
                    test_name,
                    row,
                    col
                );
            }
        }
    }
}

#[test]
fn solve_puzzle_test_1() {
    run_solve_puzzle_test(9, "test no. 1")
}

#[test]
fn solve_puzzle_test_2() {
    run_solve_puzzle_test(9, "test no. 2")
}

#[test]
fn solve_puzzle_test_3() {
    run_solve_puzzle_test(9, "test no. 3")
}

#[test]
fn solve_puzzle_test_4() {
    run_solve_puzzle_test(9, "test no. 4")
}

#[test]
fn solve_puzzle_test_5() {
    run_solve_puzzle_test(9, "test no. 5")
}

#[test]
fn solve_puzzle_test_6() {
    run_solve_puzzle_test(9, "test no. 6")
}

#[test]
fn solve_puzzle_test_7() {
    run_solve_puzzle_test(9, "test no. 7")
}

#[test]
fn solve_puzzle_test_8() {
    run_solve_puzzle_test(9, "test no. 8")
}

#[test]
fn solve_puzzle_test_9() {
    run_solve_puzzle_test(9, "test no. 9")
}

#[test]
fn solve_puzzle_test_10() {
    run_solve_puzzle_test(9, "test no. 10")
}

#[test]
fn solve_puzzle_test_11() {
    run_solve_puzzle_test(9, "test no. 11")
}

#[test]
fn solve_puzzle_test_12() {
    run_solve_puzzle_test(9, "test no. 12")
}

#[test]
fn solve_puzzle_test_13() {
    run_solve_puzzle_test(9, "test no. 13")
}

#[test]
fn solve_puzzle_test_14() {
    run_solve_puzzle_test(9, "test no. 14")
}

#[test]
fn solve_puzzle_test_15() {
    run_solve_puzzle_test(9, "test no. 15")
}

#[test]
fn solve_puzzle_test_16() {
    run_solve_puzzle_test(9, "test no. 16")
}

#[test]
fn solve_puzzle_test_17() {
    run_solve_puzzle_test(9, "test no. 17")
}

#[test]
fn solve_puzzle_test_18() {
    run_solve_puzzle_test(9, "test no. 18")
}

#[test]
fn solve_puzzle_test_19() {
    run_solve_puzzle_test(9, "test no. 19")
}

#[test]
fn solve_puzzle_test_20() {
    run_solve_puzzle_test(9, "test no. 20")
}
