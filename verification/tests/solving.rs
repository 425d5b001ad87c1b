use sudoku::gameboard::Gameboard;
use sudoku::generator::Generator;
use sudoku::solver::Solver;

/// Collects the 81 digits of a board.
fn snapshot(gb: &Gameboard) -> Vec<u8> {
    let mut v = Vec::new();
    for row in 0..9 {
        for col in 0..9 {
            v.push(gb.get(row, col));
        }
    }
    v
}

/// Checks that a flat grid is a complete solution: every row, column and
/// section holds each digit 1..=9 exactly once.
fn assert_solved_grid(grid: &[u8]) {
    assert_eq!(grid.len(), 81);
    for row in 0..9 {
        let mut seen = [0usize; 10];
        for col in 0..9 {
            seen[grid[row * 9 + col] as usize] += 1;
        }
        assert_eq!(seen[0], 0);
        for d in 1..10 {
            assert_eq!(seen[d], 1);
        }
    }
    for col in 0..9 {
        let mut seen = [0usize; 10];
        for row in 0..9 {
            seen[grid[row * 9 + col] as usize] += 1;
        }
        for d in 1..10 {
            assert_eq!(seen[d], 1);
        }
    }
    for sec in 0..9 {
        let mut seen = [0usize; 10];
        for n in 0..9 {
            let row = 3 * (sec / 3) + n / 3;
            let col = 3 * (sec % 3) + n % 3;
            seen[grid[row * 9 + col] as usize] += 1;
        }
        for d in 1..10 {
            assert_eq!(seen[d], 1);
        }
    }
}

#[test]
fn test_solve_fills_empty_board() {
    let mut gb = Gameboard::new();
    gb.solve();
    assert!(gb.finished());
    assert!(!gb.invalid());
    assert_solved_grid(&snapshot(&gb));
}

#[test]
fn test_solve_is_idempotent_on_finished_board() {
    let mut gb = Gameboard::new();
    gb.solve();
    let before = snapshot(&gb);
    gb.solve();
    assert_eq!(snapshot(&gb), before);
}

#[test]
fn test_make_answer_list_finds_an_answer_and_restores_board() {
    let mut gb = Gameboard::new();
    gb.set(0, 0, 5);
    let before = snapshot(&gb);
    let answers = gb.make_answer_list(1);
    assert_eq!(answers.len(), 1);
    assert_solved_grid(&answers[0]);
    assert_eq!(answers[0][0], 5);
    assert_eq!(snapshot(&gb), before);
}

#[test]
fn test_make_answer_list_on_conflicted_board_is_empty() {
    let mut gb = Gameboard::new();
    gb.set(0, 0, 1);
    gb.set(0, 1, 1);
    assert!(gb.make_answer_list(1).is_empty());
}

#[test]
fn test_single_hole_board_has_unique_answer() {
    let mut gb = Gameboard::new();
    gb.solve();
    let solution = snapshot(&gb);
    gb.set(4, 4, 0);
    let answers = gb.make_answer_list(2);
    assert_eq!(answers.len(), 1);
    assert_eq!(answers[0], solution);
}

#[test]
fn test_empty_board_has_many_answers() {
    let mut gb = Gameboard::new();
    let answers = gb.make_answer_list(2);
    assert_eq!(answers.len(), 2);
    assert_ne!(answers[0], answers[1]);
    assert_solved_grid(&answers[0]);
    assert_solved_grid(&answers[1]);
}

#[test]
fn test_seeded_solver_is_reproducible() {
    let mut gb1 = Gameboard::new();
    let mut solver1 = Solver::with_seed(7);
    let answers1 = solver1.make_answer_list(&mut gb1, 1);

    let mut gb2 = Gameboard::new();
    let mut solver2 = Solver::with_seed(7);
    let answers2 = solver2.make_answer_list(&mut gb2, 1);

    assert_eq!(answers1.len(), 1);
    assert_eq!(answers1, answers2);
    assert_solved_grid(&answers1[0]);
}

#[test]
fn test_differently_seeded_solvers_disagree() {
    let mut gb1 = Gameboard::new();
    let answers1 = Solver::with_seed(1).make_answer_list(&mut gb1, 1);
    let mut gb2 = Gameboard::new();
    let answers2 = Solver::with_seed(2).make_answer_list(&mut gb2, 1);
    assert_ne!(answers1, answers2);
}

#[test]
fn test_generated_puzzle_is_uniquely_solvable() {
    let mut gb = Gameboard::new();
    let mut gen = Generator::with_seed(42);
    gen.generate(&mut gb);

    assert!(!gb.invalid());
    for row in 0..9 {
        for col in 0..9 {
            assert_eq!(gb.is_fixed(row, col), gb.get(row, col) != 0);
        }
    }
    let holes = snapshot(&gb).iter().filter(|&&d| d == 0).count();
    assert!(holes <= 45);
    assert!(81 - holes >= 36);

    let answers = gb.make_answer_list(2);
    assert_eq!(answers.len(), 1);
    assert_solved_grid(&answers[0]);
}

#[test]
fn test_quota_zero_returns_no_answers() {
    let mut gb = Gameboard::new();
    gb.solve();
    let before = snapshot(&gb);
    let answers = gb.make_answer_list(0);
    assert!(answers.is_empty());
    assert_eq!(snapshot(&gb), before);
}

#[test]
fn test_solve_keeps_generated_clues() {
    let mut gb = Gameboard::new();
    let mut gen = Generator::with_seed(3);
    gen.generate(&mut gb);
    let puzzle = snapshot(&gb);

    gb.solve();
    assert!(gb.finished());
    let solved = snapshot(&gb);
    for p in 0..81 {
        if puzzle[p] != 0 {
            assert_eq!(solved[p], puzzle[p]);
        }
    }
}

#[test]
fn test_board_generate_interface() {
    let mut gb = Gameboard::new();
    gb.generate();
    assert!(!gb.invalid());
    for row in 0..9 {
        for col in 0..9 {
            assert_eq!(gb.is_fixed(row, col), gb.get(row, col) != 0);
        }
    }
    let holes = snapshot(&gb).iter().filter(|&&d| d == 0).count();
    assert!(holes <= 45);
    let answers = gb.make_answer_list(2);
    assert_eq!(answers.len(), 1);
}

#[test]
fn test_seeded_generator_is_reproducible() {
    let mut gb1 = Gameboard::new();
    Generator::with_seed(11).generate(&mut gb1);
    let mut gb2 = Gameboard::new();
    Generator::with_seed(11).generate(&mut gb2);
    assert_eq!(snapshot(&gb1), snapshot(&gb2));

    let mut gb3 = Gameboard::new();
    Generator::with_seed(12).generate(&mut gb3);
    assert_ne!(snapshot(&gb1), snapshot(&gb3));
}
