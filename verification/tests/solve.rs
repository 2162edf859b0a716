use sudoku_solver::adj_mat::AdjacencyMatrix;
use sudoku_solver::solver::Solver;
use sudoku_solver::sudoku::number::Number;
use sudoku_solver::{get_solution, solve, SolveError, Sudoku};

const CLASSIC: &str = "530070000600195000098000060800060003400803001700020006060000280000419005000080079";
const CLASSIC_SOLVED: &str = "534678912672195348198342567859761423426853791713924856961537284287419635345286179";

fn numbers(digits: &str) -> Vec<u8> {
    digits.bytes().map(|b| b - b'0').collect()
}

fn puzzle_of(digits: &str) -> Sudoku {
    Sudoku::from_numbers(&numbers(digits)).expect("81 digits")
}

fn digit_at(puzzle: &Sudoku, cell: usize) -> u8 {
    u8::from(puzzle.index(cell / 9, cell % 9))
}

fn conflicts(a: usize, b: usize) -> bool {
    a != b
        && (a / 9 == b / 9
            || a % 9 == b % 9
            || (a / 27 == b / 27 && (a % 9) / 3 == (b % 9) / 3))
}

#[test]
fn test_solve() {
    let unsolved = "\
+---+---+---+
|53 | 7 |   |
|6  |195|   |
| 98|   | 6 |
+---+---+---+
|8  | 6 |  3|
|4  |8 3|  1|
|7  | 2 |  6|
+---+---+---+
| 6 |   |28 |
|   |419|  5|
|   | 8 | 79|
+---+---+---+";
    let solved = "\
+---+---+---+
|534|678|912|
|672|195|348|
|198|342|567|
+---+---+---+
|859|761|423|
|426|853|791|
|713|924|856|
+---+---+---+
|961|537|284|
|287|419|635|
|345|286|179|
+---+---+---+";

    let puzzle = Sudoku::from_string(unsolved).expect("Parse failure!");
    let expected = Sudoku::from_string(solved).expect("Parse failure!");

    let actual = solve(&puzzle).expect("Could not solve puzzle!");
    assert_eq!(actual, expected);
    assert_eq!(puzzle.is_solved(), false);
    assert_eq!(actual.is_solved(), true);
    assert_eq!(expected.is_solved(), true);
}

#[test]
fn classic_puzzle_from_numbers() {
    let puzzle = puzzle_of(CLASSIC);
    let expected = puzzle_of(CLASSIC_SOLVED);
    let actual = solve(&puzzle).expect("solvable");
    assert_eq!(actual, expected);
    assert!(actual.is_solved());
    for cell in 0..81 {
        assert_eq!(digit_at(&actual, cell), numbers(CLASSIC_SOLVED)[cell]);
    }
}

#[test]
fn solution_has_no_conflicts_and_no_gaps() {
    let solution = solve(&puzzle_of(CLASSIC)).expect("solvable");
    for a in 0..81 {
        assert_ne!(solution.index(a / 9, a % 9), Number::Empty);
        for b in 0..81 {
            if conflicts(a, b) {
                assert_ne!(digit_at(&solution, a), digit_at(&solution, b));
            }
        }
    }
}

#[test]
fn solution_keeps_the_givens() {
    let puzzle = puzzle_of(CLASSIC);
    let solution = solve(&puzzle).expect("solvable");
    for cell in 0..81 {
        if digit_at(&puzzle, cell) != 0 {
            assert_eq!(digit_at(&solution, cell), digit_at(&puzzle, cell));
        }
    }
}

#[test]
fn solving_twice_gives_the_same() {
    let puzzle = puzzle_of(CLASSIC);
    let first = solve(&puzzle).expect("solvable");
    let second = solve(&puzzle).expect("solvable");
    assert_eq!(first, second);
    assert_eq!(first.is_solved(), second.is_solved());
    assert_eq!(first.pretty_print(), second.pretty_print());
}

#[test]
fn empty_grid_gives_the_first_solution() {
    let puzzle = Sudoku::from_numbers(&[0u8; 81]).expect("81 numbers");
    let solution = solve(&puzzle).expect("solvable");
    let expected = puzzle_of(
        "123456789456789123789123456214365897365897214897214365531642978642978531978531642",
    );
    assert_eq!(solution, expected);
}

#[test]
fn same_digit_twice_in_a_row_is_unsolvable() {
    let mut nums = [0u8; 81];
    nums[0] = 5;
    nums[8] = 5;
    let puzzle = Sudoku::from_numbers(&nums).expect("81 numbers");
    assert!(solve(&puzzle).is_none());
}

#[test]
fn same_digit_twice_in_a_column_or_box_is_unsolvable() {
    let mut nums = [0u8; 81];
    nums[4] = 7;
    nums[76] = 7;
    assert!(solve(&Sudoku::from_numbers(&nums).expect("81 numbers")).is_none());

    let mut nums = [0u8; 81];
    nums[30] = 2;
    nums[40] = 2;
    assert!(solve(&Sudoku::from_numbers(&nums).expect("81 numbers")).is_none());
}

#[test]
fn givens_without_clash_but_without_solution() {
    // The first row lacks only a nine in its last cell, and the last column
    // holds a nine already.
    let mut nums = [0u8; 81];
    for col in 0..8 {
        nums[col] = (col + 1) as u8;
    }
    nums[17] = 9;
    let puzzle = Sudoku::from_numbers(&nums).expect("81 numbers");
    assert!(solve(&puzzle).is_none());
}

#[test]
fn full_grid_is_its_own_solution() {
    let puzzle = puzzle_of(CLASSIC_SOLVED);
    assert!(puzzle.is_solved());
    let solution = solve(&puzzle).expect("a full valid grid");
    assert_eq!(solution, puzzle);
    assert!(solution.is_solved());
}

#[test]
fn full_grid_with_a_clash_is_unsolvable() {
    let mut nums = numbers(CLASSIC_SOLVED);
    nums[80] = nums[79];
    let puzzle = Sudoku::from_numbers(&nums).expect("81 numbers");
    assert!(solve(&puzzle).is_none());
}

#[test]
fn one_open_cell() {
    let mut nums = numbers(CLASSIC_SOLVED);
    nums[40] = 0;
    let solution = solve(&Sudoku::from_numbers(&nums).expect("81 numbers")).expect("solvable");
    assert_eq!(solution, puzzle_of(CLASSIC_SOLVED));
}

#[test]
fn solver_checks_single_cells() {
    let solver = Solver::new(&puzzle_of(CLASSIC));
    for cell in 0..81 {
        assert!(solver.num_works(cell / 9, cell % 9));
    }
    let mut nums = [0u8; 81];
    nums[0] = 5;
    nums[8] = 5;
    nums[80] = 5;
    let solver = Solver::new(&Sudoku::from_numbers(&nums).expect("81 numbers"));
    assert!(!solver.num_works(0, 0));
    assert!(!solver.num_works(0, 8));
    assert!(solver.num_works(0, 4));
    assert!(!solver.num_works(8, 8));
    assert!(solver.solve().is_none());
}

#[test]
fn conflict_table_is_symmetric_and_irreflexive() {
    let table = AdjacencyMatrix::new();
    let mut count = 0;
    for a in 0..81 {
        assert!(!table.index(a, a));
        for b in 0..81 {
            assert_eq!(table.index(a, b), table.index(b, a));
            assert_eq!(table.index(a, b), conflicts(a, b));
            if table.index(a, b) {
                count += 1;
            }
        }
    }
    assert_eq!(count, 81 * 20);
    assert!(table.index(0, 8));
    assert!(table.index(0, 72));
    assert!(table.index(0, 20));
    assert!(!table.index(0, 21));
    assert!(!table.index(40, 0));
}

#[test]
fn get_solution_reads_and_solves() {
    let text = puzzle_of(CLASSIC).pretty_print();
    let solution = get_solution(&text).expect("solvable");
    assert_eq!(solution, puzzle_of(CLASSIC_SOLVED));
}

#[test]
fn get_solution_tells_the_errors_apart() {
    assert_eq!(get_solution("no puzzle").unwrap_err(), SolveError::ParseError);
    let mut nums = [0u8; 81];
    nums[0] = 5;
    nums[8] = 5;
    let text = Sudoku::from_numbers(&nums).expect("81 numbers").pretty_print();
    assert_eq!(get_solution(&text).unwrap_err(), SolveError::Unsolvable);
}
