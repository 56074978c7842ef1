use sudoku_engine::digit_set::DigitSet;
use sudoku_engine::sudoku::{constrain, generate_subtractive, Sudoku};
use sudoku_engine::topology::Topology;

/// A fixed, valid, solved grid.
fn solved_grid() -> Sudoku {
    let mut s = Sudoku::empty();
    for i in 0..81 {
        let r = i / 9;
        let c = i % 9;
        let v = ((r * 3 + r / 3 + c) % 9 + 1) as u8;
        s.set(i, v);
    }
    s
}

/// Whether the 81 values form a valid solved sudoku: every row, column and
/// box holds each digit exactly once.
fn is_valid_solution(g: &[u8; 81]) -> bool {
    let groups = [
        |u: usize, j: usize| (u / 9) * 9 + j,
        |u: usize, j: usize| u % 9 + 9 * j,
        |u: usize, j: usize| ((u / 27) * 27 + ((u % 9) / 3) * 3) + (j / 3) * 9 + j % 3,
    ];
    for s in 0..81 {
        for f in groups.iter() {
            let mut seen = [false; 10];
            for j in 0..9 {
                let v = g[f(s, j)] as usize;
                if v < 1 || v > 9 || seen[v] {
                    return false;
                }
                seen[v] = true;
            }
        }
    }
    true
}

fn to_array(s: &Sudoku) -> [u8; 81] {
    let mut a = [0u8; 81];
    for i in 0..81 {
        a[i] = s.get(i);
    }
    a
}

#[test]
fn constrain_on_a_solved_grid_returns_it() {
    let solved = solved_grid();
    let out = constrain(&solved);
    assert_eq!(out, Some(solved));
}

#[test]
fn constrain_on_the_empty_grid_is_undetermined() {
    let empty = Sudoku::empty();
    assert_eq!(constrain(&empty), None);
}

#[test]
fn constrain_reports_conflicting_peers_as_unsolvable() {
    let mut s = Sudoku::empty();
    s.set(0, 5);
    s.set(1, 5);
    assert_eq!(constrain(&s), None);
}

#[test]
fn constrain_solves_a_grid_with_one_hole() {
    let solved = solved_grid();
    let mut holed = solved;
    holed.set(40, 0);
    let out = constrain(&holed);
    assert_eq!(out, Some(solved));
}

#[test]
fn eliminate_of_an_absent_digit_changes_nothing() {
    let topo = Topology::new();
    let five = DigitSet::new(5);
    let mut grid = [DigitSet::full(); 81];
    for i in 0..81 {
        grid[i] = grid[i].sub(five);
    }
    let before = grid;
    let ok = sudoku_engine::propagate::eliminate(&topo, &mut grid, 17, five);
    assert!(ok);
    for i in 0..81 {
        assert_eq!(grid[i], before[i]);
    }
}

#[test]
fn random_solution_is_a_valid_grid() {
    let s = Sudoku::generate_random_solution();
    assert!(s.filled());
    assert!(is_valid_solution(&to_array(&s)));
}

#[test]
fn constrain_reproduces_a_generated_solution() {
    let s = Sudoku::generate_random_solution();
    assert_eq!(constrain(&s), Some(s));
}

#[test]
fn subtractive_puzzle_reproduces_its_solution() {
    let (puzzle, solution) = generate_subtractive(30);
    assert!(is_valid_solution(&solution));
    assert_eq!(puzzle.count_cues(), 30);
    for i in 0..81 {
        let v = puzzle.get(i);
        assert!(v == 0 || v == solution[i]);
    }
    let sol = constrain(&puzzle).expect("the dug puzzle must stay uniquely solvable");
    assert_eq!(to_array(&sol), solution);
}

#[test]
fn subtractive_puzzle_with_all_cues_kept() {
    let (puzzle, solution) = generate_subtractive(81);
    assert_eq!(puzzle.count_cues(), 81);
    assert_eq!(to_array(&puzzle), solution);
}

#[test]
fn additive_puzzle_has_exact_cue_count_and_reproduces_its_solution() {
    let (puzzle, solution) = sudoku_engine::sudoku::_generate_additive(24);
    assert!(is_valid_solution(&solution));
    assert_eq!(puzzle.count_cues(), 24);
    for i in 0..81 {
        let v = puzzle.get(i);
        assert!(v == 0 || v == solution[i]);
    }
    let sol = constrain(&puzzle).expect("the additive puzzle must solve by propagation alone");
    assert_eq!(to_array(&sol), solution);
}

#[test]
fn empty_and_set_and_queries() {
    let mut s = Sudoku::empty();
    assert_eq!(s.count_cues(), 0);
    assert!(!s.filled());
    assert!(s.is_zero(0, 0));
    s.set(3, 7);
    assert!(!s.is_zero(3, 0));
    assert!(s.is_zero(3, 1));
    assert_eq!(s.get(3), 7);
    assert_eq!(s.count_cues(), 1);
    s.set(3, 0);
    assert_eq!(s.count_cues(), 0);
}

#[test]
fn count_filled_units_counts_per_cell_and_unit() {
    let empty = Sudoku::empty();
    assert_eq!(empty.count_filled_units(), 0);
    let solved = solved_grid();
    assert_eq!(solved.count_filled_units(), 243);
    let mut one_row = Sudoku::empty();
    for i in 0..9 {
        one_row.set(i, (i + 1) as u8);
    }
    // each of the nine cells of the filled row counts its row unit once
    assert_eq!(one_row.count_filled_units(), 9);
}

#[test]
fn filled_detects_a_single_hole() {
    let mut s = solved_grid();
    assert!(s.filled());
    s.set(80, 0);
    assert!(!s.filled());
}
