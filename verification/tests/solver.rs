use takuzu::Cell;
use takuzu::CheckResult;
use takuzu::check;
use takuzu::clone_grid;
use takuzu::get_cell;
use takuzu::get_field;
use takuzu::pick_cell;
use takuzu::render_grid;
use takuzu::set_cell;
use takuzu::simple_solve;
use takuzu::solve;

fn grid_of(rows: &[&str]) -> Vec<Vec<Cell>> {
    let n = rows.len();
    let lines: Vec<Vec<char>> = rows.iter().map(|s| s.chars().collect()).collect();
    get_field(n, &lines)
}

fn rows_of(fd: &Vec<Vec<Cell>>) -> Vec<String> {
    render_grid(fd).iter().map(|line| line.iter().collect()).collect()
}

#[test]
fn parses_clues_and_dots() {
    let fd = grid_of(&["10..", ".01.", "....", "1..0"]);
    assert_eq!(fd[0][0], Cell::Seal(1));
    assert_eq!(fd[0][1], Cell::Seal(0));
    assert_eq!(fd[0][2], Cell::Empty);
    assert_eq!(fd[1][1], Cell::Seal(0));
    assert_eq!(fd[1][2], Cell::Seal(1));
    assert_eq!(fd[2][0], Cell::Empty);
    assert_eq!(fd[3][3], Cell::Seal(0));
}

#[test]
fn short_line_leaves_rest_undetermined() {
    let lines: Vec<Vec<char>> = vec!["10".chars().collect(), vec![], "..1.".chars().collect(), "0".chars().collect()];
    let fd = get_field(4, &lines);
    assert_eq!(fd[0][0], Cell::Seal(1));
    assert_eq!(fd[0][2], Cell::Empty);
    assert_eq!(fd[0][3], Cell::Empty);
    assert_eq!(fd[1], vec![Cell::Empty; 4]);
    assert_eq!(fd[2][2], Cell::Seal(1));
    assert_eq!(fd[3][0], Cell::Seal(0));
    assert_eq!(fd[3][1], Cell::Empty);
}

#[test]
fn renders_cells_back_to_text() {
    let fd = grid_of(&["10..", ".01.", "....", "1..0"]);
    let rows = rows_of(&fd);
    assert_eq!(rows, vec!["10..", ".01.", "....", "1..0"]);
}

#[test]
fn already_solved_grid_classifies_solved() {
    let fd = grid_of(&["1001", "0011", "1100", "0110"]);
    assert_eq!(check(&fd), CheckResult::Solved);
}

#[test]
fn already_solved_grid_emits_itself_once() {
    let fd = grid_of(&["1001", "0011", "1100", "0110"]);
    let sols = solve(clone_grid(&fd));
    assert_eq!(sols.len(), 1);
    assert_eq!(sols[0], fd);
}

#[test]
fn triple_run_clue_classifies_invalid() {
    let fd = grid_of(&["1110", "....", "....", "...."]);
    assert_eq!(check(&fd), CheckResult::Invalid);
}

#[test]
fn triple_run_clue_emits_nothing() {
    let fd = grid_of(&["1110", "....", "....", "...."]);
    let sols = solve(fd);
    assert_eq!(sols.len(), 0);
}

#[test]
fn unbalanced_row_emits_nothing() {
    let fd = grid_of(&["0000", "....", "....", "...."]);
    assert_eq!(check(&fd), CheckResult::Invalid);
    let sols = solve(fd);
    assert_eq!(sols.len(), 0);
}

#[test]
fn propagation_extends_a_pair_forward() {
    let mut fd = grid_of(&[
        "11......", "........", "........", "........", "........", "........", "........",
        "........",
    ]);
    simple_solve(&mut fd);
    assert_eq!(fd[0][2], Cell::Seal(0));
    assert_eq!(fd[0][3], Cell::Empty);
}

#[test]
fn propagation_forces_cell_after_two_pairs() {
    let mut fd = grid_of(&[
        "1100....", "........", "........", "........", "........", "........", "........",
        "........",
    ]);
    simple_solve(&mut fd);
    assert_eq!(fd[0][2], Cell::Seal(0));
    assert_eq!(fd[0][4], Cell::Seal(1));
}

#[test]
fn propagation_fills_a_sandwich() {
    let mut fd = grid_of(&["1.1.", "....", "....", "...."]);
    simple_solve(&mut fd);
    assert_eq!(fd[0][1], Cell::Seal(0));
}

#[test]
fn propagation_keeps_every_clue() {
    let fd = grid_of(&["1100....", "0.......", "........", "....1...", "........", "........",
        "......0.", "........"]);
    let mut fd2 = clone_grid(&fd);
    simple_solve(&mut fd2);
    for i in 0..8 {
        for j in 0..8 {
            if fd[i][j] != Cell::Empty {
                assert_eq!(fd2[i][j], fd[i][j]);
            }
        }
    }
}

#[test]
fn propagation_is_idempotent() {
    let mut once = grid_of(&["1100....", "0.......", "........", "....1...", "........",
        "........", "......0.", "........"]);
    simple_solve(&mut once);
    let mut twice = clone_grid(&once);
    simple_solve(&mut twice);
    assert_eq!(once, twice);
}

#[test]
fn duplicate_full_rows_classify_invalid() {
    let fd = grid_of(&["1001", "1001", "....", "...."]);
    assert_eq!(check(&fd), CheckResult::Invalid);
}

#[test]
fn duplicate_full_columns_classify_invalid() {
    let fd = grid_of(&["11..", "00..", "00..", "11.."]);
    assert_eq!(check(&fd), CheckResult::Invalid);
}

#[test]
fn consistent_partial_grid_classifies_not_yet() {
    let fd = grid_of(&["10..", ".01.", "....", "1..0"]);
    assert_eq!(check(&fd), CheckResult::NotYet);
}

#[test]
fn pick_cell_scans_row_major() {
    let fd = grid_of(&["10.1", "....", "....", "...."]);
    assert_eq!(pick_cell(&fd), (0, 2));
    let fd2 = grid_of(&["1001", "0.11", "....", "...."]);
    assert_eq!(pick_cell(&fd2), (1, 1));
}

#[test]
fn set_cell_seals_one_cell() {
    let mut fd = grid_of(&["10..", "....", "....", "...."]);
    set_cell(&mut fd, 2, 3, 1);
    assert_eq!(fd[2][3], Cell::Seal(1));
    assert_eq!(fd[0][0], Cell::Seal(1));
    assert_eq!(fd[2][2], Cell::Empty);
}

#[test]
fn get_cell_reads_the_board() {
    let fd = grid_of(&["10..", ".01.", "....", "1..0"]);
    assert_eq!(get_cell(&fd, 0, 0), Cell::Seal(1));
    assert_eq!(get_cell(&fd, 1, 2), Cell::Seal(1));
    assert_eq!(get_cell(&fd, 2, 0), Cell::Empty);
}

#[test]
fn forced_last_row_completes_uniquely() {
    let fd = grid_of(&["1001", "0011", "1100", "...."]);
    let sols = solve(fd);
    assert_eq!(sols.len(), 1);
    assert_eq!(rows_of(&sols[0]), vec!["1001", "0011", "1100", "0110"]);
}

#[test]
fn open_two_by_two_grid_has_both_solutions_in_order() {
    let fd = grid_of(&["..", ".."]);
    let sols = solve(fd);
    assert_eq!(sols.len(), 2);
    assert_eq!(rows_of(&sols[0]), vec!["10", "01"]);
    assert_eq!(rows_of(&sols[1]), vec!["01", "10"]);
}

#[test]
fn every_emitted_grid_is_balanced_and_clean() {
    let fd = grid_of(&["....", "....", "01..", "...."]);
    let sols = solve(fd);
    assert!(sols.len() > 0);
    for sol in &sols {
        assert_eq!(sol[2][0], Cell::Seal(0));
        assert_eq!(sol[2][1], Cell::Seal(1));
        for i in 0..4 {
            let row0 = (0..4).filter(|&j| sol[i][j] == Cell::Seal(0)).count();
            let row1 = (0..4).filter(|&j| sol[i][j] == Cell::Seal(1)).count();
            let col0 = (0..4).filter(|&k| sol[k][i] == Cell::Seal(0)).count();
            let col1 = (0..4).filter(|&k| sol[k][i] == Cell::Seal(1)).count();
            assert_eq!(row0, 2);
            assert_eq!(row1, 2);
            assert_eq!(col0, 2);
            assert_eq!(col1, 2);
        }
        for i in 0..4 {
            for j in 0..2 {
                assert!(!(sol[i][j] == sol[i][j + 1] && sol[i][j] == sol[i][j + 2]));
                assert!(!(sol[j][i] == sol[j + 1][i] && sol[j][i] == sol[j + 2][i]));
            }
        }
        for a in 0..4 {
            for b in (a + 1)..4 {
                assert_ne!(sol[a], sol[b]);
                let col_a: Vec<Cell> = (0..4).map(|k| sol[k][a]).collect();
                let col_b: Vec<Cell> = (0..4).map(|k| sol[k][b]).collect();
                assert_ne!(col_a, col_b);
            }
        }
    }
}
