use sudoku::Board;
use sudoku::Level;
use sudoku::SolveError;
use sudoku::parse_board;
use sudoku::solve;

const PUZZLE: &str = "530070000600195000098000060800060003400803001700020006060000280000419005000080079";

const SOLUTION: &str =
    "534678912672195348198342567859761423426853791713924856961537284287419635345286179";

fn parse(text: &str) -> Board {
    parse_board(&text.as_bytes().to_vec()).expect("input must hold 81 digits")
}

fn grid_of(values: &str) -> String {
    let mut out = String::new();
    for r in 0..9 {
        out.push_str(&values[r * 9..(r + 1) * 9]);
        out.push('\n');
    }
    out
}

fn value_at(rendered: &str, r: usize, c: usize) -> u32 {
    rendered.as_bytes()[r * 10 + c] as u32 - '0' as u32
}

#[test]
fn canonical_puzzle_solves_to_known_grid() {
    let board = parse(PUZZLE);
    let solved = solve(board, Level::new()).expect("the canonical puzzle has a solution");
    assert_eq!(solved.render(), grid_of(SOLUTION));
}

#[test]
fn solved_output_has_every_value_once_per_unit() {
    let solved = solve(parse(PUZZLE), Level::new()).unwrap();
    let rendered = solved.render();
    for w in 1..=9u32 {
        for u in 0..9 {
            let row = (0..9).filter(|&c| value_at(&rendered, u, c) == w).count();
            let col = (0..9).filter(|&r| value_at(&rendered, r, u) == w).count();
            let block = (0..9)
                .filter(|&k| value_at(&rendered, u / 3 * 3 + k / 3, u % 3 * 3 + k % 3) == w)
                .count();
            assert_eq!(row, 1);
            assert_eq!(col, 1);
            assert_eq!(block, 1);
        }
    }
}

#[test]
fn solved_input_is_returned_unchanged() {
    let board = parse(SOLUTION);
    let before = board.render();
    let solved = solve(board, Level::new()).expect("a valid full grid is its own solution");
    assert_eq!(solved.render(), before);
    assert_eq!(solved.render(), grid_of(SOLUTION));
}

#[test]
fn resolving_own_output_returns_the_identical_board() {
    let once = solve(parse(PUZZLE), Level::new()).unwrap();
    let again = solve(once.duplicate(), Level::new()).expect("a solved board solves again");
    assert_eq!(again.render(), once.render());
}

#[test]
fn duplicate_fixed_values_are_reported() {
    // Cells 0 and 1 of the first row both hold 5: the givens themselves
    // collide, and the second of the pair is reported.
    let mut text = String::from("55");
    text.push_str(&"0".repeat(79));
    let board = parse(&text);
    let err = solve(board, Level::new()).unwrap_err();
    assert_eq!(err, SolveError::DuplicateCell(1));
    assert_eq!(err.message(), "duplicate cell at 1");
}

#[test]
fn solved_grid_with_duplicate_is_rejected() {
    // The canonical solution with its second cell overwritten by another 5:
    // fully solved, but invalid, and refused rather than echoed back.
    let mut text = String::from(SOLUTION);
    text.replace_range(1..2, "5");
    let board = parse(&text);
    let err = solve(board, Level::new()).unwrap_err();
    assert_eq!(err, SolveError::DuplicateCell(1));
}

#[test]
fn forced_duplicate_in_propagation_is_reported() {
    // Columns 0 and 1 each hold 1,2,3,4,6,7,8,9, pairing the same value twice
    // in every one of rows 1..=8; both columns force cell 0 and cell 1 to 5,
    // and elimination reports the collision when promoting the second.
    let mut text = String::from("000000000");
    for z in ['1', '2', '3', '4', '6', '7', '8', '9'] {
        text.push(z);
        text.push(z);
        text.push_str("0000000");
    }
    let board = parse(&text);
    let err = sudoku::eliminate(board, Level::new()).unwrap_err();
    assert_eq!(err, SolveError::DuplicateCell(0));
}

#[test]
fn forced_collision_during_solve_is_reported() {
    // No two givens collide, yet the row of cells 0 and 1 covers 1..=8 minus
    // 5 and each of their columns adds a 9, forcing both cells to 5.
    let mut text = String::from("001234678");
    text.push_str(&"0".repeat(27));
    text.push_str("900000000");
    text.push_str(&"0".repeat(18));
    text.push_str("090000000");
    text.push_str(&"0".repeat(9));
    let board = parse(&text);
    let err = solve(board, Level::new()).unwrap_err();
    assert_eq!(err, SolveError::DuplicateCell(0));
    assert_eq!(err.message(), "duplicate cell at 0");
}

#[test]
fn stalled_board_is_a_fixed_point_of_elimination() {
    let mut text = String::from("012345670");
    text.push_str(&"0".repeat(72));
    let (stalled, full) = sudoku::eliminate(parse(&text), Level::new()).unwrap();
    assert!(!full);
    let before = stalled.render();
    let (again, full_again) = sudoku::eliminate(stalled, Level::new()).unwrap();
    assert!(!full_again);
    assert_eq!(again.render(), before);
}

#[test]
fn emptied_candidate_set_is_reported() {
    // The row of cell 0 covers 1..=8 and its column adds 9: propagation
    // leaves cell 0 with no candidate at all.
    let mut text = String::from("012345678900000000");
    text.push_str(&"0".repeat(63));
    let board = parse(&text);
    let err = solve(board, Level::new()).unwrap_err();
    assert_eq!(err, SolveError::UnsolvableCell(0));
    assert_eq!(err.message(), "unsolvable cell at 0");
}

#[test]
fn exhausted_search_is_reported() {
    // Rows 0 and 1 confine four cells of block 0 to the two values 1 and 2:
    // propagation stalls, and both guesses for the first cell collide.
    let mut text = String::from("003456789007389456");
    text.push_str(&"0".repeat(63));
    let board = parse(&text);
    let err = solve(board, Level::new()).unwrap_err();
    assert_eq!(err, SolveError::AllAssumptionsContradicted);
    assert_eq!(err.message(), "all assumptions contradicted");
}

#[test]
fn minimum_remaining_values_cell_is_selected() {
    // After propagation stalls, cell 0 is the first cell with only two
    // candidates (8 and 9); every other undetermined cell keeps more.
    let mut text = String::from("012345670");
    text.push_str(&"0".repeat(72));
    let board = parse(&text);
    let (stalled, full) = sudoku::eliminate(board, Level::new()).unwrap();
    assert!(!full);
    assert_eq!(sudoku::select_cell(&stalled), Some(0));
}

#[test]
fn selection_prefers_smaller_candidate_sets() {
    // Row 4 squeezes cell 40 down to the pair 8 and 9, while every
    // undetermined cell before it keeps six or more candidates.
    let mut text = "0".repeat(36);
    text.push_str("123405670");
    text.push_str(&"0".repeat(36));
    let board = parse(&text);
    let (stalled, full) = sudoku::eliminate(board, Level::new()).unwrap();
    assert!(!full);
    assert_eq!(sudoku::select_cell(&stalled), Some(40));
}

#[test]
fn eighty_digits_fail_at_the_boundary() {
    let text = &SOLUTION[..80];
    let err = parse_board(&text.as_bytes().to_vec()).unwrap_err();
    assert_eq!(err, SolveError::InvalidData);
    assert_eq!(err.message(), "invalid data");
}

#[test]
fn eighty_two_digits_fail_at_the_boundary() {
    let mut text = String::from(SOLUTION);
    text.push('0');
    let err = parse_board(&text.as_bytes().to_vec()).unwrap_err();
    assert_eq!(err, SolveError::InvalidData);
}

#[test]
fn non_digit_bytes_are_skipped() {
    let mut text = String::new();
    for r in 0..9 {
        text.push_str(&PUZZLE[r * 9..(r + 1) * 9]);
        text.push('\n');
    }
    let board = parse(&text);
    let solved = solve(board, Level::new()).unwrap();
    assert_eq!(solved.render(), grid_of(SOLUTION));
}

#[test]
fn unknown_cells_render_as_spaces() {
    let board = parse(&"0".repeat(81));
    let rendered = board.render();
    assert_eq!(rendered.len(), 90);
    for r in 0..9 {
        assert_eq!(&rendered[r * 10..r * 10 + 10], "         \n");
    }
}

#[test]
fn messages_carry_two_digit_indices() {
    assert_eq!(SolveError::UnsolvableCell(42).message(), "unsolvable cell at 42");
    assert_eq!(SolveError::DuplicateCell(80).message(), "duplicate cell at 80");
}

#[test]
fn depth_levels_count_up_from_zero() {
    let top = Level::new();
    assert_eq!(top.depth, 0);
    assert_eq!(top.deeper().depth, 1);
    assert_eq!(top.deeper().deeper().depth, 2);
}
