use sudoku_deduce::board::Board;
use sudoku_deduce::model::Cell;

fn digits_of(c: Cell) -> Vec<u8> {
    match c {
        Cell::Value(d) => vec![d],
        Cell::Possibilities(s) => {
            let mut v = Vec::new();
            let mut d: u8 = 1;
            while d <= 9 {
                if s.contains(d) {
                    v.push(d);
                }
                d += 1;
            }
            v
        },
    }
}

#[test]
fn all_blank_board_loads_fully_open() {
    let mut b = Board::new();
    let blank = "0".repeat(81);
    assert!(b.load_sudoku(&blank).is_ok());
    for i in 0..81 {
        assert_eq!(digits_of(b.cell_at(i)), vec![1, 2, 3, 4, 5, 6, 7, 8, 9]);
    }
}

#[test]
fn short_puzzle_is_rejected() {
    let mut b = Board::new();
    assert!(b.load_sudoku("530070000").is_err());
}

#[test]
fn non_digit_puzzle_is_rejected() {
    let mut b = Board::new();
    let mut s = "0".repeat(80);
    s.push('x');
    assert!(b.load_sudoku(&s).is_err());
}

#[test]
fn digits_load_as_fixed_values() {
    let mut b = Board::new();
    let mut s = String::from("5");
    s.push_str(&"0".repeat(80));
    assert!(b.load_sudoku(&s).is_ok());
    assert_eq!(digits_of(b.cell_at(0)), vec![5]);
}

#[test]
fn elimination_drops_fixed_peers_and_collapses() {
    let mut b = Board::new();
    // Row 0 holds 1..=8; cell 8 must collapse to 9.
    let mut s = String::from("12345678");
    s.push('0');
    s.push_str(&"0".repeat(72));
    assert!(b.load_sudoku(&s).is_ok());
    let progressed = b.check_solved_cells();
    assert!(progressed);
    assert_eq!(digits_of(b.cell_at(8)), vec![9]);
}

#[test]
fn stuck_on_empty_board() {
    let mut b = Board::new();
    let blank = "0".repeat(81);
    assert!(b.load_sudoku(&blank).is_ok());
    assert!(!b.check_solved_cells());
    assert!(!b.hidden_single());
    for i in 0..81 {
        assert_eq!(digits_of(b.cell_at(i)), vec![1, 2, 3, 4, 5, 6, 7, 8, 9]);
    }
}

#[test]
fn solve_terminates_and_stays_stuck_on_blank_board() {
    let mut b = Board::new();
    let blank = "0".repeat(81);
    assert!(b.load_sudoku(&blank).is_ok());
    b.solve();
    for i in 0..81 {
        assert_eq!(digits_of(b.cell_at(i)), vec![1, 2, 3, 4, 5, 6, 7, 8, 9]);
    }
}

#[test]
fn solve_finishes_canonical_puzzle() {
    let puzzle = "530070000600195000098000060800060003400803001700020006060000280000419005000080079";
    let solution = "534678912672195348198342567859761423426853791713924856961537284287419635345286179";
    let mut b = Board::new();
    assert!(b.load_sudoku(puzzle).is_ok());
    b.solve();
    assert!(b.is_solved());
    for i in 0..81 {
        let want = solution.as_bytes()[i] - b'0';
        assert_eq!(digits_of(b.cell_at(i)), vec![want]);
    }
}

#[test]
fn removal_without_collapse_reports_no_progress() {
    let mut b = Board::new();
    // One fixed digit, everything else wide open: elimination removes the
    // digit from the peers but collapses nothing, so the rule reports no
    // collapse.
    let mut s = String::from("1");
    s.push_str(&"0".repeat(80));
    assert!(b.load_sudoku(&s).is_ok());
    assert!(!b.check_solved_cells());
    assert_eq!(digits_of(b.cell_at(1)), vec![2, 3, 4, 5, 6, 7, 8, 9]);
    assert_eq!(digits_of(b.cell_at(80)), vec![1, 2, 3, 4, 5, 6, 7, 8, 9]);
}
