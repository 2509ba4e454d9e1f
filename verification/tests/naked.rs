use sudoku_deduce::board::Board;
use sudoku_deduce::digits::DigitSet;
use sudoku_deduce::model::Cell;

fn pair_47() -> DigitSet {
    DigitSet::empty().insert(4).insert(7)
}

fn digits_of(c: Cell) -> Vec<u8> {
    match c {
        Cell::Value(d) => vec![d],
        Cell::Possibilities(s) => {
            let mut v = Vec::new();
            let mut d: u8 = 1;
            while d <= 9 {
                if s.contains(d) {
                    v.push(d);
                }
                d += 1;
            }
            v
        }
    }
}

#[test]
fn naked_pair_purges_the_rest_of_the_row() {
    let mut b = Board::new();
    // Two cells of row 0 hold exactly {4,7}; the other seven still list
    // every digit, 4 and 7 among them.
    b.set_cell(0, Cell::Possibilities(pair_47()));
    b.set_cell(5, Cell::Possibilities(pair_47()));
    let reported = b.naked_pairs();
    assert!(reported);
    for i in 0..9 {
        let ds = digits_of(b.cell_at(i));
        if i == 0 || i == 5 {
            assert_eq!(ds, vec![4, 7]);
        } else {
            assert!(!ds.contains(&4));
            assert!(!ds.contains(&7));
            assert_eq!(ds, vec![1, 2, 3, 5, 6, 8, 9]);
        }
    }
    // The rest of the board is untouched.
    for i in 9..81 {
        assert_eq!(digits_of(b.cell_at(i)), vec![1, 2, 3, 4, 5, 6, 7, 8, 9]);
    }
}

#[test]
fn naked_pair_report_without_change_at_fixed_point() {
    let mut b = Board::new();
    b.set_cell(0, Cell::Possibilities(pair_47()));
    b.set_cell(5, Cell::Possibilities(pair_47()));
    assert!(b.naked_pairs());
    let snapshot: Vec<Vec<u8>> = (0..81).map(|i| digits_of(b.cell_at(i))).collect();
    // The pair is still there, so the rule still reports it; but applying
    // it again removes nothing.
    assert!(b.naked_pairs());
    let after: Vec<Vec<u8>> = (0..81).map(|i| digits_of(b.cell_at(i))).collect();
    assert_eq!(snapshot, after);
}

#[test]
fn no_naked_subset_on_a_fresh_board() {
    let mut b = Board::new();
    assert!(!b.naked_pairs());
}

#[test]
fn hidden_single_fixes_the_only_cell_for_a_digit() {
    let mut b = Board::new();
    // In the top-left block, digit 5 fits only at cell 0: the other eight
    // cells list {1,4} while cell 0 lists {4,5}.
    b.set_cell(0, Cell::Possibilities(DigitSet::empty().insert(4).insert(5)));
    for &i in &[1usize, 2, 9, 10, 11, 18, 19, 20] {
        b.set_cell(i, Cell::Possibilities(DigitSet::empty().insert(1).insert(4)));
    }
    assert!(b.hidden_single());
    assert_eq!(digits_of(b.cell_at(0)), vec![5]);
}
