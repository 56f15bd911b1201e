use slidy::puzzle::label::label::{FringeGrids, RowGrids};
use slidy::puzzle::puzzle::Puzzle;
use slidy::puzzle::solved::solved::{Columns, ColumnsSetwise, Rows, RowsSetwise};
use slidy::puzzle::solved_state::SolvedState;

#[test]
fn solved_test_rows() {
    let p = Puzzle::from_str("1 2 3 4/5 6 7 8/9 10 11 12/13 14 15 0").unwrap();
    assert!(p.is_solved::<Rows>());
}

#[test]
fn test_rows_2() {
    let p = Puzzle::from_str("1 2 3 4/5 6 7 8/9 0 11 12/13 14 15 10").unwrap();
    assert!(!p.is_solved::<Rows>());
}

#[test]
fn test_rows_3() {
    let p = Puzzle::from_str("1 2/3 4/5 6/7 8/9 10/11 12/13 14/15 16/17 18/19 0").unwrap();
    assert!(p.is_solved::<Rows>());
}

#[test]
fn test_rows_4() {
    let p = Puzzle::from_str("1 2/3 4/7 8/5 6/9 10/11 12/13 14/15 16/17 18/19 0").unwrap();
    assert!(!p.is_solved::<Rows>());
}

#[test]
fn test_columns() {
    let p = Puzzle::from_str("1 5 9 13/2 6 10 14/3 7 11 15/4 8 12 0").unwrap();
    assert!(p.is_solved::<Columns>());
}

#[test]
fn test_columns_2() {
    let p = Puzzle::from_str("1 5 9 13/6 2 10 14/3 7 11 15/8 4 12 0").unwrap();
    assert!(!p.is_solved::<Columns>());
}

#[test]
fn test_columns_3() {
    let p = Puzzle::from_str("1 11/2 12/3 13/4 14/5 15/6 16/7 17/8 18/9 19/10 0").unwrap();
    assert!(p.is_solved::<Columns>());
}

#[test]
fn test_columns_4() {
    let p = Puzzle::from_str("1 11/2 13/3 12/4 14/6 15/5 16/7 17/8 18/9 19/10 0").unwrap();
    assert!(!p.is_solved::<Columns>());
}

#[test]
fn setwise_solved_states() {
    let p = Puzzle::from_str("2 1 3 4/5 6 8 7/9 10 11 12/13 14 15 0").unwrap();
    assert!(p.is_solved::<RowsSetwise>());
    assert!(!p.is_solved::<Rows>());
    let q = Puzzle::from_str("5 2 3 4/1 6 7 8/9 10 11 12/13 14 15 0").unwrap();
    assert!(q.is_solved::<ColumnsSetwise>());
    assert!(!q.is_solved::<RowsSetwise>());
    let c = Puzzle::from_str("1 5 9 13/2 6 10 14/3 7 11 15/4 8 12 0").unwrap();
    assert!(!c.is_solved::<ColumnsSetwise>());
}

#[test]
fn reset_puzzle_is_solved_for_labels() {
    let mut p = Puzzle::from_str("6 15 12 4/14 0 9 11/7 10 8 5/3 1 2 13").unwrap();
    assert!(!RowGrids.is_solved(&p));
    p.reset();
    assert!(RowGrids.is_solved(&p));
    assert!(FringeGrids.is_solved(&p));
    assert!(p.is_solved::<Rows>());
}

#[test]
fn label_solved_state() {
    let q = Puzzle::from_str("1 2 3 4/5 6 7 8/9 10 11 12/13 14 15 0").unwrap();
    assert!(FringeGrids.is_solved(&q));
}
