use slidy::puzzle::label::label::{
    LastTwoRows, RowGrids, Rows, Spiral, SplitFringe, SplitLastTwoRows, SplitSquareFringe,
    SquareFringe,
};
use slidy::puzzle::puzzle::Puzzle;
use slidy::puzzle::solvable::Solvable;

fn check<S: Solvable>(solvable: &[&str], unsolvable: &[&str]) {
    for s in solvable {
        let p = Puzzle::from_str(s).unwrap();
        assert!(S::is_solvable(&p), "{s}");
    }
    for s in unsolvable {
        let p = Puzzle::from_str(s).unwrap();
        assert!(!S::is_solvable(&p), "{s}");
    }
}

#[test]
fn test_row_grids() {
    check::<RowGrids>(
        &[
            "1 2 3 0",
            "1 0 2 3",
            "1/2/3/0",
            "1/0/2/3",
            "1 2 3 4/5 6 7 8/9 10 11 12/13 14 15 0",
            "2 3 1 4/5 6 7 8/9 10 11 12/13 14 15 0",
            "0 8 7/6 5 4/3 2 1",
            "3 1/2 0",
        ],
        &[
            "1 3 0 2",
            "0 3 1 2",
            "1/3/0/2",
            "0/3/1/2",
            "2 1 3 4/5 6 7 8/9 10 11 12/13 14 15 0",
            "4 8 12 0/3 7 11 15/2 6 10 14/1 5 9 13",
            "4 5 6/1 2 3/7 8 0",
            "3 1 8/6 2 0/5 4 7",
        ],
    );
}

#[test]
fn solvable_test_rows() {
    check::<Rows>(
        &[
            "1 3 2 0",
            "0 3 2 1",
            "1/2/3/0",
            "1/0/2/3",
            "1 2 3 4/5 6 7 8/9 10 11 12/13 15 14 0",
            "3 1/2 0",
        ],
        &["1/3/2/0", "0/3/2/1"],
    );
}

#[test]
fn test_square_fringe() {
    check::<SquareFringe>(
        &[
            "1 2 3 0",
            "0 1 2 3",
            "1/2/3/0",
            "1/0/2/3",
            "1 2 3 4/5 6 7 8/9 10 11 12/13 15 14 0",
            "3 1/2 0",
        ],
        &["1 3 2 0", "0 3 2 1", "1/3/2/0", "0/3/2/1"],
    );
}

#[test]
fn test_split_fringe() {
    check::<SplitFringe>(
        &[
            "1 3 2 0",
            "0 3 2 1",
            "1/3/2/0",
            "0/1/2/3",
            "1 2 3 4/5 6 7 8/9 10 11 12/13 15 14 0",
            "3 1/2 0",
        ],
        &["2/1/3/0", "2/0/3/1", "0/3/1/2"],
    );
}

#[test]
fn test_split_square_fringe() {
    check::<SplitSquareFringe>(
        &[
            "1 2 3 0",
            "0 1 2 3",
            "1/2/3/0",
            "1/0/2/3",
            "1 2 3 4/5 6 7 8/9 10 11 12/13 15 14 0",
            "3 1/2 0",
        ],
        &["1 3 2 0", "0 3 2 1", "1/3/2/0", "0/3/2/1"],
    );
}

#[test]
fn test_last_two_rows() {
    check::<LastTwoRows>(
        &[
            "1 2 3 0",
            "0 1 2 3",
            "1/2/3/0",
            "1/0/2/3",
            "1 2 3 4/5 6 7 8/9 10 11 12/13 15 14 0",
            "3 1/2 0",
        ],
        &["1 3 2 0", "0 3 2 1", "1/3/2/0", "0/3/2/1"],
    );
}

#[test]
fn test_split_last_two_rows() {
    check::<SplitLastTwoRows>(
        &[
            "1 2 3 0",
            "0 1 2 3",
            "1/2/3/0",
            "1/0/2/3",
            "3/2/1/0",
            "3/0/2/1",
            "1 2 3 4/5 6 7 8/9 10 11 12/13 15 14 0",
            "3 1/2 0",
        ],
        &["3/1/2/0", "2/0/3/1", "1/0/3/2", "0/3/1/2"],
    );
}

#[test]
fn test_spiral() {
    check::<Spiral>(
        &[
            "1 3 2 0",
            "0 3 2 1",
            "1/3/2/0",
            "0/3/2/1",
            "1 2 3 4/5 6 7 8/9 10 11 12/13 15 14 0",
            "3 1/2 0",
        ],
        &["1 3/2 0", "0 3/1 2"],
    );
}
