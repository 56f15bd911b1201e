use slidy::puzzle::display::puzzle::{DisplayGrid, DisplayInline, DisplayPuzzle};
use slidy::puzzle::display::{DisplayGrid as Grid, DisplayInline as Inline};
use slidy::puzzle::puzzle::Puzzle;
use slidy::puzzle::size::Size;

#[test]
fn display_test_display_grid() {
    let p = Puzzle::new(Size::new(4, 4).unwrap());
    let s1 = Grid::new(&p).to_string();
    let s2 = p.display_grid().to_string();
    assert_eq!(s1, " 1  2  3  4\n 5  6  7  8\n 9 10 11 12\n13 14 15  0");
    assert_eq!(s1, s2);
}

#[test]
fn display_test_display_inline() {
    let p = Puzzle::new(Size::new(4, 4).unwrap());
    let s1 = Inline::new(&p).to_string();
    let s2 = p.display_inline().to_string();
    let s3 = p.to_string();
    assert_eq!(s1, "1 2 3 4/5 6 7 8/9 10 11 12/13 14 15 0");
    assert_eq!(s1, s2);
    assert_eq!(s1, s3);
}

#[test]
fn puzzle_test_display_grid() {
    let p = Puzzle::new(Size::new(4, 4).unwrap());
    let a = DisplayPuzzle::<DisplayGrid>::new(&p);
    let s = a.to_string();
    assert_eq!(s, " 1  2  3  4\n 5  6  7  8\n 9 10 11 12\n13 14 15  0");
}

#[test]
fn puzzle_test_display_inline() {
    let p = Puzzle::new(Size::new(4, 4).unwrap());
    let a = DisplayPuzzle::<DisplayInline>::new(&p);
    let s = a.to_string();
    assert_eq!(s, "1 2 3 4/5 6 7 8/9 10 11 12/13 14 15 0");
}

#[test]
fn display_round_trip() {
    let p = Puzzle::from_str("9 15 20 6/19 11 13 12/17 3 10 23/0 7 2 14/1 16 18 21/22 8 5 4")
        .unwrap();
    assert_eq!(
        p.to_string(),
        "9 15 20 6/19 11 13 12/17 3 10 23/0 7 2 14/1 16 18 21/22 8 5 4"
    );
    assert_eq!(Puzzle::from_str(&p.to_string()), Ok(p.clone()));
    assert_eq!(Puzzle::from_str(&p.display_grid().to_string()), Ok(p));
}

#[test]
fn display_grid_small() {
    let p = Puzzle::new(Size::new(3, 1).unwrap());
    assert_eq!(p.display_grid().to_string(), "1 2 0");
}
