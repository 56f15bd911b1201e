use slidy::puzzle::label::label::{RowGrids, Spiral};
use slidy::puzzle::puzzle::Puzzle;
use slidy::puzzle::puzzle_move::{Direction, Move};
use slidy::puzzle::render::{drawn_pieces, subscheme_shows_as, SubschemeStyle};
use slidy::puzzle::size::Size;
use slidy::puzzle::solvable::Solvable;
use slidy::puzzle::solved::solved::Rows;

#[test]
fn move_then_opposite_move_restores() {
    let start = Puzzle::from_str("9 15 20 6/19 11 13 12/17 3 10 23/7 0 2 14/1 16 18 21/22 8 5 4")
        .unwrap();
    for dir in [Direction::Up, Direction::Left, Direction::Down, Direction::Right] {
        for amount in 1..4 {
            let mv = Move::new(dir, amount);
            let mut p = start.clone();
            if p.try_apply_move(mv) {
                assert!(p.try_apply_move(Move::new(dir.inverse(), amount)));
                assert_eq!(p, start);
            }
        }
    }
}

#[test]
fn reset_is_solved_and_solvable() {
    for (w, h) in [(1, 1), (1, 5), (5, 1), (2, 2), (3, 7), (6, 6)] {
        let mut p = Puzzle::new(Size::new(w, h).unwrap());
        p.try_apply_move(Move::new(Direction::Down, h - 1));
        p.reset();
        assert!(p.is_solved::<Rows>());
        assert!(RowGrids::is_solvable(&p));
        assert!(p.is_solvable());
        assert!(Spiral::is_solvable(&p));
    }
}

#[test]
fn moves_keep_solvability() {
    let mut p = Puzzle::from_str("0 8 7/6 5 4/3 2 1").unwrap();
    assert!(RowGrids::is_solvable(&p));
    for dir in [Direction::Up, Direction::Left, Direction::Up, Direction::Left, Direction::Down] {
        assert!(p.try_move_dir(dir));
        assert!(RowGrids::is_solvable(&p));
    }
    let mut q = Puzzle::from_str("2 1 3 4/5 6 7 8/9 10 11 12/13 14 15 0").unwrap();
    assert!(!RowGrids::is_solvable(&q));
    for dir in [Direction::Down, Direction::Right, Direction::Down, Direction::Left] {
        assert!(q.try_move_dir(dir));
        assert!(!RowGrids::is_solvable(&q));
    }
}

#[test]
fn drawn_pieces_skip_gap() {
    let p = Puzzle::from_str("1 0/3 2").unwrap();
    assert_eq!(drawn_pieces(&p), vec![(0, 0), (0, 1), (1, 1)]);
    assert!(subscheme_shows_as(
        Some(SubschemeStyle::TextColor),
        true,
        SubschemeStyle::TextColor
    ));
    assert!(!subscheme_shows_as(
        Some(SubschemeStyle::TextColor),
        false,
        SubschemeStyle::TextColor
    ));
    assert!(!subscheme_shows_as(None, true, SubschemeStyle::Rectangle));
    assert_eq!(SubschemeStyle::default(), SubschemeStyle::Rectangle);
}
