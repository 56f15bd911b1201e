use slidy::puzzle::label::label::{FringeGrids, SpiralGrids};
use slidy::puzzle::puzzle::{ParsePuzzleError, Puzzle, PuzzleError};
use slidy::puzzle::puzzle_move::{Direction, Move};
use slidy::puzzle::size::Size;

fn puzzle(pieces: Vec<u64>, w: u64, h: u64) -> Puzzle {
    Puzzle::with_pieces(pieces, Size::new(w, h).unwrap()).unwrap()
}

#[test]
fn puzzle_test_new() {
    let size = Size::new(4, 4).unwrap();
    let p = Puzzle::new(size);
    assert_eq!(
        p,
        puzzle(vec![1, 2, 3, 4, 5, 6, 7, 8, 9, 10, 11, 12, 13, 14, 15, 0], 4, 4)
    );
    assert_eq!(p.size(), size);
    assert_eq!(p.gap_position(), 15);
}

#[test]
fn test_with_pieces() {
    let size = Size::default();
    let pieces = vec![1, 2, 3, 4, 5, 6, 7, 8, 9, 10, 11, 12, 13, 14, 15, 0];
    let p = Puzzle::with_pieces(pieces, size);
    assert!(p.is_ok());
}

fn grid(v: &[u64], w: usize) -> Vec<Vec<u64>> {
    v.chunks(w).map(|c| c.to_vec()).collect()
}

#[test]
fn test_new_from_grid() {
    let v = grid(&[11, 0, 1, 10, 4, 5, 15, 6, 2, 3, 13, 8, 7, 12, 9, 14], 4);
    let p = Puzzle::new_from_grid(v);
    assert!(p.is_ok());
}

#[test]
fn test_new_from_grid_2() {
    let p = Puzzle::new_from_grid(Vec::new());
    assert_eq!(p, Err(PuzzleError::Empty));
}

#[test]
fn test_new_from_grid_3() {
    let p = Puzzle::new_from_grid(vec![vec![]]);
    assert_eq!(p, Err(PuzzleError::Empty));
}

#[test]
fn test_new_from_grid_4() {
    let v = grid(&[11, 0, 1, 10, 4, 7, 15, 6, 2, 3, 13, 8, 7, 12, 9, 14], 4);
    let p = Puzzle::new_from_grid(v);
    assert_eq!(p, Err(PuzzleError::DuplicatePiece(7)));
}

#[test]
fn test_new_from_grid_5() {
    let v = grid(&[11, 16, 1, 10, 4, 5, 15, 6, 2, 3, 13, 8, 7, 12, 9, 14], 4);
    let p = Puzzle::new_from_grid(v);
    assert_eq!(p, Err(PuzzleError::PieceOutOfRange(16)));
}

#[test]
fn test_new_from_grid_6() {
    let v = vec![vec![1, 2], vec![3, 4, 0]];
    let p = Puzzle::new_from_grid(v);
    assert_eq!(p, Err(PuzzleError::UnequalRowLengths));
}

#[test]
fn test_piece_position() {
    let p = Puzzle::from_str("9 15 20 6/19 11 13 12/17 3 10 23/0 7 2 14/1 16 18 21/22 8 5 4")
        .unwrap();
    assert_eq!(p.piece_position(9), 0);
    assert_eq!(p.piece_position_xy(9), (0, 0));
    assert_eq!(p.piece_position(3), 9);
    assert_eq!(p.piece_position_xy(3), (1, 2));
    assert_eq!(p.piece_position(4), 23);
    assert_eq!(p.piece_position_xy(4), (3, 5));
}

#[test]
fn test_gap_position() {
    let mut p = Puzzle::new(Size::new(4, 6).unwrap());
    assert_eq!(p.gap_position(), 23);
    assert_eq!(p.gap_position_xy(), (3, 5));
    p.try_move_dir(Direction::Down);
    assert_eq!(p.gap_position(), 19);
    assert_eq!(p.gap_position_xy(), (3, 4));
    p.try_move_dir(Direction::Right);
    assert_eq!(p.gap_position(), 18);
    assert_eq!(p.gap_position_xy(), (2, 4));
}

#[test]
fn test_reset() {
    let mut p = Puzzle::new(Size::new(4, 4).unwrap());
    p.try_move_dir(Direction::Down);
    p.reset();
    assert_eq!(p, Puzzle::new(Size::new(4, 4).unwrap()));
}

#[test]
fn test_reset_to_label() {
    let mut p = Puzzle::new(Size::new(4, 4).unwrap());
    p.reset_to_label(&FringeGrids);
    assert_eq!(
        p,
        puzzle(vec![1, 2, 3, 4, 5, 8, 9, 10, 6, 11, 13, 14, 7, 12, 15, 0], 4, 4)
    );
}

#[test]
fn test_set_state() {
    let mut p1 = Puzzle::from_str("6 15 12 4/14 0 9 11/7 10 8 5/3 1 2 13").unwrap();
    let p2 = Puzzle::default();
    let p3 = Puzzle::from_str("3 4 1/5 0 7/2 8 6").unwrap();
    assert!(p1.try_set_state(&p2));
    assert_eq!(p1, p2);
    assert!(!p1.try_set_state(&p3));
    assert_eq!(p1, p2);
}

#[test]
fn test_solved_pos() {
    let p = Puzzle::new(Size::new(4, 6).unwrap());
    assert_eq!(p.try_solved_pos(0), Some(23));
    assert_eq!(p.try_solved_pos_xy(0), Some((3, 5)));
    assert_eq!(p.try_solved_pos(1), Some(0));
    assert_eq!(p.try_solved_pos_xy(1), Some((0, 0)));
    assert_eq!(p.try_solved_pos(23), Some(22));
    assert_eq!(p.try_solved_pos_xy(23), Some((2, 5)));
    assert_eq!(p.try_solved_pos(24), None);
    assert_eq!(p.try_solved_pos_xy(24), None);
}

#[test]
fn test_piece_at() {
    let mut p = Puzzle::new(Size::new(4, 6).unwrap());
    p.try_apply_move(Move::new(Direction::Down, 2));
    p.try_apply_move(Move::new(Direction::Right, 3));
    assert_eq!(p.try_piece_at(0), Some(1));
    assert_eq!(p.try_piece_at_xy((0, 0)), Some(1));
    assert_eq!(p.try_piece_at(12), Some(0));
    assert_eq!(p.try_piece_at_xy((0, 3)), Some(0));
    assert_eq!(p.try_piece_at(13), Some(13));
    assert_eq!(p.try_piece_at_xy((1, 3)), Some(13));
    assert_eq!(p.try_piece_at(24), None);
    assert_eq!(p.try_piece_at_xy((4, 0)), None);
    assert_eq!(p.try_piece_at_xy((0, 6)), None);
}

#[test]
fn test_swap_pieces() {
    let mut p = Puzzle::new(Size::new(4, 4).unwrap());
    p.try_swap_pieces(0, 6);
    assert_eq!(p.try_piece_at(0), Some(7));
    assert_eq!(p.try_piece_at(6), Some(1));
    p.try_swap_pieces_xy((0, 0), (2, 1));
    assert_eq!(p.try_piece_at(0), Some(1));
    assert_eq!(p.try_piece_at(6), Some(7));
}

#[test]
fn test_swap_pieces_2() {
    let mut p = Puzzle::new(Size::new(4, 4).unwrap());
    p.try_swap_pieces(0, 15);
    assert_eq!(p.gap_position(), 0);
}

#[test]
fn test_can_move_dir() {
    let mut p = Puzzle::new(Size::new(4, 4).unwrap());
    assert!(!p.can_move_dir(Direction::Up));
    assert!(!p.can_move_dir(Direction::Left));
    assert!(p.can_move_dir(Direction::Down));
    assert!(p.can_move_dir(Direction::Right));
    p.try_move_dir(Direction::Down);
    assert!(p.can_move_dir(Direction::Up));
    assert!(!p.can_move_dir(Direction::Left));
    assert!(p.can_move_dir(Direction::Down));
    assert!(p.can_move_dir(Direction::Right));
    p.try_move_dir(Direction::Right);
    assert!(p.can_move_dir(Direction::Up));
    assert!(p.can_move_dir(Direction::Left));
    assert!(p.can_move_dir(Direction::Down));
    assert!(p.can_move_dir(Direction::Right));
    p.try_apply_move(Move::new(Direction::Down, 2));
    assert!(p.can_move_dir(Direction::Up));
    assert!(p.can_move_dir(Direction::Left));
    assert!(!p.can_move_dir(Direction::Down));
    assert!(p.can_move_dir(Direction::Right));
    p.try_apply_move(Move::new(Direction::Right, 2));
    assert!(p.can_move_dir(Direction::Up));
    assert!(p.can_move_dir(Direction::Left));
    assert!(!p.can_move_dir(Direction::Down));
    assert!(!p.can_move_dir(Direction::Right));
}

#[test]
fn test_move_dir() {
    let mut p = Puzzle::new(Size::new(4, 4).unwrap());
    assert!(p.try_move_dir(Direction::Down));
    assert!(!p.try_move_dir(Direction::Left));
    assert!(p.try_move_dir(Direction::Right));
    assert!(p.try_move_dir(Direction::Up));
    assert!(!p.try_move_dir(Direction::Up));
    assert_eq!(
        p,
        puzzle(vec![1, 2, 3, 4, 5, 6, 7, 8, 9, 10, 15, 11, 13, 14, 0, 12], 4, 4)
    );
}

#[test]
fn test_can_apply_move() {
    let mut p = Puzzle::new(Size::new(4, 4).unwrap());
    p.try_move_dir(Direction::Down);
    p.try_move_dir(Direction::Right);
    assert!(p.can_apply_move(Move::new(Direction::Up, 1)));
    assert!(p.can_apply_move(Move::new(Direction::Left, 1)));
    assert!(p.can_apply_move(Move::new(Direction::Down, 2)));
    assert!(p.can_apply_move(Move::new(Direction::Right, 2)));
    assert!(!p.can_apply_move(Move::new(Direction::Up, 2)));
    assert!(!p.can_apply_move(Move::new(Direction::Left, 2)));
    assert!(!p.can_apply_move(Move::new(Direction::Down, 3)));
    assert!(!p.can_apply_move(Move::new(Direction::Right, 3)));
}

#[test]
fn test_apply_move() {
    let mut p = Puzzle::new(Size::new(4, 4).unwrap());
    assert!(p.try_apply_move(Move::new(Direction::Down, 2)));
    assert!(!p.try_apply_move(Move::new(Direction::Down, 2)));
    assert!(!p.try_apply_move(Move::new(Direction::Left, 1)));
    assert!(!p.try_apply_move(Move::new(Direction::Right, 4)));
    assert!(p.try_apply_move(Move::new(Direction::Right, 3)));
    assert!(!p.try_apply_move(Move::new(Direction::Up, 3)));
    assert!(p.try_apply_move(Move::new(Direction::Up, 1)));
    assert_eq!(
        p,
        puzzle(vec![1, 2, 3, 4, 9, 5, 6, 7, 0, 10, 11, 8, 13, 14, 15, 12], 4, 4)
    );
}

#[test]
fn test_can_move_position() {
    let p = Puzzle::from_str("9 15 20 6/19 11 13 12/17 3 10 23/7 0 2 14/1 16 18 21/22 8 5 4")
        .unwrap();
    assert!(!p.can_move_position(0));
    assert!(p.can_move_position(1));
    assert!(!p.can_move_position(2));
    assert!(!p.can_move_position(11));
    assert!(p.can_move_position(12));
    assert!(p.can_move_position(13));
    assert!(p.can_move_position(15));
    assert!(!p.can_move_position(16));
    assert!(p.can_move_position(17));
    assert!(!p.can_move_position(23));

    assert!(!p.can_move_position(24));
    assert!(!p.can_move_position(25));
    assert!(!p.can_move_position(100));

    assert!(!p.can_move_position_xy((0, 0)));
    assert!(p.can_move_position_xy((1, 0)));
    assert!(!p.can_move_position_xy((2, 0)));
    assert!(!p.can_move_position_xy((3, 2)));
    assert!(p.can_move_position_xy((0, 3)));
    assert!(p.can_move_position_xy((1, 3)));
    assert!(p.can_move_position_xy((3, 3)));
    assert!(!p.can_move_position_xy((0, 4)));
    assert!(p.can_move_position_xy((1, 4)));
    assert!(!p.can_move_position_xy((3, 5)));
    assert!(!p.can_move_position_xy((0, 6)));

    assert!(!p.can_move_position_xy((0, 6)));
    assert!(!p.can_move_position_xy((1, 6)));
    assert!(!p.can_move_position_xy((4, 0)));
    assert!(!p.can_move_position_xy((4, 3)));
    assert!(!p.can_move_position_xy((10, 10)));
}

const MOVED: [u64; 24] = [
    19, 9, 20, 6, 17, 15, 13, 12, 7, 11, 10, 23, 1, 3, 2, 14, 16, 18, 21, 0, 22, 8, 5, 4,
];

#[test]
fn test_move_position() {
    let mut p = Puzzle::from_str("9 15 20 6/19 11 13 12/17 3 10 23/7 0 2 14/1 16 18 21/22 8 5 4")
        .unwrap();

    p.try_move_position(1);
    p.try_move_position(6);
    p.try_move_position(0);
    p.try_move_position(16);
    p.try_move_position(15);
    p.try_move_position(100);
    p.try_move_position(19);

    assert_eq!(p, puzzle(MOVED.to_vec(), 4, 6));
}

#[test]
fn test_can_move_piece() {
    let p = Puzzle::from_str("9 15 20 6/19 11 13 12/17 3 10 23/7 0 2 14/1 16 18 21/22 8 5 4")
        .unwrap();
    assert!(p.can_move_piece(15));
    assert!(p.can_move_piece(7));
    assert!(p.can_move_piece(14));
    assert!(p.can_move_piece(8));
    assert!(p.can_move_piece(0));
    assert!(!p.can_move_piece(9));
    assert!(!p.can_move_piece(6));
    assert!(!p.can_move_piece(13));
    assert!(!p.can_move_piece(17));
    assert!(!p.can_move_piece(22));

    assert!(!p.can_move_piece(24));
    assert!(!p.can_move_piece(100));
}

#[test]
fn test_move_piece() {
    let mut p = Puzzle::from_str("9 15 20 6/19 11 13 12/17 3 10 23/7 0 2 14/1 16 18 21/22 8 5 4")
        .unwrap();

    p.try_move_piece(15);
    p.try_move_piece(13);
    p.try_move_piece(9);
    p.try_move_piece(1);
    p.try_move_piece(14);
    p.try_move_piece(0);
    p.try_move_piece(100);
    p.try_move_piece(21);

    assert_eq!(p, puzzle(MOVED.to_vec(), 4, 6));
}

#[test]
fn test_from_str() {
    let a = Puzzle::from_str("1 2 3 4/5 6 7 0");
    assert_eq!(a, Ok(puzzle(vec![1, 2, 3, 4, 5, 6, 7, 0], 4, 2)));
    assert_eq!(a.unwrap().gap_position(), 7);
}

#[test]
fn test_from_str_2() {
    let a = Puzzle::from_str("1 2 3 4/5 6 7 8/9 10 11 12/13 14 15 0");
    assert_eq!(
        a,
        Ok(puzzle(vec![1, 2, 3, 4, 5, 6, 7, 8, 9, 10, 11, 12, 13, 14, 15, 0], 4, 4))
    );
    assert_eq!(a.unwrap().gap_position(), 15);
}

#[test]
fn test_from_str_3() {
    let a = Puzzle::from_str("   1  2 3 4  \n5 6\t7 8/9 10 11 12 / 13 14   15 0\t");
    assert_eq!(
        a,
        Ok(puzzle(vec![1, 2, 3, 4, 5, 6, 7, 8, 9, 10, 11, 12, 13, 14, 15, 0], 4, 4))
    );
}

#[test]
fn test_from_str_4() {
    let a = Puzzle::from_str("1 2 3 4/5t 6 7 8/9 10 11 12/13 14 15 0");
    assert_eq!(a, Err(ParsePuzzleError::InvalidCharacter('t')));
}

#[test]
fn from_str_number_too_large() {
    let a = Puzzle::from_str("1 99999999999999999999/2 0");
    assert!(matches!(a, Err(ParsePuzzleError::ParseIntError(_))));
}

#[test]
fn from_str_bad_grid() {
    let a = Puzzle::from_str("1 2/3");
    assert_eq!(a, Err(ParsePuzzleError::PuzzleError(PuzzleError::UnequalRowLengths)));
    let b = Puzzle::from_str("1 2/3 3");
    assert_eq!(b, Err(ParsePuzzleError::PuzzleError(PuzzleError::DuplicatePiece(3))));
}

#[test]
fn from_str_through_trait() {
    let a: Result<Puzzle, _> = "1 2/3 0".parse::<Puzzle>();
    assert_eq!(a, Ok(puzzle(vec![1, 2, 3, 0], 2, 2)));
}

#[test]
fn with_pieces_errors() {
    let size = Size::new(2, 2).unwrap();
    assert_eq!(
        Puzzle::with_pieces(vec![1, 2, 4, 0], size),
        Err(PuzzleError::PieceOutOfRange(4))
    );
    assert_eq!(
        Puzzle::with_pieces(vec![1, 1, 3, 0], size),
        Err(PuzzleError::DuplicatePiece(1))
    );
}

#[test]
fn reset_to_spiral() {
    let mut p = Puzzle::new(Size::new(4, 4).unwrap());
    p.reset_to_label(&SpiralGrids);
    assert_eq!(
        p,
        puzzle(vec![1, 2, 3, 4, 12, 13, 14, 5, 11, 0, 15, 6, 10, 9, 8, 7], 4, 4)
    );
}

/// The moves written in the usual notation: a direction letter, then an optional count.
fn moves(s: &str) -> Vec<Move> {
    let mut out = Vec::new();
    let chars: Vec<char> = s.chars().collect();
    let mut i = 0;
    while i < chars.len() {
        let direction = match chars[i] {
            'U' => Direction::Up,
            'L' => Direction::Left,
            'D' => Direction::Down,
            'R' => Direction::Right,
            c => panic!("unexpected character {c}"),
        };
        i += 1;
        let mut amount = 0u64;
        while i < chars.len() && chars[i].is_ascii_digit() {
            amount = amount * 10 + chars[i].to_digit(10).unwrap() as u64;
            i += 1;
        }
        out.push(Move::new(direction, if amount == 0 { 1 } else { amount }));
    }
    out
}

#[test]
fn test_can_apply_alg() {
    let p = Puzzle::new(Size::new(4, 4).unwrap());
    let a = moves("D3RU2RD2RU3L3");
    assert!(p.can_apply_alg(&a));
    let a = moves("R2DL2UR2D2RU2LD3RULURDLDLU2RDLULD2RULDR2U");
    assert!(p.can_apply_alg(&a));
}

#[test]
fn test_can_apply_alg_2() {
    let p = Puzzle::from_str("1 2 3 4/5 6 7 8/9 10 11 12/0 13 14 15").unwrap();
    let a = moves("L4");
    assert!(!p.can_apply_alg(&a));
}

#[test]
fn test_apply_alg() {
    let mut p = Puzzle::new(Size::new(4, 4).unwrap());
    let a = moves("D3RU2RD2RU3L3");
    p.try_apply_alg(&a);
    assert_eq!(
        p,
        puzzle(vec![5, 1, 7, 3, 9, 2, 11, 4, 13, 6, 10, 8, 14, 15, 12, 0], 4, 4)
    );
}

#[test]
fn with_pieces_too_few() {
    let size = Size::new(2, 2).unwrap();
    assert_eq!(
        Puzzle::with_pieces(vec![1, 2, 0], size),
        Err(PuzzleError::MissingPieces(3))
    );
    assert_eq!(
        Puzzle::with_pieces(vec![1, 1], size),
        Err(PuzzleError::DuplicatePiece(1))
    );
    assert_eq!(
        Puzzle::with_pieces(vec![5], size),
        Err(PuzzleError::PieceOutOfRange(5))
    );
    assert_eq!(Puzzle::with_pieces(vec![], size), Err(PuzzleError::MissingPieces(0)));
}
