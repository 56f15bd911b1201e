use slidy::puzzle::solvable::Solvable;
use slidy::puzzle::puzzle::PuzzleError;
use slidy::puzzle::puzzle_move::Direction;
use slidy::puzzle::size::Size;
use slidy::puzzle::small::{Puzzle, SmallPuzzle};

#[test]
fn small_new_is_solved() {
    let p = Puzzle::<4, 4>::new();
    assert_eq!(p.pieces(), 0x0FED_CBA9_8765_4321);
    assert_eq!(p.gap(), 15);
    assert_eq!(
        p.piece_array(),
        vec![1, 2, 3, 4, 5, 6, 7, 8, 9, 10, 11, 12, 13, 14, 15, 0]
    );
    assert_eq!(p.size(), Size::new(4, 4).unwrap());
    assert_eq!(p.gap_position_xy(), (3, 3));
}

#[test]
fn small_moves() {
    let mut p = Puzzle::<3, 2>::new();
    assert!(!p.can_move_dir(Direction::Up));
    assert!(p.try_move_dir(Direction::Down));
    assert_eq!(p.piece_array(), vec![1, 2, 0, 4, 5, 3]);
    assert!(p.try_move_dir(Direction::Right));
    assert_eq!(p.piece_array(), vec![1, 0, 2, 4, 5, 3]);
    assert!(!p.try_move_dir(Direction::Down));
    p.move_dir(Direction::Left);
    assert!(p.try_move_dir(Direction::Up));
    assert_eq!(p.piece_array(), vec![1, 2, 3, 4, 5, 0]);
    assert_eq!(p.gap_position(), 5);
}

#[test]
fn small_swaps() {
    let mut p = Puzzle::<2, 2>::new();
    p.swap_pieces(0, 3);
    assert_eq!(p.piece_array(), vec![0, 2, 3, 1]);
    assert_eq!(p.gap(), 0);
    p.swap_piece_with_gap(2);
    assert_eq!(p.piece_array(), vec![3, 2, 0, 1]);
    assert_eq!(p.gap_position_xy(), (0, 1));
    assert!(!p.try_swap_piece_with_gap(4));
    p.reset();
    assert_eq!(p.piece_array(), vec![1, 2, 3, 0]);
}

#[test]
fn small_from_pieces() {
    let p = Puzzle::<2, 3>::try_from_pieces(&[5, 0, 1, 2, 4, 3]).unwrap();
    assert_eq!(p.gap(), 1);
    assert_eq!(p.piece_at(0), 5);
    assert!(matches!(
        Puzzle::<2, 3>::try_from_pieces(&[5, 0, 1, 2, 6, 3]),
        Err(PuzzleError::PieceOutOfRange(6))
    ));
    assert!(matches!(
        Puzzle::<2, 3>::try_from_pieces(&[5, 0, 1, 5, 4, 3]),
        Err(PuzzleError::DuplicatePiece(5))
    ));
}

#[test]
fn small_puzzle_trait() {
    let p = <Puzzle<3, 3> as SmallPuzzle>::new();
    assert_eq!(SmallPuzzle::pieces(&p), 0x0_8765_4321);
    assert_eq!(SmallPuzzle::gap(&p), 8);
    assert_eq!(SmallPuzzle::piece_array(&p), vec![1, 2, 3, 4, 5, 6, 7, 8, 0]);
}

#[test]
fn small_puzzle_as_general_puzzle() {
    let mut p = Puzzle::<3, 3>::new();
    p.try_move_dir(Direction::Down);
    p.try_move_dir(Direction::Right);
    let q = p.to_puzzle();
    assert_eq!(q.size(), slidy::puzzle::size::Size::new(3, 3).unwrap());
    assert_eq!(
        q,
        slidy::puzzle::puzzle::Puzzle::from_str("1 2 3/4 0 5/7 8 6").unwrap()
    );
    assert!(slidy::puzzle::label::label::RowGrids::is_solvable(&q));
}

fn parse_moves(s: &str) -> Vec<slidy::puzzle::puzzle_move::Move> {
    let chars: Vec<char> = s.chars().collect();
    let mut out = Vec::new();
    let mut i = 0;
    while i < chars.len() {
        let direction = match chars[i] {
            'U' => Direction::Up,
            'L' => Direction::Left,
            'D' => Direction::Down,
            _ => Direction::Right,
        };
        i += 1;
        let mut amount = 0u64;
        while i < chars.len() && chars[i].is_ascii_digit() {
            amount = amount * 10 + chars[i].to_digit(10).unwrap() as u64;
            i += 1;
        }
        out.push(slidy::puzzle::puzzle_move::Move::new(direction, amount.max(1)));
    }
    out
}

#[test]
fn small_apply_alg() {
    let mut p = Puzzle::<4, 4>::new();
    let a = parse_moves("D3RU2RD2RU3L3");
    assert!(p.can_apply_alg(&a));
    assert!(p.try_apply_alg(&a));
    assert_eq!(
        p.piece_array(),
        vec![5, 1, 7, 3, 9, 2, 11, 4, 13, 6, 10, 8, 14, 15, 12, 0]
    );
    let mut q = Puzzle::<4, 4>::new();
    assert!(!q.try_apply_alg(&parse_moves("L4")));
    assert_eq!(q.piece_array(), Puzzle::<4, 4>::new().piece_array());
    q.set_state(&p);
    assert_eq!(q.piece_array(), p.piece_array());
}

#[test]
fn small_move_position() {
    let mut p = Puzzle::<3, 3>::new();
    assert!(!p.try_move_position_xy((0, 0)));
    assert!(p.try_move_position_xy((0, 2)));
    assert_eq!(p.piece_array(), vec![1, 2, 3, 4, 5, 6, 0, 7, 8]);
    assert!(p.try_apply_move(slidy::puzzle::puzzle_move::Move::new(Direction::Down, 2)));
    assert_eq!(p.piece_array(), vec![0, 2, 3, 1, 5, 6, 4, 7, 8]);
    assert!(!p.try_apply_move(slidy::puzzle::puzzle_move::Move::new(Direction::Down, 1)));
}
