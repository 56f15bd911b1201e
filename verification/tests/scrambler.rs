use rand::rngs::StdRng;
use rand::SeedableRng;
use slidy::puzzle::label::label::RowGrids;
use slidy::puzzle::puzzle::Puzzle;
use slidy::puzzle::scrambler::{Cycle, RandomInvertibleState, RandomMoves, RandomState, Scrambler};
use slidy::puzzle::puzzle_move::Direction;
use slidy::puzzle::size::Size;
use slidy::puzzle::solvable::Solvable;

#[test]
fn test_gap_in_bottom_right() {
    let mut rng = StdRng::seed_from_u64(0x5eed);

    for s in 2..10 {
        let mut p = Puzzle::new(Size::new(s, s).unwrap());

        for _ in 0..100 {
            RandomInvertibleState.scramble_with_rng(&mut p, &mut rng);
            assert_eq!(p.gap_position_xy(), (s - 1, s - 1));
        }
    }
}

#[test]
fn test_solvable() {
    let mut rng = StdRng::seed_from_u64(0x5eed);

    for (w, h) in [(1, 1), (1, 4), (4, 1), (2, 2), (4, 4), (10, 2), (20, 20)] {
        let mut p = Puzzle::new(Size::new(w, h).unwrap());

        for _ in 0..100 {
            RandomState.scramble_with_rng(&mut p, &mut rng);
            assert!(RowGrids::is_solvable(&p));
        }
    }
}

#[test]
fn random_moves_stay_solvable() {
    let mut rng = StdRng::seed_from_u64(7);
    for (allow_backtracking, allow_illegal_moves) in
        [(false, false), (true, false), (false, true), (true, true)]
    {
        let mut p = Puzzle::new(Size::new(4, 4).unwrap());
        let scrambler = RandomMoves {
            moves: 50,
            allow_backtracking,
            allow_illegal_moves,
        };
        scrambler.scramble_with_rng(&mut p, &mut rng);
        assert!(RowGrids::is_solvable(&p));
    }
}

#[test]
fn cycle_stays_solvable() {
    let mut rng = StdRng::seed_from_u64(11);
    for length in [2, 3, 4, 5] {
        let mut p = Puzzle::new(Size::new(4, 4).unwrap());
        Cycle { length }.scramble_with_rng(&mut p, &mut rng);
        assert!(RowGrids::is_solvable(&p));
        assert_eq!(p.gap_position(), 15);
    }
    assert!(!Cycle { length: 3 }.is_valid_size(Size::new(1, 4).unwrap()));
}

#[test]
fn cycle_capped_stays_solvable() {
    let mut rng = StdRng::seed_from_u64(5);
    for _ in 0..20 {
        let mut p = Puzzle::new(Size::new(2, 2).unwrap());
        Cycle { length: 4 }.scramble_with_rng(&mut p, &mut rng);
        assert!(RowGrids::is_solvable(&p));
    }
    for length in [0, 1, 12, 13, 15, 16, 40] {
        let mut p = Puzzle::new(Size::new(4, 4).unwrap());
        Cycle { length }.scramble_with_rng(&mut p, &mut rng);
        assert!(RowGrids::is_solvable(&p));
    }
}

#[test]
fn scrambled_state_differs() {
    let mut rng = StdRng::seed_from_u64(3);
    let mut p = Puzzle::new(Size::new(5, 5).unwrap());
    RandomInvertibleState.scramble_with_rng(&mut p, &mut rng);
    assert_ne!(p, Puzzle::new(Size::new(5, 5).unwrap()));
}

#[test]
fn invertible_state_from_draws() {
    let size = Size::new(3, 3).unwrap();
    let mut p = Puzzle::new(size);
    RandomInvertibleState.scramble_with_draws(&mut p, &[0, 1, 2, 3, 4, 5]);
    assert_eq!(p, Puzzle::new(size));
    RandomInvertibleState.scramble_with_draws(&mut p, &[1, 1, 2, 3, 4, 5]);
    assert_eq!(
        p,
        Puzzle::with_pieces(vec![2, 1, 3, 4, 5, 6, 8, 7, 0], size).unwrap()
    );
    RandomInvertibleState.scramble_with_draws(&mut p, &[2, 2, 2, 3, 4, 5]);
    assert_eq!(
        p,
        Puzzle::with_pieces(vec![3, 1, 2, 4, 5, 6, 7, 8, 0], size).unwrap()
    );
}

fn pieces(v: Vec<u64>, w: u64, h: u64) -> Puzzle {
    Puzzle::with_pieces(v, Size::new(w, h).unwrap()).unwrap()
}

#[test]
fn random_state_from_draws() {
    let mut p = Puzzle::new(Size::new(1, 4).unwrap());
    RandomState.scramble_with_draws(&mut p, &[], 2, 0);
    assert_eq!(p, pieces(vec![1, 0, 2, 3], 1, 4));
    // From a gap that is not at the end, the gap still goes `d` steps back from the end.
    RandomState.scramble_with_draws(&mut p, &[], 0, 0);
    assert_eq!(p, pieces(vec![1, 2, 3, 0], 1, 4));

    let mut p = Puzzle::new(Size::new(3, 3).unwrap());
    RandomState.scramble_with_draws(&mut p, &[0, 1, 2, 3, 4, 5], 1, 2);
    assert_eq!(p, pieces(vec![1, 2, 3, 0, 4, 5, 7, 8, 6], 3, 3));
}

#[test]
fn cycle_from_positions() {
    let mut p = Puzzle::new(Size::new(3, 3).unwrap());
    Cycle { length: 3 }.scramble_with_positions(&mut p, &[0, 1, 2]);
    assert_eq!(p, pieces(vec![3, 1, 2, 4, 5, 6, 7, 8, 0], 3, 3));

    let mut p = Puzzle::new(Size::new(3, 3).unwrap());
    Cycle { length: 2 }.scramble_with_positions(&mut p, &[0, 1]);
    assert_eq!(p, pieces(vec![2, 1, 3, 4, 5, 6, 8, 7, 0], 3, 3));

    let p = Puzzle::new(Size::new(4, 4).unwrap());
    assert!(!Cycle { length: 14 }.can_scramble(&p));
    assert!(Cycle { length: 12 }.can_scramble(&p));
    assert!(Cycle { length: 15 }.can_scramble(&p));
}

#[test]
fn random_moves_step() {
    let scrambler = RandomMoves {
        moves: 1,
        allow_backtracking: false,
        allow_illegal_moves: false,
    };
    let mut p = Puzzle::new(Size::new(3, 3).unwrap());
    assert_eq!(scrambler.num_allowed(&p, None), 2);
    let dir = scrambler.scramble_step(&mut p, None, 1);
    assert_eq!(dir, Direction::Right);
    assert_eq!(p, pieces(vec![1, 2, 3, 4, 5, 6, 7, 0, 8], 3, 3));
    // Backtracking (moving left again) is not allowed, and neither are the moves that do not fit.
    assert_eq!(scrambler.num_allowed(&p, Some(Direction::Right)), 2);
    let dir = scrambler.scramble_step(&mut p, Some(Direction::Right), 0);
    assert_eq!(dir, Direction::Down);
    assert_eq!(p, pieces(vec![1, 2, 3, 4, 0, 6, 7, 5, 8], 3, 3));
}
