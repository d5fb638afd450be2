use tictactoe::eval::Eval;
use tictactoe::piece::Piece;

#[test]
fn negation_swaps_sides() {
    assert!(matches!(-Eval::Draw, Eval::Draw));
    assert!(matches!(-Eval::Winning(3), Eval::Losing(3)));
    assert!(matches!(-Eval::Losing(4), Eval::Winning(4)));
    assert!(matches!(-(-Eval::Winning(5)), Eval::Winning(5)));
}

#[test]
fn increment_adds_a_ply() {
    assert!(matches!(Eval::Draw.increment(), Eval::Draw));
    assert!(matches!(Eval::Winning(0).increment(), Eval::Winning(1)));
    assert!(matches!(Eval::Losing(7).increment(), Eval::Losing(8)));
}

#[test]
fn ranking_key() {
    assert_eq!(Eval::Draw._num(), 0);
    assert_eq!(Eval::Winning(1)._num(), 9);
    assert_eq!(Eval::Losing(2)._num(), -8);
    assert!(Eval::Winning(1) > Eval::Winning(3));
    assert!(Eval::Winning(9) > Eval::Draw);
    assert!(Eval::Draw > Eval::Losing(9));
    assert!(Eval::Losing(5) > Eval::Losing(2));
    assert!(Eval::Winning(2) == Eval::Winning(2));
    assert!(Eval::Winning(2) != Eval::Losing(2));
}

#[test]
fn describe_values() {
    assert_eq!(Eval::Draw.str(&Piece::X), "The game is a draw.");
    assert_eq!(Eval::Winning(1).str(&Piece::X), "X wins in 1 move.");
    assert_eq!(Eval::Winning(2).str(&Piece::O), "O wins in 1 move.");
    assert_eq!(Eval::Losing(3).str(&Piece::O), "O loses in 2 moves.");
    assert_eq!(Eval::Losing(12).str(&Piece::X), "X loses in 6 moves.");
}

#[test]
fn piece_opponent() {
    assert_eq!(!Piece::X, Piece::O);
    assert_eq!(!Piece::O, Piece::X);
    assert_eq!(Piece::X.letter(), 'x');
}
