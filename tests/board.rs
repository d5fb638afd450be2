use tictactoe::board::Board;
use tictactoe::coord::Coord;
use tictactoe::eval::Eval;
use tictactoe::piece::Piece;

/// Builds a board from nine marks: `X`, `O`, or anything else for an empty cell.
fn board(cells: &str) -> Board {
    let mut b = [None; 9];
    for (i, c) in cells.split_whitespace().take(9).enumerate() {
        b[i] = match c {
            "X" | "x" => Some(Piece::X),
            "O" | "o" => Some(Piece::O),
            _ => None,
        };
    }
    Board(b)
}

fn num(e: Eval) -> i128 {
    e._num()
}

#[test]
fn board_full() {
    assert!(board("X X X O O O X X X").full())
}

#[test]
fn winner_x() {
    //rows
    assert_eq!(board("X X X . . . . . .").winner(), Some(Piece::X));
    assert_eq!(board(". . . X X X . . .").winner(), Some(Piece::X));
    assert_eq!(board(". . . . . . X X X").winner(), Some(Piece::X));
    //columns
    assert_eq!(board("X . . X . . X . .").winner(), Some(Piece::X));
    assert_eq!(board(". X . . X . . X .").winner(), Some(Piece::X));
    assert_eq!(board(". . X . . X . . X").winner(), Some(Piece::X));
    //diagonals
    assert_eq!(board("X . . . X . . . X").winner(), Some(Piece::X));
    assert_eq!(board(". . X . X . X . .").winner(), Some(Piece::X))
}

#[test]
fn test_index() {
    for i in 0..9 {
        assert_eq!(Coord::from(i).index(), i);
    }
}

#[test]
fn coord_names() {
    assert_eq!(Coord::from(0).0, "a1");
    assert_eq!(Coord::from(5).0, "b3");
    assert_eq!(Coord::from(7).0, "c2");
    let c = Coord(String::from("b2\n"));
    assert_eq!(c.row(), 'b');
    assert_eq!(c.col(), 2);
    assert_eq!(c.index(), 4);
}

#[test]
fn winner_o_and_none() {
    assert_eq!(board("O X X O X . O . .").winner(), Some(Piece::O));
    assert_eq!(board(". . . . . . . . .").winner(), None);
    assert_eq!(board("X O X X O O O X X").winner(), None);
    assert!(board("X O X X O O O X X").full());
    assert!(!board("X O X X O O O X .").full());
}

#[test]
fn open_cells_ascending() {
    assert_eq!(board("X . O . . X . O .").open(), vec![1, 3, 4, 6, 8]);
    assert_eq!(Board::default().open(), (0..9).collect::<Vec<usize>>());
    assert!(board("X O X X O O O X X").open().is_empty());
}

#[test]
fn turn_alternates() {
    let b = Board::default();
    assert_eq!(b.turn(), Piece::X);
    let b = board("X . . . . . . . .");
    assert_eq!(b.turn(), Piece::O);
    let b = board("X O . . . . . . .");
    assert_eq!(b.turn(), Piece::X);
    for (_, next) in b.moves() {
        assert_eq!(next.turn(), Piece::O);
    }
}

#[test]
fn moves_place_mover_mark() {
    let b = board("X O . . . . . . X");
    let moves = b.moves();
    assert_eq!(moves.len(), 6);
    assert_eq!(moves[0].0, 2);
    assert_eq!(moves[0].1, board("X O O . . . . . X"));
    assert_eq!(moves[5].0, 7);
    assert_eq!(moves[5].1, board("X O . . . . . O X"));
}

#[test]
fn static_eval() {
    assert_eq!(num(Board::default().eval()), 0);
    // X has won and O is to move: a loss for O.
    let b = board("X X X O O . . . .");
    assert!(matches!(b.eval(), Eval::Losing(0)));
    // O has won and X is to move: a loss for X.
    let b = board("O O O X X . X . .");
    assert!(matches!(b.eval(), Eval::Losing(0)));
}

#[test]
fn completing_a_row_wins() {
    let b = board("X X . . O O . . .");
    assert_eq!(b.turn(), Piece::X);
    let mut after = b;
    after.0[2] = Some(b.turn());
    assert_eq!(after.winner(), Some(Piece::X));
    assert!(matches!(after.eval(), Eval::Losing(0)));
}

#[test]
fn search_takes_the_win() {
    let b = board("X X . . O O . . .");
    let ranked = b.search();
    assert_eq!(ranked.len(), 5);
    assert_eq!(ranked[0].index(), 2);
    assert!(matches!(ranked[0].eval(), Eval::Winning(1)));
    for w in ranked.windows(2) {
        assert!(num(w[0].eval()) >= num(w[1].eval()));
    }
}

#[test]
fn search_blocks_or_loses() {
    // O to move must block at 2; every other move loses at once.
    let b = board("X X . . O . . . .");
    assert_eq!(b.turn(), Piece::O);
    let ranked = b.search();
    assert_eq!(ranked[0].index(), 2);
    for m in &ranked[1..] {
        assert!(matches!(m.eval(), Eval::Losing(2)));
    }
    // equal moves keep ascending cell order
    let idx: Vec<usize> = ranked[1..].iter().map(|m| m.index()).collect();
    assert_eq!(idx, vec![3, 5, 6, 7, 8]);
}

#[test]
fn start_position_is_a_draw() {
    let ranked = Board::default().search();
    assert_eq!(ranked.len(), 9);
    assert_eq!(num(ranked[0].eval()), 0);
    for m in &ranked {
        assert!(matches!(m.eval(), Eval::Draw));
    }
    let idx: Vec<usize> = ranked.iter().map(|m| m.index()).collect();
    assert_eq!(idx, (0..9).collect::<Vec<usize>>());
}
