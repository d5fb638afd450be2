use vstd::prelude::*;

use crate::eval::Eval;
use crate::piece::Piece;
use std::ops::Neg;

verus! {

/// A cell index paired with the value of playing there, for the side to move.
#[derive(Debug, Clone, Copy)]
pub struct Move(pub usize, pub Eval);

impl Move {
    pub fn index(&self) -> (r: usize)
        ensures
            r == self.0,
    {
        self.0
    }

    pub fn eval(&self) -> (r: Eval)
        ensures
            r == self.1,
    {
        self.1
    }
}

/// A position: the nine cells of the grid in row-major order.
#[derive(PartialEq, Debug, Clone, Copy)]
pub struct Board(pub [Option<Piece>; 9]);

/// The three cells of each of the eight lines: rows, then columns, then
/// the two diagonals.
pub open spec fn line(k: int) -> (int, int, int) {
    if k == 0 {
        (0, 1, 2)
    } else if k == 1 {
        (3, 4, 5)
    } else if k == 2 {
        (6, 7, 8)
    } else if k == 3 {
        (0, 3, 6)
    } else if k == 4 {
        (1, 4, 7)
    } else if k == 5 {
        (2, 5, 8)
    } else if k == 6 {
        (0, 4, 8)
    } else {
        (2, 4, 6)
    }
}

/// The mark that fills line `k`, if one mark holds all three of its cells.
pub open spec fn line_owner(c: Seq<Option<Piece>>, k: int) -> Option<Piece> {
    let (a, b, d) = line(k);
    if c[a] is Some && c[a] == c[b] && c[b] == c[d] {
        c[a]
    } else {
        None
    }
}

/// The owner of the first filled line among lines `k..8`.
pub open spec fn winner_from(c: Seq<Option<Piece>>, k: nat) -> Option<Piece>
    decreases 8 - k,
{
    if k >= 8 {
        None
    } else if line_owner(c, k as int) is Some {
        line_owner(c, k as int)
    } else {
        winner_from(c, k + 1)
    }
}

pub open spec fn winner_of(c: Seq<Option<Piece>>) -> Option<Piece> {
    winner_from(c, 0)
}

pub open spec fn is_full(c: Seq<Option<Piece>>) -> bool {
    forall|i: int| 0 <= i < 9 ==> (#[trigger] c[i]) is Some
}

/// The empty cells among the first `n`, in ascending order.
pub open spec fn open_upto(c: Seq<Option<Piece>>, n: nat) -> Seq<usize>
    decreases n,
{
    if n == 0 {
        Seq::empty()
    } else {
        let s = open_upto(c, (n - 1) as nat);
        if c[n - 1] is None {
            s.push((n - 1) as usize)
        } else {
            s
        }
    }
}

pub open spec fn open_cells(c: Seq<Option<Piece>>) -> Seq<usize> {
    open_upto(c, 9)
}

/// First moves when the number of empty cells is odd.
pub open spec fn turn_of(c: Seq<Option<Piece>>) -> Piece {
    if open_cells(c).len() % 2 == 0 {
        Piece::O
    } else {
        Piece::X
    }
}

/// The position after the side to move marks cell `i`.
pub open spec fn successor(c: Seq<Option<Piece>>, i: int) -> Seq<Option<Piece>> {
    c.update(i, Some(turn_of(c)))
}

/// The static value for the side to move: a win or loss at distance zero
/// when a line is filled, else a draw.
pub open spec fn eval_of(c: Seq<Option<Piece>>) -> Eval {
    let score = match winner_of(c) {
        Some(Piece::X) => Eval::Winning(0),
        Some(Piece::O) => Eval::Losing(0),
        None => Eval::Draw,
    };
    if turn_of(c) == Piece::X {
        score
    } else {
        score.negated()
    }
}

pub open spec fn is_terminal(c: Seq<Option<Piece>>) -> bool {
    is_full(c) || winner_of(c) is Some
}

/// The game-theoretic value of a position for the side to move.
pub open spec fn value(c: Seq<Option<Piece>>) -> Eval
    decreases open_cells(c).len(), open_cells(c).len() + 1,
{
    if is_terminal(c) {
        eval_of(c)
    } else {
        best_upto(c, open_cells(c).len())
    }
}

/// The best value, for the side to move, among the first `n` moves; on
/// equal values the earlier move is kept.
pub open spec fn best_upto(c: Seq<Option<Piece>>, n: nat) -> Eval
    decreases open_cells(c).len(), n,
    via best_upto_decreases
{
    if n == 0 || n > open_cells(c).len() || c.len() != 9 {
        Eval::Draw
    } else {
        let s = value(successor(c, open_cells(c)[n - 1] as int)).incremented().negated();
        if n == 1 {
            s
        } else {
            let b = best_upto(c, (n - 1) as nat);
            if s.num() > b.num() {
                s
            } else {
                b
            }
        }
    }
}

#[via_fn]
proof fn best_upto_decreases(c: Seq<Option<Piece>>, n: nat) {
    if n == 0 || n > open_cells(c).len() || c.len() != 9 {
    } else {
        let i = open_cells(c)[n - 1] as int;
        lemma_open_upto(c, 9);
        lemma_open_after_place(c, i, Some(turn_of(c)), 9);
    }
}

/// The value of playing cell `i`, for the side to move.
pub open spec fn move_value(c: Seq<Option<Piece>>, i: int) -> Eval {
    value(successor(c, i)).incremented().negated()
}

/// Basic facts on the empty-cell list.
pub proof fn lemma_open_upto(c: Seq<Option<Piece>>, n: nat)
    requires
        n <= c.len() == 9,
    ensures
        open_upto(c, n).len() <= n,
        forall|j: int|
            0 <= j < open_upto(c, n).len() ==> (#[trigger] open_upto(c, n)[j]) < n && c[open_upto(
                c,
                n,
            )[j] as int] is None,
        forall|j: int, k: int|
            0 <= j < k < open_upto(c, n).len() ==> open_upto(c, n)[j] < open_upto(c, n)[k],
        forall|i: int| 0 <= i < n && (#[trigger] c[i]) is None ==> open_upto(c, n).len() > 0,
    decreases n,
{
    if n > 0 {
        let m = (n - 1) as nat;
        lemma_open_upto(c, m);
        let s = open_upto(c, m);
        if c[m as int] is None {
            assert(open_upto(c, n) == s.push(m as usize));
            assert((m as usize) as int == m);
        } else {
            assert(open_upto(c, n) == s);
        }
    }
}

/// Marking an empty cell removes exactly that cell from the empty-cell list.
pub proof fn lemma_open_after_place(c: Seq<Option<Piece>>, i: int, v: Option<Piece>, n: nat)
    requires
        0 <= i < c.len() == 9,
        n <= c.len(),
        c[i] is None,
        v is Some,
    ensures
        open_upto(c.update(i, v), n).len() == open_upto(c, n).len() - (if i < n {
            1int
        } else {
            0int
        }),
    decreases n,
{
    if n > 0 {
        lemma_open_after_place(c, i, v, (n - 1) as nat);
        lemma_open_upto(c, (n - 1) as nat);
    }
}

/// Where a move with ranking key `k` goes in a list ranked from best to
/// worst, searching from position `j`: after every move at least as good.
pub open spec fn insert_pos(s: Seq<Move>, k: int, j: nat) -> nat
    decreases s.len() - j,
{
    if j >= s.len() {
        s.len()
    } else if s[j as int].1.num() < k {
        j
    } else {
        insert_pos(s, k, j + 1)
    }
}

/// The moves ranked from best to worst; equal moves keep their order.
pub open spec fn ranked(s: Seq<Move>) -> Seq<Move>
    decreases s.len(),
{
    if s.len() == 0 {
        s
    } else {
        let r = ranked(s.drop_last());
        r.insert(insert_pos(r, s.last().1.num(), 0) as int, s.last())
    }
}

/// Each move of a position with its value, in ascending cell order.
pub open spec fn scored(c: Seq<Option<Piece>>) -> Seq<Move> {
    Seq::new(
        open_cells(c).len(),
        |j: int| Move(open_cells(c)[j], move_value(c, open_cells(c)[j] as int)),
    )
}

/// The cells of line `k`.
fn line_at(k: usize) -> (r: (usize, usize, usize))
    requires
        k < 8,
    ensures
        r.0 as int == line(k as int).0,
        r.1 as int == line(k as int).1,
        r.2 as int == line(k as int).2,
        r.0 < 9 && r.1 < 9 && r.2 < 9,
{
    if k == 0 {
        (0, 1, 2)
    } else if k == 1 {
        (3, 4, 5)
    } else if k == 2 {
        (6, 7, 8)
    } else if k == 3 {
        (0, 3, 6)
    } else if k == 4 {
        (1, 4, 7)
    } else if k == 5 {
        (2, 5, 8)
    } else if k == 6 {
        (0, 4, 8)
    } else {
        (2, 4, 6)
    }
}

impl Default for Board {
    /// The empty start position.
    fn default() -> (r: Board)
        ensures
            forall|i: int| 0 <= i < 9 ==> (#[trigger] r.0@[i]) is None,
    {
        Board([None, None, None, None, None, None, None, None, None])
    }
}

impl Board {
    pub fn full(&self) -> (r: bool)
        ensures
            r == is_full(self.0@),
    {
        let mut i: usize = 0;
        while i < 9
            invariant
                i <= 9,
                forall|j: int| 0 <= j < i ==> (#[trigger] self.0@[j]) is Some,
            decreases 9 - i,
        {
            if self.0[i].is_none() {
                return false;
            }
            i += 1;
        }
        true
    }

    pub fn winner(&self) -> (r: Option<Piece>)
        ensures
            r == winner_of(self.0@),
    {
        let mut k: usize = 0;
        while k < 8
            invariant
                k <= 8,
                winner_of(self.0@) == winner_from(self.0@, k as nat),
            decreases 8 - k,
        {
            let (a, b, d) = line_at(k);
            if let Some(p) = self.0[a] {
                if self.0[b] == Some(p) && self.0[d] == Some(p) {
                    return Some(p);
                }
            }
            k += 1;
        }
        None
    }

    pub fn open(&self) -> (r: Vec<usize>)
        ensures
            r@ == open_cells(self.0@),
    {
        let mut open: Vec<usize> = Vec::new();
        let mut i: usize = 0;
        while i < 9
            invariant
                i <= 9,
                open@ == open_upto(self.0@, i as nat),
            decreases 9 - i,
        {
            if self.0[i].is_none() {
                open.push(i);
            }
            i += 1;
        }
        open
    }

    pub fn turn(&self) -> (r: Piece)
        ensures
            r == turn_of(self.0@),
    {
        if self.open().len() % 2 == 0 {
            return Piece::O;
        }
        Piece::X
    }

    /// One successor for each empty cell, in ascending cell order.
    pub fn moves(&self) -> (r: Vec<(usize, Board)>)
        ensures
            r@.len() == open_cells(self.0@).len(),
            forall|j: int|
                0 <= j < r@.len() ==> (#[trigger] r@[j]).0 == open_cells(self.0@)[j] && r@[j].1.0@
                    == successor(self.0@, open_cells(self.0@)[j] as int),
    {
        let open = self.open();
        let t = self.turn();
        proof {
            lemma_open_upto(self.0@, 9);
        }
        let mut moves: Vec<(usize, Board)> = Vec::new();
        let mut j: usize = 0;
        while j < open.len()
            invariant
                j <= open@.len(),
                open@ == open_cells(self.0@),
                t == turn_of(self.0@),
                moves@.len() == j,
                forall|q: int| 0 <= q < open@.len() ==> (#[trigger] open@[q]) < 9,
                forall|q: int|
                    0 <= q < j ==> (#[trigger] moves@[q]).0 == open@[q] && moves@[q].1.0@
                        == successor(self.0@, open@[q] as int),
            decreases open@.len() - j,
        {
            let sq = open[j];
            let mut new = Board(self.0);
            new.0[sq] = Some(t);
            moves.push((sq, new));
            j += 1;
        }
        moves
    }

    pub fn eval(&self) -> (r: Eval)
        ensures
            r == eval_of(self.0@),
    {
        let score = match self.winner() {
            Some(Piece::X) => Eval::Winning(0),
            Some(Piece::O) => Eval::Losing(0),
            None => Eval::Draw,
        };
        match self.turn() {
            Piece::X => score,
            Piece::O => score.neg(),
        }
    }

    fn negamax(&self) -> (r: Eval)
        ensures
            r == value(self.0@),
            r.distance() <= open_cells(self.0@).len(),
        decreases open_cells(self.0@).len(),
    {
        let mut best = None::<Eval>;
        if self.full() || self.winner().is_some() {
            return self.eval();
        }
        let c = Ghost(self.0@);
        let moves = self.moves();
        proof {
            lemma_open_upto(c@, 9);
            assert(!is_full(c@));
            let i = choose|i: int| 0 <= i < 9 && !(c@[i] is Some);
            assert(c@[i] is None);
        }
        let mut j: usize = 0;
        while j < moves.len()
            invariant
                j <= moves@.len() == open_cells(c@).len(),
                c@ == self.0@,
                !is_terminal(c@),
                forall|q: int| 0 <= q < open_cells(c@).len() ==> (#[trigger] open_cells(c@)[q]) < 9
                    && c@[open_cells(c@)[q] as int] is None,
                forall|q: int|
                    0 <= q < moves@.len() ==> (#[trigger] moves@[q]).0 == open_cells(c@)[q]
                        && moves@[q].1.0@ == successor(c@, open_cells(c@)[q] as int),
                j == 0 ==> best is None,
                j > 0 ==> best == Some(best_upto(c@, j as nat)),
                j > 0 ==> best_upto(c@, j as nat).distance() <= open_cells(c@).len(),
            decreases moves@.len() - j,
        {
            let position = moves[j].1;
            proof {
                lemma_open_after_place(c@, open_cells(c@)[j as int] as int, Some(turn_of(c@)), 9);
            }
            let score = position.negamax().increment().neg();
            if let Some(e) = best {
                if score._num() > e._num() {
                    best = Some(score);
                }
            } else {
                best = Some(score);
            }
            j += 1;
        }
        best.unwrap()
    }

    /// Every move with its value for the side to move, best first; moves of
    /// equal value stay in ascending cell order.
    pub fn search(&self) -> (r: Vec<Move>)
        ensures
            r@ == ranked(scored(self.0@)),
            is_ranked(r@),
            r@.to_multiset() == scored(self.0@).to_multiset(),
    {
        let c = Ghost(self.0@);
        let mvs = self.moves();
        proof {
            lemma_open_upto(c@, 9);
        }
        let mut moves: Vec<Move> = Vec::new();
        let mut j: usize = 0;
        while j < mvs.len()
            invariant
                j <= mvs@.len() == open_cells(c@).len(),
                c@ == self.0@,
                forall|q: int| 0 <= q < open_cells(c@).len() ==> (#[trigger] open_cells(c@)[q]) < 9
                    && c@[open_cells(c@)[q] as int] is None,
                forall|q: int|
                    0 <= q < mvs@.len() ==> (#[trigger] mvs@[q]).0 == open_cells(c@)[q]
                        && mvs@[q].1.0@ == successor(c@, open_cells(c@)[q] as int),
                moves@ == scored(c@).take(j as int),
            decreases mvs@.len() - j,
        {
            let (index, position) = mvs[j];
            proof {
                lemma_open_after_place(c@, open_cells(c@)[j as int] as int, Some(turn_of(c@)), 9);
            }
            moves.push(Move(index, position.negamax().increment().neg()));
            j += 1;
            assert(moves@ =~= scored(c@).take(j as int));
        }
        assert(moves@ =~= scored(c@));
        proof {
            lemma_ranked(moves@);
        }
        rank(moves)
    }
}

/// The cell that the computer plays from a ranking of the moves: the best
/// one when it plays its hardest, else the one at place `pick`.
pub fn computer_choice(ranked: &Vec<Move>, tryhard: bool, pick: usize) -> (r: usize)
    requires
        0 <= pick < ranked@.len(),
    ensures
        r == (if tryhard {
            ranked@[0].0
        } else {
            ranked@[pick as int].0
        }),
{
    if tryhard {
        ranked[0].index()
    } else {
        ranked[pick].index()
    }
}

/// Ranks moves from best to worst, keeping the order of equal moves.
fn rank(moves: Vec<Move>) -> (r: Vec<Move>)
    ensures
        r@ == ranked(moves@),
{
    let mut out: Vec<Move> = Vec::new();
    let mut j: usize = 0;
    while j < moves.len()
        invariant
            j <= moves@.len(),
            out@ == ranked(moves@.take(j as int)),
            out@.len() == j,
        decreases moves@.len() - j,
    {
        let m = moves[j];
        let k = m.1._num();
        let mut p: usize = 0;
        while p < out.len() && out[p].1._num() >= k
            invariant
                p <= out@.len(),
                insert_pos(out@, k as int, 0) == insert_pos(out@, k as int, p as nat),
            decreases out@.len() - p,
        {
            p += 1;
        }
        proof {
            let t = moves@.take(j as int + 1);
            assert(t.drop_last() =~= moves@.take(j as int));
            assert(t.last() == m);
        }
        out.insert(p, m);
        j += 1;
    }
    assert(moves@.take(j as int) =~= moves@);
    out
}


/// The winner, searched from line `s` on, is the owner of some line from
/// `s` on, and there is none exactly when no line from `s` on is filled.
proof fn lemma_winner_from(c: Seq<Option<Piece>>, s: nat)
    requires
        s <= 8,
    ensures
        winner_from(c, s) is None <==> (forall|j: int| s <= j < 8 ==> (#[trigger] line_owner(c, j)) is None),
        winner_from(c, s) is Some ==> exists|j: int| s <= j < 8 && #[trigger] line_owner(c, j) == winner_from(c, s),
    decreases 8 - s,
{
    if s < 8 {
        lemma_winner_from(c, s + 1);
    }
}

/// A line filled by mark `m`, with no line filled by the other mark, makes
/// `m` the winner; with no filled line there is no winner.
pub proof fn lemma_winner(b: Board, m: Piece)
    ensures
        (exists|k: int| 0 <= k < 8 && #[trigger] line_owner(b.0@, k) == Some(m)) && (forall|k: int|
            0 <= k < 8 ==> #[trigger] line_owner(b.0@, k) != Some(m.other())) ==> winner_of(b.0@)
            == Some(m),
        (forall|k: int| 0 <= k < 8 ==> (#[trigger] line_owner(b.0@, k)) is None) ==> winner_of(
            b.0@,
        ) is None,
{
    lemma_winner_from(b.0@, 0);
}

/// Each move hands the turn to the other mark.
pub proof fn lemma_turn_alternates(b: Board, i: int)
    requires
        0 <= i < 9,
        b.0@[i] is None,
    ensures
        turn_of(successor(b.0@, i)) == turn_of(b.0@).other(),
{
    lemma_open_after_place(b.0@, i, Some(turn_of(b.0@)), 9);
}

/// With every cell among the first `n` empty, all of them are listed.
proof fn lemma_open_all(c: Seq<Option<Piece>>, n: nat)
    requires
        n <= c.len(),
        forall|i: int| 0 <= i < c.len() ==> (#[trigger] c[i]) is None,
    ensures
        open_upto(c, n).len() == n,
    decreases n,
{
    if n > 0 {
        lemma_open_all(c, (n - 1) as nat);
    }
}

/// First moves on the empty start position.
pub proof fn lemma_start_turn(b: Board)
    requires
        forall|i: int| 0 <= i < 9 ==> (#[trigger] b.0@[i]) is None,
    ensures
        turn_of(b.0@) == Piece::X,
{
    lemma_open_all(b.0@, 9);
}


/// The insertion point lies after every move at least as good and before
/// the first worse one.
proof fn lemma_insert_pos(s: Seq<Move>, k: int, j: nat)
    requires
        j <= s.len(),
    ensures
        j <= insert_pos(s, k, j) <= s.len(),
        forall|q: int| j <= q < insert_pos(s, k, j) ==> (#[trigger] s[q]).1.num() >= k,
        insert_pos(s, k, j) < s.len() ==> s[insert_pos(s, k, j) as int].1.num() < k,
    decreases s.len() - j,
{
    if j < s.len() && s[j as int].1.num() >= k {
        lemma_insert_pos(s, k, j + 1);
    }
}

pub open spec fn is_ranked(s: Seq<Move>) -> bool {
    forall|a: int, b: int| 0 <= a < b < s.len() ==> (#[trigger] s[a]).1.num() >= (#[trigger] s[b]).1.num()
}

/// Ranking orders the moves from best to worst and keeps exactly the same
/// moves.
pub proof fn lemma_ranked(s: Seq<Move>)
    ensures
        ranked(s).len() == s.len(),
        is_ranked(ranked(s)),
        ranked(s).to_multiset() == s.to_multiset(),
    decreases s.len(),
{
    if s.len() > 0 {
        let t = s.drop_last();
        let x = s.last();
        let r = ranked(t);
        lemma_ranked(t);
        let p = insert_pos(r, x.1.num(), 0);
        lemma_insert_pos(r, x.1.num(), 0);
        let n = r.insert(p as int, x);
        assert forall|a: int, b: int| 0 <= a < b < n.len() implies (#[trigger] n[a]).1.num() >= (
        #[trigger] n[b]).1.num() by {
            if a < p && b > p {
                assert(n[a] == r[a] && n[b] == r[b - 1]);
                assert(r[a].1.num() >= x.1.num());
            } else if a == p && b > p {
                assert(n[b] == r[b - 1]);
                assert(r[p as int].1.num() < x.1.num());
                if b - 1 > p {
                    assert(r[p as int].1.num() >= r[b - 1].1.num());
                }
            } else if a < p && b == p {
                assert(r[a].1.num() >= x.1.num());
            } else if b < p {
                assert(n[a] == r[a] && n[b] == r[b]);
            } else {
                assert(n[a] == r[a - 1] && n[b] == r[b - 1]);
            }
        }
        r.to_multiset_ensures();
        n.to_multiset_ensures();
        t.to_multiset_ensures();
        s.to_multiset_ensures();
        assert(s == t.push(x));
        vstd::seq_lib::lemma_multiset_commutative(r.take(p as int), r.skip(p as int).insert(0, x));
        assert(n == r.take(p as int) + r.skip(p as int).insert(0, x));
        assert(r == r.take(p as int) + r.skip(p as int));
        vstd::seq_lib::lemma_multiset_commutative(r.take(p as int), r.skip(p as int));
        r.skip(p as int).to_multiset_ensures();
        r.skip(p as int).insert(0, x).to_multiset_ensures();
        assert(r.skip(p as int).insert(0, x) == seq![x] + r.skip(p as int));
        vstd::seq_lib::lemma_multiset_commutative(seq![x], r.skip(p as int));
        let (a, b) = (r.take(p as int).to_multiset(), r.skip(p as int).to_multiset());
        assert(seq![x].to_multiset() =~= vstd::multiset::Multiset::empty().insert(x)) by {
            assert(seq![x] == Seq::<Move>::empty().push(x));
            Seq::<Move>::empty().to_multiset_ensures();
        }
        assert(n.to_multiset() =~= a.add(b).insert(x));
        assert(s.to_multiset() =~= t.to_multiset().insert(x));
    }
}


/// The value of a position is decided within as many plies as there are
/// empty cells.
proof fn lemma_value_bound(c: Seq<Option<Piece>>)
    requires
        c.len() == 9,
    ensures
        value(c).distance() <= open_cells(c).len(),
    decreases open_cells(c).len(), open_cells(c).len() + 1,
{
    if !is_terminal(c) {
        lemma_open_upto(c, 9);
        let i = choose|i: int| 0 <= i < 9 && !(c[i] is Some);
        assert(c[i] is None);
        lemma_best_bound(c, open_cells(c).len());
    }
}

/// The best of the first `n` moves is decided within as many plies as there
/// are empty cells, and is never a loss on the spot.
proof fn lemma_best_bound(c: Seq<Option<Piece>>, n: nat)
    requires
        c.len() == 9,
        1 <= n <= open_cells(c).len(),
    ensures
        best_upto(c, n).distance() <= open_cells(c).len(),
        best_upto(c, n) is Draw || best_upto(c, n).distance() >= 1,
    decreases open_cells(c).len(), n,
{
    lemma_open_upto(c, 9);
    let i = open_cells(c)[n - 1] as int;
    lemma_open_after_place(c, i, Some(turn_of(c)), 9);
    lemma_value_bound(successor(c, i));
    if n > 1 {
        lemma_best_bound(c, (n - 1) as nat);
    }
}

/// Every empty cell among the first `n` is listed.
proof fn lemma_open_contains(c: Seq<Option<Piece>>, n: nat, i: int)
    requires
        n <= c.len() == 9,
        0 <= i < n,
        c[i] is None,
    ensures
        exists|q: int| 0 <= q < open_upto(c, n).len() && #[trigger] open_upto(c, n)[q] == i,
    decreases n,
{
    lemma_open_upto(c, n);
    if i < n - 1 {
        lemma_open_contains(c, (n - 1) as nat, i);
        let q = choose|q: int|
            0 <= q < open_upto(c, (n - 1) as nat).len() && #[trigger] open_upto(c, (n - 1) as nat)[q]
                == i;
        if c[n - 1] is None {
            assert(open_upto(c, n)[q] == i);
        }
    } else {
        assert(open_upto(c, n).last() == i);
    }
}

/// The value of each move is decided within nine plies and is at best a
/// win on the spot.
proof fn lemma_move_value_bound(c: Seq<Option<Piece>>, i: int)
    requires
        c.len() == 9,
        0 <= i < 9,
        c[i] is None,
    ensures
        move_value(c, i).distance() <= 9,
        move_value(c, i).num() <= 9,
        move_value(c, i) == Eval::Winning(1) ==> value(successor(c, i)) == Eval::Losing(0),
{
    lemma_open_upto(c, 9);
    lemma_open_after_place(c, i, Some(turn_of(c)), 9);
    lemma_value_bound(successor(c, i));
}

/// A position whose winner is the side that just moved is valued as a loss
/// on the spot, and a position valued so has that winner.
proof fn lemma_lost_on_the_spot(c: Seq<Option<Piece>>, t: Piece)
    requires
        c.len() == 9,
        turn_of(c) == t.other(),
    ensures
        winner_of(c) == Some(t) ==> value(c) == Eval::Losing(0),
        value(c) == Eval::Losing(0) ==> winner_of(c) == Some(t),
{
    if !is_terminal(c) {
        lemma_open_upto(c, 9);
        let i = choose|i: int| 0 <= i < 9 && !(c[i] is Some);
        assert(c[i] is None);
        lemma_best_bound(c, open_cells(c).len());
    }
}

/// When the side to move can fill a line, the best-ranked move is one that
/// fills a line, a win on the spot.
pub proof fn lemma_completing_move_first(b: Board, i: int, k: int)
    requires
        !is_terminal(b.0@),
        0 <= i < 9,
        b.0@[i] is None,
        0 <= k < 8,
        line_owner(successor(b.0@, i), k) == Some(turn_of(b.0@)),
    ensures
        ranked(scored(b.0@)).len() > 0,
        ranked(scored(b.0@))[0].1 == Eval::Winning(1),
        winner_of(successor(b.0@, ranked(scored(b.0@))[0].0 as int)) == Some(turn_of(b.0@)),
{
    let c = b.0@;
    let t = turn_of(c);
    let d = successor(c, i);
    let sc = scored(c);
    let r = ranked(sc);
    lemma_open_upto(c, 9);
    lemma_winner_from(c, 0);
    lemma_winner_from(d, 0);
    lemma_turn_alternates(b, i);
    assert forall|j: int| 0 <= j < 8 implies #[trigger] line_owner(d, j) != Some(t.other()) by {
        assert(line_owner(c, j) is None);
    }
    lemma_lost_on_the_spot(d, t);
    lemma_move_value_bound(c, i);
    lemma_open_contains(c, 9, i);
    let q = choose|q: int| 0 <= q < open_cells(c).len() && #[trigger] open_cells(c)[q] == i;
    assert(sc[q] == Move(open_cells(c)[q], move_value(c, i)));
    lemma_ranked(sc);
    sc.to_multiset_ensures();
    r.to_multiset_ensures();
    assert(sc.contains(sc[q]));
    assert(sc.to_multiset().count(sc[q]) > 0);
    assert(r.to_multiset().count(sc[q]) > 0);
    assert(r.contains(sc[q]));
    let p = choose|p: int| 0 <= p < r.len() && #[trigger] r[p] == sc[q];
    assert(r[0].1.num() >= 9);
    assert(r.contains(r[0]));
    assert(r.to_multiset().count(r[0]) > 0);
    assert(sc.to_multiset().count(r[0]) > 0);
    assert(sc.contains(r[0]));
    let q2 = choose|q2: int| 0 <= q2 < sc.len() && #[trigger] sc[q2] == r[0];
    let i2 = open_cells(c)[q2] as int;
    lemma_move_value_bound(c, i2);
    lemma_turn_alternates(b, i2);
    lemma_lost_on_the_spot(successor(c, i2), t);
}

} // verus!
