use vstd::prelude::*;

use crate::piece::Piece;
use std::cmp::Ordering;

verus! {

/// The value of a position for the side to move, with the distance in plies
/// to the decisive result.
#[derive(Debug, Clone, Copy)]
pub enum Eval {
    Draw,
    Winning(usize),
    Losing(usize),
}

impl Eval {
    /// The ranking key: a closer win is better, a farther loss is better.
    pub open spec fn num(self) -> int {
        match self {
            Eval::Draw => 0,
            Eval::Winning(x) => 10 - x,
            Eval::Losing(x) => x - 10,
        }
    }

    /// The distance to the decisive result; zero for a draw.
    pub open spec fn distance(self) -> nat {
        match self {
            Eval::Draw => 0,
            Eval::Winning(x) => x as nat,
            Eval::Losing(x) => x as nat,
        }
    }

    /// The same value seen from the opponent's side.
    pub open spec fn negated(self) -> Eval {
        match self {
            Eval::Draw => Eval::Draw,
            Eval::Winning(x) => Eval::Losing(x),
            Eval::Losing(x) => Eval::Winning(x),
        }
    }

    /// The same value one ply farther away.
    pub open spec fn incremented(self) -> Eval
        recommends
            self.distance() < usize::MAX,
    {
        match self {
            Eval::Draw => Eval::Draw,
            Eval::Winning(x) => Eval::Winning((x + 1) as usize),
            Eval::Losing(x) => Eval::Losing((x + 1) as usize),
        }
    }

    pub fn increment(&self) -> (r: Eval)
        requires
            self.distance() < usize::MAX,
        ensures
            r == self.incremented(),
    {
        match self {
            Eval::Draw => Eval::Draw,
            Eval::Winning(x) => Eval::Winning(x + 1),
            Eval::Losing(x) => Eval::Losing(x + 1),
        }
    }

    /// Describes this value for the side `p` to move: who wins or loses and
    /// in how many of that side's moves.
    pub fn str(&self, p: &Piece) -> (r: String)
        ensures
            r@ == message(*self, *p),
    {
        let mut v: Vec<char> = Vec::new();
        let side = match p {
            Piece::X => 'X',
            Piece::O => 'O',
        };
        match self {
            Eval::Draw => push_str(&mut v, "The game is a draw."),
            Eval::Losing(m) | Eval::Winning(m) => {
                v.push(side);
                if let Eval::Losing(_) = self {
                    push_str(&mut v, " loses in ");
                } else {
                    push_str(&mut v, " wins in ");
                }
                push_decimal(&mut v, m / 2 + m % 2);
                push_str(&mut v, " move");
                if *m > 2 {
                    push_str(&mut v, "s");
                }
                push_str(&mut v, ".");
            },
        }
        proof {
            reveal_strlit("");
            assert(v@ =~= message(*self, *p));
        }
        string_of(&v)
    }

    pub fn _num(&self) -> (r: i128)
        ensures
            r == self.num(),
    {
        match self {
            Eval::Draw => 0,
            Eval::Winning(x) => 10 - *x as i128,
            Eval::Losing(x) => *x as i128 - 10,
        }
    }
}

impl std::ops::Neg for Eval {
    type Output = Eval;

    fn neg(self) -> (r: Eval)
        ensures
            r == self.negated(),
    {
        match self {
            Eval::Draw => Eval::Draw,
            Eval::Winning(x) => Eval::Losing(x),
            Eval::Losing(x) => Eval::Winning(x),
        }
    }
}

impl vstd::std_specs::ops::NegSpecImpl for Eval {
    open spec fn obeys_neg_spec() -> bool {
        true
    }

    open spec fn neg_req(self) -> bool {
        true
    }

    open spec fn neg_spec(self) -> Eval {
        self.negated()
    }
}

impl PartialEq for Eval {
    fn eq(&self, other: &Eval) -> (r: bool) {
        self._num() == other._num()
    }
}

impl vstd::std_specs::cmp::PartialEqSpecImpl for Eval {
    open spec fn obeys_eq_spec() -> bool {
        true
    }

    open spec fn eq_spec(&self, other: &Eval) -> bool {
        self.num() == other.num()
    }
}

impl PartialOrd for Eval {
    fn partial_cmp(&self, other: &Eval) -> (r: Option<Ordering>) {
        let (a, b) = (self._num(), other._num());
        if a < b {
            Some(Ordering::Less)
        } else if a > b {
            Some(Ordering::Greater)
        } else {
            Some(Ordering::Equal)
        }
    }
}

impl vstd::std_specs::cmp::PartialOrdSpecImpl for Eval {
    open spec fn obeys_partial_cmp_spec() -> bool {
        true
    }

    open spec fn partial_cmp_spec(&self, other: &Eval) -> Option<Ordering> {
        if self.num() < other.num() {
            Some(Ordering::Less)
        } else if self.num() > other.num() {
            Some(Ordering::Greater)
        } else {
            Some(Ordering::Equal)
        }
    }
}

/// The decimal digits of `n`, most significant first.
pub open spec fn decimal(n: nat) -> Seq<char>
    decreases n,
{
    if n < 10 {
        seq!["0123456789"@[n as int]]
    } else {
        decimal(n / 10).push("0123456789"@[(n % 10) as int])
    }
}

/// The sentence that describes a value for the side `p` to move.
pub open spec fn message(e: Eval, p: Piece) -> Seq<char> {
    let side = if p == Piece::X {
        'X'
    } else {
        'O'
    };
    match e {
        Eval::Draw => "The game is a draw."@,
        Eval::Losing(m) => seq![side] + " loses in "@ + decimal((m / 2 + m % 2) as nat) + " move"@ + (
        if m > 2 {
            "s"@
        } else {
            ""@
        }) + "."@,
        Eval::Winning(m) => seq![side] + " wins in "@ + decimal((m / 2 + m % 2) as nat) + " move"@ + (
        if m > 2 {
            "s"@
        } else {
            ""@
        }) + "."@,
    }
}

/// Appends the characters of `s`.
fn push_str(v: &mut Vec<char>, s: &str)
    ensures
        final(v)@ == old(v)@ + s@,
{
    let n = s.unicode_len();
    let mut i: usize = 0;
    while i < n
        invariant
            n == s@.len(),
            i <= n,
            v@ == old(v)@ + s@.subrange(0, i as int),
        decreases n - i,
    {
        v.push(s.get_char(i));
        i += 1;
        assert(v@ =~= old(v)@ + s@.subrange(0, i as int));
    }
    assert(s@.subrange(0, n as int) =~= s@);
}

/// Appends the decimal digits of `n`.
fn push_decimal(v: &mut Vec<char>, n: usize)
    ensures
        final(v)@ == old(v)@ + decimal(n as nat),
    decreases n,
{
    let digits = "0123456789";
    proof {
        reveal_strlit("0123456789");
    }
    if n >= 10 {
        push_decimal(v, n / 10);
    }
    v.push(digits.get_char(n % 10));
    assert(v@ =~= old(v)@ + decimal(n as nat));
}

/// Relies on `FromIterator<char>` for `String`: the string holds exactly the
/// given characters, in order.
#[verifier::external_body]
pub(crate) fn string_of(v: &Vec<char>) -> (r: String)
    ensures
        r@ == v@,
{
    v.iter().collect()
}

/// Negating twice gives back the same value, and negation swaps a win and
/// a loss at the same distance while leaving a draw alone.
pub proof fn lemma_negate_involution(s: Eval)
    ensures
        s.negated().negated() == s,
        s is Draw <==> s.negated() is Draw,
        s matches Eval::Winning(d) ==> s.negated() == Eval::Losing(d),
        s matches Eval::Losing(d) ==> s.negated() == Eval::Winning(d),
        s.negated().num() == -s.num(),
        s.negated().distance() == s.distance(),
{
}

} // verus!
