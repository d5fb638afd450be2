use vstd::prelude::*;

use crate::eval::string_of;

verus! {

/// A cell named by a row letter and a column digit, such as `a1` or `c3`.
pub struct Coord(pub String);

/// The row letter of cell `i`: `a` for the first row.
pub open spec fn row_letter(i: usize) -> char {
    ((i as u8) / 3 + 97) as u8 as char
}

/// The column digit of cell `i`: `1` for the first column.
pub open spec fn col_digit(i: usize) -> char {
    ((i % 3) as u8 + 49) as u8 as char
}

/// The name of cell `i`.
pub open spec fn coord_text(i: usize) -> Seq<char> {
    seq![row_letter(i), col_digit(i)]
}

/// The cell that a name points at, read from its first two characters.
pub open spec fn coord_index(s: Seq<char>) -> int {
    ((s[0] as int - 1) % 3) * 3 + (s[1] as int - 48) - 1
}

impl Coord {
    pub fn row(&self) -> (r: char)
        requires
            self.0@.len() >= 1,
        ensures
            r == self.0@[0],
    {
        self.0.as_str().get_char(0)
    }

    /// The column number, read from the second character.
    pub fn col(&self) -> (r: usize)
        requires
            self.0@.len() >= 2,
            '0' <= self.0@[1] <= '9',
        ensures
            r == self.0@[1] as int - 48,
    {
        let c = self.0.as_str().get_char(1);
        (c as u32 - 48) as usize
    }

    pub fn index(&self) -> (r: usize)
        requires
            self.0@.len() >= 2,
            self.0@[0] as int >= 1,
            '1' <= self.0@[1] <= '9',
        ensures
            r == coord_index(self.0@),
    {
        ((self.row() as usize - 1) % 3) * 3 + self.col() - 1
    }
}

impl From<usize> for Coord {
    /// The name of cell `index`.
    fn from(index: usize) -> (r: Coord)
        ensures
            r.0@ == coord_text(index),
    {
        let row = ((index as u8) / 3 + 97) as char;
        let col = ((index % 3) as u8 + 49) as char;
        let v = vec![row, col];
        Coord(string_of(&v))
    }
}

impl vstd::std_specs::convert::FromSpecImpl<usize> for Coord {
    /// A name is a string, which has no value in specifications: the
    /// contract of `from` states what it returns instead.
    open spec fn obeys_from_spec() -> bool {
        false
    }

    open spec fn from_spec(v: usize) -> Coord {
        arbitrary()
    }
}

/// Naming a cell and reading the name back gives the same cell.
pub proof fn lemma_coord_round_trip(i: usize)
    requires
        i < 9,
    ensures
        coord_index(coord_text(i)) == i,
{
    assert(coord_index(coord_text(i)) == i) by {
        assert(i == 0 || i == 1 || i == 2 || i == 3 || i == 4 || i == 5 || i == 6 || i == 7 || i
            == 8);
    }
}

} // verus!
