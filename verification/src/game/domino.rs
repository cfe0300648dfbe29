//! Dominoes: a pair of values laid on two adjacent cells.

use crate::game::board::{Coord, Position};
use crate::text::{append_decimal, decimal};
use vstd::prelude::*;
use vstd::std_specs::convert::FromSpecImpl;
use vstd::string::StringExecFns;

verus! {

/// The number under which a board registers a domino.
pub type Id = u8;

/// The number of pips on one half of a domino.
pub type Value = u8;

/// The direction in which the tail lies from the head.
#[derive(Copy, Clone, Debug, Eq, Hash, PartialEq, Structural)]
pub enum Orientation {
    /// The tail is the cell to the right of the head.
    Horizontal,
    /// The tail is the cell below the head.
    Vertical,
}

/// The pips of the two halves.
#[derive(Copy, Clone, Debug, Eq, Hash, PartialEq, Structural)]
pub struct Values {
    pub head: Value,
    pub tail: Value,
}

impl Values {
    /// The pips as text: head and tail with a bar between them, in square
    /// brackets.
    pub open spec fn text(self) -> Seq<char> {
        seq!['['] + decimal(self.head as nat) + seq!['|'] + decimal(self.tail as nat) + seq![']']
    }

    /// The pips as text, such as `[6|0]`.
    pub fn to_text(&self) -> (text: String)
        ensures
            text@ == self.text(),
    {
        proof {
            reveal_strlit("[");
            reveal_strlit("|");
            reveal_strlit("]");
        }
        let mut text = String::from_str("[");
        append_decimal(&mut text, self.head);
        text.append("|");
        append_decimal(&mut text, self.tail);
        text.append("]");
        proof {
            assert(text@ =~= self.text());
        }
        text
    }

    /// The same pips with head and tail exchanged.
    pub open spec fn spec_swapped(self) -> Values {
        Values { head: self.tail, tail: self.head }
    }

    /// The same pips with head and tail exchanged.
    #[verifier::when_used_as_spec(spec_swapped)]
    pub fn swapped(self) -> (swapped: Values)
        ensures
            swapped == self.spec_swapped(),
    {
        Values { head: self.tail, tail: self.head }
    }
}

impl Default for Values {
    fn default() -> (values: Self)
        ensures
            values == (Values { head: 0, tail: 0 }),
    {
        Values { head: 0, tail: 0 }
    }
}

impl From<(Value, Value)> for Values {
    fn from(pair: (Value, Value)) -> (values: Self) {
        Values { head: pair.0, tail: pair.1 }
    }
}

impl FromSpecImpl<(Value, Value)> for Values {
    open spec fn obeys_from_spec() -> bool {
        true
    }

    open spec fn from_spec(pair: (Value, Value)) -> Self {
        Values { head: pair.0, tail: pair.1 }
    }
}

/// A domino: its pips, the cell of its head, and where the tail lies from
/// there.
#[derive(Copy, Clone, Debug, Eq, Hash, PartialEq, Structural)]
pub struct Domino {
    pub values: Values,
    pub position: Position,
    pub orientation: Orientation,
}

impl Domino {
    /// The domino as text: its pips, such as `[6|0]`.
    pub fn to_text(&self) -> (text: String)
        ensures
            text@ == self.values.text(),
    {
        self.values.to_text()
    }

    /// Whether the cell of the tail can be written with `Coord`s at all.
    pub open spec fn tail_is_addressable(self) -> bool {
        match self.orientation {
            Orientation::Horizontal => self.position.x < Coord::MAX,
            Orientation::Vertical => self.position.y < Coord::MAX,
        }
    }

    /// The cell of the tail: one to the right of the head for a horizontal
    /// domino, one below it for a vertical one.
    pub open spec fn spec_tail_position(&self) -> Position {
        match self.orientation {
            Orientation::Horizontal => Position {
                x: (self.position.x + 1) as Coord,
                y: self.position.y,
            },
            Orientation::Vertical => Position {
                x: self.position.x,
                y: (self.position.y + 1) as Coord,
            },
        }
    }

    /// The cell of the tail.
    #[verifier::when_used_as_spec(spec_tail_position)]
    pub fn tail_position(&self) -> (tail: Position)
        requires
            self.tail_is_addressable(),
        ensures
            tail == self.spec_tail_position(),
            match self.orientation {
                Orientation::Horizontal => tail.x == self.position.x + 1 && tail.y
                    == self.position.y,
                Orientation::Vertical => tail.x == self.position.x && tail.y == self.position.y
                    + 1,
            },
    {
        match self.orientation {
            Orientation::Horizontal => Position { x: self.position.x + 1, y: self.position.y },
            Orientation::Vertical => Position { x: self.position.x, y: self.position.y + 1 },
        }
    }
}

} // verus!
