//! The ways in which a caller can break the contract of a board or a game.

use crate::game::board::Position;
use crate::game::domino::Id;
use crate::text::{append_decimal, decimal};
use vstd::prelude::*;
use vstd::string::StringExecFns;

verus! {

/// A call that the board or the game refuses. Each one names the cell or the
/// domino that the caller got wrong, and leaves the board as it was.
#[derive(Copy, Clone, Debug, Eq, Hash, PartialEq, Structural)]
pub enum ContractViolation {
    /// The cell lies outside the grid.
    OutOfBounds(Position),
    /// The tail of a domino whose head is at this cell would lie outside the
    /// grid.
    TailOutOfBounds(Position),
    /// The cell is already taken by a domino.
    Occupied(Position),
    /// No domino is registered under this id.
    UnknownDomino(Id),
    /// The board has handed out every id it has.
    IdsExhausted,
}

impl ContractViolation {
    /// What went wrong, in words, with the cell or the domino by name.
    pub open spec fn text(self) -> Seq<char> {
        match self {
            ContractViolation::OutOfBounds(position) => "Tile "@ + position.text()
                + " out of bounds"@,
            ContractViolation::TailOutOfBounds(position) => "Tail of domino at tile "@
                + position.text() + " out of bounds"@,
            ContractViolation::Occupied(position) => "Put domino at already occupied tile "@
                + position.text(),
            ContractViolation::UnknownDomino(id) => "Non-existing domino "@ + decimal(id as nat),
            ContractViolation::IdsExhausted => "No domino id left"@,
        }
    }

    /// What went wrong, in words, with the cell or the domino by name.
    pub fn to_text(&self) -> (text: String)
        ensures
            text@ == self.text(),
    {
        match self {
            ContractViolation::OutOfBounds(position) => {
                let mut text = String::from_str("Tile ");
                text.append(position.to_text().as_str());
                text.append(" out of bounds");
                text
            },
            ContractViolation::TailOutOfBounds(position) => {
                let mut text = String::from_str("Tail of domino at tile ");
                text.append(position.to_text().as_str());
                text.append(" out of bounds");
                text
            },
            ContractViolation::Occupied(position) => {
                let mut text = String::from_str("Put domino at already occupied tile ");
                text.append(position.to_text().as_str());
                text
            },
            ContractViolation::UnknownDomino(id) => {
                let mut text = String::from_str("Non-existing domino ");
                append_decimal(&mut text, *id);
                text
            },
            ContractViolation::IdsExhausted => String::from_str("No domino id left"),
        }
    }
}

} // verus!
