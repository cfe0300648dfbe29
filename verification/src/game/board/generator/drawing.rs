//! What a drawing of a board means: its rows and columns, its marks, and
//! the board that the marks stand for.

use crate::game::board::generator::LayoutError;
use crate::game::board::model::{lemma_put_reads_back, BoardView};
use crate::game::board::{Coord, Position};
use crate::game::domino::{Domino, Id, Orientation, Values};
use vstd::prelude::*;

verus! {

/// The number of rows of a drawing: one more than it has line breaks.
pub open spec fn rows(layout: Seq<char>) -> nat
    decreases layout.len(),
{
    if layout.len() == 0 {
        1
    } else if layout.last() == '\n' {
        rows(layout.drop_last()) + 1
    } else {
        rows(layout.drop_last())
    }
}

/// The column that the text has reached at its end: the length of its last
/// line.
pub open spec fn column(layout: Seq<char>) -> nat
    decreases layout.len(),
{
    if layout.len() == 0 || layout.last() == '\n' {
        0
    } else {
        column(layout.drop_last()) + 1
    }
}

/// The number of columns of a drawing: the length of its longest line.
pub open spec fn columns(layout: Seq<char>) -> nat
    decreases layout.len(),
{
    if layout.len() == 0 {
        0
    } else if columns(layout.drop_last()) >= column(layout) {
        columns(layout.drop_last())
    } else {
        column(layout)
    }
}

/// The domino that a character of the drawing asks for, if it is a mark.
pub open spec fn mark(character: char) -> Option<Orientation> {
    if character == '|' {
        Some(Orientation::Vertical)
    } else if character == '-' {
        Some(Orientation::Horizontal)
    } else {
        None
    }
}

/// The domino without pips that a mark asks for.
pub open spec fn blank(position: Position, orientation: Orientation) -> Domino {
    Domino { values: Values { head: 0, tail: 0 }, position, orientation }
}

/// The board after a mark at a cell of the grid. On an empty cell the mark
/// places a domino with its head there. On a cell that is taken the mark
/// must agree with the domino that lies there, and changes nothing.
pub open spec fn filled(board: BoardView, position: Position, orientation: Orientation) -> Result<
    BoardView,
    LayoutError,
> {
    match board.tile(position).owner() {
        None => match board.placement_violation(blank(position, orientation)) {
            Some(violation) => Err(LayoutError::Refused(violation)),
            None => Ok(board.put(blank(position, orientation))),
        },
        Some(id) => if board.dominoes[id].orientation == orientation {
            Ok(board)
        } else {
            Err(LayoutError::Inconsistent(position))
        },
    }
}

/// The cell of the character at the given place of the drawing.
pub open spec fn cell_at(layout: Seq<char>, place: int) -> Position {
    Position {
        x: column(layout.take(place)) as Coord,
        y: (rows(layout.take(place)) - 1) as Coord,
    }
}

/// The board after the marks among the first characters of the drawing, read
/// line by line, or the first error that they run into.
pub open spec fn drawn(layout: Seq<char>, read: nat) -> Result<BoardView, LayoutError>
    decreases read,
{
    if read == 0 {
        Ok(BoardView::empty(columns(layout), rows(layout)))
    } else {
        match drawn(layout, (read - 1) as nat) {
            Err(error) => Err(error),
            Ok(board) => match mark(layout[read - 1]) {
                None => Ok(board),
                Some(orientation) => filled(board, cell_at(layout, read - 1), orientation),
            },
        }
    }
}

/// The board that a drawing stands for, with no pips on its dominoes yet.
pub open spec fn layout_of(layout: Seq<char>) -> Result<BoardView, LayoutError> {
    if columns(layout) > Coord::MAX || rows(layout) > Coord::MAX {
        Err(LayoutError::TooLarge)
    } else {
        drawn(layout, layout.len())
    }
}

/// A drawing has at least the rows and columns of any of its beginnings, and
/// the last line of a beginning is no longer than the longest line.
pub proof fn lemma_beginning_is_smaller(layout: Seq<char>, read: int)
    requires
        0 <= read <= layout.len(),
    ensures
        1 <= rows(layout.take(read)) <= rows(layout),
        column(layout.take(read)) <= columns(layout.take(read)) <= columns(layout),
    decreases layout.len() - read,
{
    let beginning = layout.take(read);
    assert(1 <= rows(beginning) && column(beginning) <= columns(beginning)) by {
        lemma_rows_and_columns(beginning);
    }
    if read == layout.len() {
        assert(beginning =~= layout);
    } else {
        lemma_beginning_is_smaller(layout, read + 1);
        assert(layout.take(read + 1).drop_last() =~= beginning);
    }
}

/// A drawing has a row, and its last line is no longer than its longest.
pub proof fn lemma_rows_and_columns(layout: Seq<char>)
    ensures
        1 <= rows(layout),
        column(layout) <= columns(layout),
    decreases layout.len(),
{
    if layout.len() > 0 {
        lemma_rows_and_columns(layout.drop_last());
    }
}

/// Once the marks have run into an error, reading on does not mend it.
pub proof fn lemma_error_stays(layout: Seq<char>, read: int, later: int)
    requires
        0 <= read <= later,
        drawn(layout, read as nat) is Err,
    ensures
        drawn(layout, later as nat) == drawn(layout, read as nat),
    decreases later - read,
{
    if read < later {
        lemma_error_stays(layout, read, later - 1);
    }
}

/// The board that a drawing stands for is well formed and has the rows and
/// columns of the drawing, and none of its dominoes has pips yet. The same
/// holds of the board after any beginning of the drawing.
pub proof fn lemma_drawn_is_blank(layout: Seq<char>, read: nat)
    requires
        columns(layout) <= Coord::MAX,
        rows(layout) <= Coord::MAX,
    ensures
        drawn(layout, read) matches Ok(board) ==> {
            &&& board.wf()
            &&& board.width == columns(layout)
            &&& board.height == rows(layout)
            &&& forall|id: Id| #[trigger]
                board.dominoes.contains_key(id) ==> board.dominoes[id].values == (Values {
                    head: 0,
                    tail: 0,
                })
        },
    decreases read,
{
    if read > 0 {
        lemma_drawn_is_blank(layout, (read - 1) as nat);
        if let Ok(before) = drawn(layout, (read - 1) as nat) {
            if let Some(orientation) = mark(layout[read - 1]) {
                let position = cell_at(layout, read - 1);
                if before.tile(position).owner() is None {
                    if before.placement_violation(blank(position, orientation)) is None {
                        lemma_put_reads_back(before, blank(position, orientation));
                    }
                }
            }
        }
    }
}

} // verus!
