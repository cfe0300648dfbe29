//! How the pips of a half are drawn: on a grid of three by three spots, of
//! which a value shows some.

use vstd::prelude::*;

verus! {

/// A spot on the face of a half, and the value of the half.
#[derive(Copy, Clone, Debug, Eq, PartialEq, Structural)]
pub struct DotInfo {
    /// The row of the spot, from 0 to 2.
    pub row: i32,
    /// The column of the spot, from 0 to 2.
    pub col: i32,
    /// Whether the domino lies horizontally, so that its faces are turned.
    pub is_horizontal: bool,
    /// The number of pips of the half.
    pub value: i32,
}

/// The value from which on the spot of an upright face shows a pip. The spot
/// in the middle is no matter of size: see `shows_pip`.
pub open spec fn threshold(row: int, col: int) -> int {
    if row == 1 && col == 1 {
        0
    } else if row == 1 {
        6
    } else if col == 1 {
        8
    } else if row == col {
        4
    } else {
        2
    }
}

/// The spot seen on the upright face: a horizontal domino is an upright one
/// turned by a quarter, so its spot at a row and column is the upright
/// face's spot at the column and, counted from the other side, the row.
pub open spec fn upright(dot: DotInfo) -> (int, int) {
    if dot.is_horizontal {
        (dot.col as int, 2 - dot.row)
    } else {
        (dot.row as int, dot.col as int)
    }
}

/// Whether the spot shows a pip: the one in the middle for an odd value,
/// every other one from its threshold on.
pub open spec fn shows_pip(dot: DotInfo) -> bool {
    let (row, col) = upright(dot);
    if row == 1 && col == 1 {
        dot.value > 0 && dot.value % 2 == 1
    } else {
        dot.value >= threshold(row, col)
    }
}

/// The value from which on the spot of an upright face shows a pip.
fn vertical_threshold(row: i32, col: i32) -> (value: i32)
    requires
        0 <= row < 3,
        0 <= col < 3,
    ensures
        value == threshold(row as int, col as int),
{
    if row == 1 {
        if col == 1 {
            0
        } else {
            6
        }
    } else if col == 1 {
        8
    } else if row == col {
        4
    } else {
        2
    }
}

/// Whether the spot shows a pip.
pub fn is_dot_visible(dot: DotInfo) -> (visible: bool)
    requires
        0 <= dot.row < 3,
        0 <= dot.col < 3,
    ensures
        visible == shows_pip(dot),
{
    let DotInfo { mut row, mut col, is_horizontal, value } = dot;
    if is_horizontal {
        let new_col = 2 - row;
        row = col;
        col = new_col;
    }
    if row == 1 && col == 1 {
        value % 2 == 1
    } else {
        value >= vertical_threshold(row, col)
    }
}

} // verus!
