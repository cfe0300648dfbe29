//! The grid of tiles and the registry of the dominoes that lie on it.

pub mod generator;
pub mod model;

use crate::game::board::model::{
    lemma_put_reads_back, lemma_remove_clears, lemma_with_values, BoardView,
};
use crate::game::domino::{Domino, Id, Orientation, Values};
use crate::game::violation::ContractViolation;
use crate::text::{append_decimal, decimal};
use std::collections::BTreeMap;
use vstd::prelude::*;
use vstd::std_specs::convert::FromSpecImpl;
use vstd::string::StringExecFns;

verus! {

/// A coordinate on the grid, counted from the left or from the top.
pub type Coord = u8;

/// A cell of the grid. Whether it lies on a given board is for the board to
/// say.
#[derive(Copy, Clone, Debug, Eq, Hash, PartialEq, Structural)]
pub struct Position {
    pub x: Coord,
    pub y: Coord,
}

impl Position {
    /// The cell as text: its two coordinates in brackets.
    pub open spec fn text(self) -> Seq<char> {
        seq!['('] + decimal(self.x as nat) + seq![',', ' '] + decimal(self.y as nat) + seq![')']
    }

    /// The cell as text, such as `(3, 0)`.
    pub fn to_text(&self) -> (text: String)
        ensures
            text@ == self.text(),
    {
        proof {
            reveal_strlit("(");
            reveal_strlit(", ");
            reveal_strlit(")");
        }
        let mut text = String::from_str("(");
        append_decimal(&mut text, self.x);
        text.append(", ");
        append_decimal(&mut text, self.y);
        text.append(")");
        proof {
            assert(text@ =~= self.text());
        }
        text
    }
}

impl From<(Coord, Coord)> for Position {
    fn from(pair: (Coord, Coord)) -> (position: Self) {
        Position { x: pair.0, y: pair.1 }
    }
}

impl FromSpecImpl<(Coord, Coord)> for Position {
    open spec fn obeys_from_spec() -> bool {
        true
    }

    open spec fn from_spec(pair: (Coord, Coord)) -> Self {
        Position { x: pair.0, y: pair.1 }
    }
}

/// What a cell of the grid holds.
#[derive(Copy, Clone, Debug, Eq, PartialEq, Structural)]
pub enum Tile {
    /// No domino lies here.
    Empty,
    /// The head of the domino with this id.
    Head(Id),
    /// The tail of the domino with this id.
    Tail(Id),
}

impl Tile {
    /// The domino that the tile belongs to, if any.
    pub open spec fn owner(self) -> Option<Id> {
        match self {
            Tile::Empty => None,
            Tile::Head(id) => Some(id),
            Tile::Tail(id) => Some(id),
        }
    }
}

/// The eight compass directions in which a cell has neighbours.
#[derive(Copy, Clone, Debug, Eq, Hash, PartialEq, Structural)]
pub enum Direction {
    N,
    NE,
    E,
    SE,
    S,
    SW,
    W,
    NW,
}

impl Direction {
    /// The direction one step clockwise from this one.
    pub open spec fn spec_next(self) -> Direction {
        match self {
            Direction::N => Direction::NE,
            Direction::NE => Direction::E,
            Direction::E => Direction::SE,
            Direction::SE => Direction::S,
            Direction::S => Direction::SW,
            Direction::SW => Direction::W,
            Direction::W => Direction::NW,
            Direction::NW => Direction::N,
        }
    }

    /// All eight directions, clockwise from north.
    pub open spec fn all() -> Seq<Direction> {
        seq![
            Direction::N,
            Direction::NE,
            Direction::E,
            Direction::SE,
            Direction::S,
            Direction::SW,
            Direction::W,
            Direction::NW,
        ]
    }

    /// How far a step in this direction moves to the right.
    pub open spec fn dx(self) -> int {
        match self {
            Direction::NE | Direction::E | Direction::SE => 1,
            Direction::SW | Direction::W | Direction::NW => -1,
            Direction::N | Direction::S => 0,
        }
    }

    /// How far a step in this direction moves down.
    pub open spec fn dy(self) -> int {
        match self {
            Direction::SE | Direction::S | Direction::SW => 1,
            Direction::N | Direction::NE | Direction::NW => -1,
            Direction::E | Direction::W => 0,
        }
    }

    /// The direction one step clockwise from this one.
    #[verifier::when_used_as_spec(spec_next)]
    pub fn next(self) -> (next: Direction)
        ensures
            next == self.spec_next(),
    {
        match self {
            Direction::N => Direction::NE,
            Direction::NE => Direction::E,
            Direction::E => Direction::SE,
            Direction::SE => Direction::S,
            Direction::S => Direction::SW,
            Direction::SW => Direction::W,
            Direction::W => Direction::NW,
            Direction::NW => Direction::N,
        }
    }

    /// A walk round the compass that starts at this direction and never
    /// ends.
    pub fn iter(self) -> (walk: DirectionIter)
        ensures
            walk.upcoming() == self,
    {
        DirectionIter { next: self }
    }

    /// All eight directions, clockwise from north.
    pub fn iter_all() -> (directions: Vec<Direction>)
        ensures
            directions@ == Direction::all(),
    {
        let mut walk = Direction::N.iter();
        let mut directions: Vec<Direction> = Vec::new();
        let mut taken: usize = 0;
        while taken < 8
            invariant
                taken <= 8,
                directions@ == Direction::all().take(taken as int),
                taken < 8 ==> walk.upcoming() == Direction::all()[taken as int],
            decreases 8 - taken,
        {
            match walk.next() {
                Some(direction) => directions.push(direction),
                None => {},
            }
            taken += 1;
        }
        directions
    }
}

/// A walk round the compass, clockwise and without end.
pub struct DirectionIter {
    next: Direction,
}

impl DirectionIter {
    /// The direction that the walk hands out next.
    pub closed spec fn upcoming(&self) -> Direction {
        self.next
    }

    /// Hands out the upcoming direction and moves one step clockwise. The
    /// walk never ends, so this is never `None`.
    pub fn next(&mut self) -> (direction: Option<Direction>)
        ensures
            direction == Some(old(self).upcoming()),
            final(self).upcoming() == old(self).upcoming().spec_next(),
    {
        let direction = self.next;
        self.next = self.next.next();
        Some(direction)
    }
}

/// A rectangular grid of tiles with the dominoes that lie on it.
#[derive(Debug)]
pub struct Board {
    tiles: Vec<Tile>,
    width: Coord,
    height: Coord,
    dominoes: BTreeMap<Id, Domino>,
    next_domino_id: Id,
}

/// Where the tile of a cell is kept: the rows lie one after the other.
pub open spec fn tile_index(width: nat, position: Position) -> int {
    position.y * width + position.x
}

/// Every cell of the grid has a place of its own among the tiles.
pub proof fn lemma_tile_index(width: nat, height: nat, position: Position)
    requires
        position.x < width,
        position.y < height,
    ensures
        0 <= tile_index(width, position) < width * height,
        forall|other: Position|
            other.x < width && #[trigger] tile_index(width, other) == tile_index(
                width,
                position,
            ) ==> other == position,
{
    let x = position.x as int;
    let y = position.y as int;
    let w = width as int;
    let h = height as int;
    assert(0 <= y * w + x < w * h) by (nonlinear_arith)
        requires
            0 <= x < w,
            0 <= y < h,
    ;
    assert forall|other: Position|
        other.x < width && #[trigger] tile_index(width, other) == tile_index(
            width,
            position,
        ) implies other == position by {
        let ox = other.x as int;
        let oy = other.y as int;
        assert(oy == y && ox == x) by (nonlinear_arith)
            requires
                0 <= x < w,
                0 <= ox < w,
                0 <= y,
                0 <= oy,
                oy * w + ox == y * w + x,
        ;
    }
}

/// The coordinate, if there is one and it is below the limit.
fn below(coordinate: Option<Coord>, limit: Coord) -> (kept: Option<Coord>)
    ensures
        kept == match coordinate {
            Some(coordinate) if coordinate < limit => Some(coordinate),
            _ => None,
        },
{
    match coordinate {
        Some(coordinate) if coordinate < limit => Some(coordinate),
        _ => None,
    }
}

/// The registered domino, to be written. This is `BTreeMap::get_mut` of std:
/// it hands out the entry under the key, if there is one, and what is written
/// through the reference is what the map then holds under that key. Nothing
/// else in the map changes.
#[verifier::external_body]
fn registered_mut(dominoes: &mut BTreeMap<Id, Domino>, id: Id) -> (domino: Option<&mut Domino>)
    ensures
        match domino {
            Some(domino) => {
                &&& old(dominoes)@.contains_key(id)
                &&& *domino == old(dominoes)@[id]
                &&& final(dominoes)@ == old(dominoes)@.insert(id, *final(domino))
            },
            None => !old(dominoes)@.contains_key(id) && final(dominoes)@ == old(dominoes)@,
        },
{
    dominoes.get_mut(&id)
}

impl View for Board {
    type V = BoardView;

    closed spec fn view(&self) -> BoardView {
        BoardView {
            width: self.width as nat,
            height: self.height as nat,
            tiles: Map::new(
                |position: Position| position.x < self.width && position.y < self.height,
                |position: Position| self.tiles@[tile_index(self.width as nat, position)],
            ),
            dominoes: self.dominoes@,
            next_id: self.next_domino_id as nat,
        }
    }
}

impl Clone for Board {
    fn clone(&self) -> (copy: Self)
        ensures
            copy@ == self@,
            copy.wf() == self.wf(),
    {
        let copy = Board {
            tiles: self.tiles.clone(),
            width: self.width,
            height: self.height,
            dominoes: self.dominoes.clone(),
            next_domino_id: self.next_domino_id,
        };
        proof {
            assert(copy.tiles@ =~= self.tiles@);
            assert(copy@ =~= self@);
        }
        copy
    }
}

impl Board {
    /// The grid is kept row by row, one tile for each cell.
    pub closed spec fn is_laid_out(&self) -> bool {
        self.tiles@.len() == self.width * self.height
    }

    /// The invariant that every board keeps.
    pub open spec fn wf(&self) -> bool {
        self.is_laid_out() && self@.wf()
    }

    /// An empty board of the given size. A board with no column or no row
    /// has no cell at all.
    pub fn new(width: Coord, height: Coord) -> (board: Self)
        ensures
            board.wf(),
            board@ == BoardView::empty(width as nat, height as nat),
    {
        assert(width * height <= Coord::MAX * Coord::MAX) by (nonlinear_arith)
            requires
                width <= Coord::MAX,
                height <= Coord::MAX,
        ;
        let tiles_len: usize = width as usize * height as usize;
        let mut tiles: Vec<Tile> = Vec::new();
        while tiles.len() < tiles_len
            invariant
                tiles@.len() <= tiles_len,
                forall|i: int| 0 <= i < tiles@.len() ==> tiles@[i] == Tile::Empty,
            decreases tiles_len - tiles@.len(),
        {
            tiles.push(Tile::Empty);
        }
        let board = Board {
            tiles,
            width,
            height,
            dominoes: BTreeMap::new(),
            next_domino_id: 0,
        };
        proof {
            assert forall|position: Position| #[trigger]
                board@.tiles.contains_key(position) implies board@.tiles[position]
                == Tile::Empty by {
                lemma_tile_index(width as nat, height as nat, position);
            }
            assert(board@ =~= BoardView::empty(width as nat, height as nat));
        }
        board
    }

    /// The number of columns.
    pub fn width(&self) -> (width: Coord)
        ensures
            width == self@.width,
    {
        self.width
    }

    /// The number of rows.
    pub fn height(&self) -> (height: Coord)
        ensures
            height == self@.height,
    {
        self.height
    }

    /// The registry: every domino on the board under its id, in ascending
    /// order of the ids.
    pub fn dominoes(&self) -> (dominoes: &BTreeMap<Id, Domino>)
        ensures
            dominoes@ == self@.dominoes,
    {
        &self.dominoes
    }

    /// Where the tile of the cell is kept, or the violation of asking for a
    /// cell outside the grid.
    fn index_of_tile(&self, position: Position) -> (index: Result<usize, ContractViolation>)
        requires
            self.is_laid_out(),
        ensures
            match index {
                Ok(index) => self@.contains(position) && index == tile_index(
                    self@.width,
                    position,
                ) && index < self.tiles@.len(),
                Err(violation) => !self@.contains(position) && violation
                    == ContractViolation::OutOfBounds(position),
            },
    {
        if position.x >= self.width || position.y >= self.height {
            return Err(ContractViolation::OutOfBounds(position));
        }
        proof {
            lemma_tile_index(self.width as nat, self.height as nat, position);
            assert(self.width * self.height <= Coord::MAX * Coord::MAX) by (nonlinear_arith)
                requires
                    self.width <= Coord::MAX,
                    self.height <= Coord::MAX,
            ;
        }
        Ok(position.y as usize * self.width as usize + position.x as usize)
    }

    /// The tile of a cell of the grid, to be written. Nothing else of the
    /// board changes with it.
    fn tile_mut(&mut self, position: Position) -> (tile: &mut Tile)
        requires
            old(self).is_laid_out(),
            old(self)@.contains(position),
        ensures
            *tile == old(self).tiles@[tile_index(old(self).width as nat, position)],
            final(self).tiles@ == old(self).tiles@.update(
                tile_index(old(self).width as nat, position),
                *final(tile),
            ),
            final(self).width == old(self).width,
            final(self).height == old(self).height,
            final(self).dominoes == old(self).dominoes,
            final(self).next_domino_id == old(self).next_domino_id,
    {
        proof {
            lemma_tile_index(self.width as nat, self.height as nat, position);
            assert(self.width * self.height <= Coord::MAX * Coord::MAX) by (nonlinear_arith)
                requires
                    self.width <= Coord::MAX,
                    self.height <= Coord::MAX,
            ;
        }
        let index = position.y as usize * self.width as usize + position.x as usize;
        &mut self.tiles[index]
    }

    /// The pips of a registered domino, to be set while the board is being
    /// laid out. An id that is not registered is refused.
    pub fn domino_values_mut(&mut self, id: Id) -> (values: Result<
        &mut Values,
        ContractViolation,
    >)
        requires
            old(self).wf(),
        ensures
            final(self).wf(),
            match values {
                Ok(values) => {
                    &&& old(self)@.dominoes.contains_key(id)
                    &&& *values == old(self)@.dominoes[id].values
                    &&& final(self)@ == old(self)@.with_values(id, *final(values))
                },
                Err(violation) => {
                    &&& !old(self)@.dominoes.contains_key(id)
                    &&& violation == ContractViolation::UnknownDomino(id)
                    &&& final(self)@ == old(self)@
                },
            },
    {
        proof {
            assert forall|values: Values|
                old(self)@.dominoes.contains_key(id) implies #[trigger] old(self)@.with_values(
                id,
                values,
            ).wf() by {
                lemma_with_values(old(self)@, id, values);
            }
        }
        match registered_mut(&mut self.dominoes, id) {
            Some(domino) => Ok(&mut domino.values),
            None => Err(ContractViolation::UnknownDomino(id)),
        }
    }

    /// The tile one step from the cell in the given direction, or `None`
    /// where that step leaves the grid.
    pub fn neighbor_of(&self, position: Position, direction: Direction) -> (tile: Option<Tile>)
        requires
            self.wf(),
        ensures
            tile == self@.neighbor(position, direction),
    {
        let Position { x, y } = position;
        let left = x.checked_sub(1);
        let right = below(x.checked_add(1), self.width);
        let top = y.checked_sub(1);
        let bottom = below(y.checked_add(1), self.height);
        let neighbor_position = match direction {
            Direction::N => Position { x, y: top? },
            Direction::NE => Position { x: right?, y: top? },
            Direction::E => Position { x: right?, y },
            Direction::SE => Position { x: right?, y: bottom? },
            Direction::S => Position { x, y: bottom? },
            Direction::SW => Position { x: left?, y: bottom? },
            Direction::W => Position { x: left?, y },
            Direction::NW => Position { x: left?, y: top? },
        };
        match self.tile(neighbor_position) {
            Ok(tile) => Some(tile),
            Err(_) => None,
        }
    }

    /// The tiles around the cell that are on the grid, clockwise from north.
    pub fn all_neighbors_of(&self, position: Position) -> (tiles: Vec<Tile>)
        requires
            self.wf(),
        ensures
            tiles@ == self@.all_neighbors(position),
            tiles@.len() <= 8,
    {
        let directions = Direction::iter_all();
        let mut tiles: Vec<Tile> = Vec::new();
        let mut seen: usize = 0;
        while seen < directions.len()
            invariant
                self.wf(),
                seen <= directions@.len(),
                tiles@.len() <= seen,
                tiles@ == directions@.take(seen as int).filter_map(
                    self@.neighbors_of(position),
                ),
            decreases directions@.len() - seen,
        {
            proof {
                directions@.lemma_filter_map_take_succ(self@.neighbors_of(position), seen as int);
            }
            match self.neighbor_of(position, directions[seen]) {
                Some(tile) => tiles.push(tile),
                None => {},
            }
            seen += 1;
        }
        proof {
            assert(directions@.take(seen as int) =~= Direction::all());
        }
        tiles
    }

    /// Places the domino under the next id and returns that id. A domino
    /// that does not fit on empty cells of the grid is refused, and so is any
    /// domino once the ids have run out; a refusal leaves the board as it
    /// was.
    pub fn put_domino(&mut self, domino: Domino) -> (placed: Result<Id, ContractViolation>)
        requires
            old(self).wf(),
        ensures
            final(self).wf(),
            placed == match old(self)@.placement_violation(domino) {
                Some(violation) => Err::<Id, ContractViolation>(violation),
                None => Ok(old(self)@.next_id as Id),
            },
            final(self)@ == if placed is Ok {
                old(self)@.put(domino)
            } else {
                old(self)@
            },
            placed matches Ok(id) ==> {
                &&& final(self)@.tile(domino.position) == Tile::Head(id)
                &&& final(self)@.tile(domino.spec_tail_position()) == Tile::Tail(id)
                &&& !old(self)@.dominoes.contains_key(id)
                &&& final(self)@.dominoes == old(self)@.dominoes.insert(id, domino)
            },
    {
        let head = domino.position;
        match self.tile(head) {
            Err(violation) => return Err(violation),
            Ok(Tile::Empty) => {},
            Ok(_) => return Err(ContractViolation::Occupied(head)),
        }
        let tail_is_addressable = match domino.orientation {
            Orientation::Horizontal => head.x < Coord::MAX,
            Orientation::Vertical => head.y < Coord::MAX,
        };
        if !tail_is_addressable {
            return Err(ContractViolation::TailOutOfBounds(head));
        }
        let tail = domino.tail_position();
        match self.tile(tail) {
            Err(_) => return Err(ContractViolation::TailOutOfBounds(head)),
            Ok(Tile::Empty) => {},
            Ok(_) => return Err(ContractViolation::Occupied(tail)),
        }
        if self.next_domino_id == Id::MAX {
            return Err(ContractViolation::IdsExhausted);
        }
        let new_id = self.next_domino_id;
        proof {
            lemma_tile_index(self.width as nat, self.height as nat, head);
            lemma_tile_index(self.width as nat, self.height as nat, tail);
        }
        *self.tile_mut(head) = Tile::Head(new_id);
        *self.tile_mut(tail) = Tile::Tail(new_id);
        self.dominoes.insert(new_id, domino);
        self.next_domino_id += 1;
        proof {
            let before = old(self)@;
            let after = self@;
            assert forall|position: Position| #[trigger]
                after.tiles.contains_key(position) implies after.tiles[position]
                == before.put(domino).tiles[position] by {
                lemma_tile_index(self.width as nat, self.height as nat, position);
            }
            assert(after.tiles =~= before.put(domino).tiles);
            assert(after =~= before.put(domino));
            lemma_put_reads_back(before, domino);
        }
        Ok(new_id)
    }

    /// Takes the domino off the board and returns it. An id that is not
    /// registered is refused, and the board stays as it was.
    pub fn remove_domino(&mut self, id: Id) -> (removed: Result<Domino, ContractViolation>)
        requires
            old(self).wf(),
        ensures
            final(self).wf(),
            removed == match old(self)@.removal_violation(id) {
                Some(violation) => Err::<Domino, ContractViolation>(violation),
                None => Ok(old(self)@.dominoes[id]),
            },
            final(self)@ == if removed is Ok {
                old(self)@.remove(id)
            } else {
                old(self)@
            },
            removed matches Ok(domino) ==> {
                &&& final(self)@.tile(domino.position) == Tile::Empty
                &&& final(self)@.tile(domino.spec_tail_position()) == Tile::Empty
                &&& !final(self)@.dominoes.contains_key(id)
            },
    {
        let removed = match self.dominoes.remove(&id) {
            Some(domino) => domino,
            None => {
                proof {
                    assert(self@ =~= old(self)@);
                }
                return Err(ContractViolation::UnknownDomino(id));
            },
        };
        proof {
            assert(old(self)@.lies_as_registered(id));
            lemma_tile_index(self.width as nat, self.height as nat, removed.position);
            lemma_tile_index(
                self.width as nat,
                self.height as nat,
                removed.spec_tail_position(),
            );
        }
        *self.tile_mut(removed.position) = Tile::Empty;
        *self.tile_mut(removed.tail_position()) = Tile::Empty;
        proof {
            let before = old(self)@;
            let after = self@;
            assert forall|position: Position| #[trigger]
                after.tiles.contains_key(position) implies after.tiles[position]
                == before.remove(id).tiles[position] by {
                lemma_tile_index(self.width as nat, self.height as nat, position);
            }
            assert(after.tiles =~= before.remove(id).tiles);
            assert(after =~= before.remove(id));
            lemma_remove_clears(before, id);
        }
        Ok(removed)
    }

    /// What the cell holds. Asking for a cell outside the grid is a
    /// violation.
    pub fn tile(&self, position: Position) -> (tile: Result<Tile, ContractViolation>)
        requires
            self.wf(),
        ensures
            tile == if self@.contains(position) {
                Ok::<Tile, ContractViolation>(self@.tile(position))
            } else {
                Err(ContractViolation::OutOfBounds(position))
            },
    {
        match self.index_of_tile(position) {
            Ok(index) => Ok(self.tiles[index]),
            Err(violation) => Err(violation),
        }
    }
}

} // verus!
