//! What a board holds, as mathematics: the model that the contracts of the
//! board speak of, and what holds of it.

use crate::game::board::{Coord, Direction, Position, Tile};
use crate::game::domino::{Domino, Id, Values};
use crate::game::violation::ContractViolation;
use vstd::prelude::*;

verus! {

/// What a board holds, as contracts speak of it: the size of the grid, the
/// tile of every cell, the registry of dominoes by id, and the id that the
/// next placement will get.
#[verifier::ext_equal]
pub struct BoardView {
    pub width: nat,
    pub height: nat,
    pub tiles: Map<Position, Tile>,
    pub dominoes: Map<Id, Domino>,
    pub next_id: nat,
}

impl BoardView {
    /// Whether the cell lies on the grid.
    pub open spec fn contains(self, position: Position) -> bool {
        position.x < self.width && position.y < self.height
    }

    /// What the cell holds.
    pub open spec fn tile(self, position: Position) -> Tile {
        self.tiles[position]
    }

    /// The registered domino lies on the grid, and its two cells say so.
    pub open spec fn lies_as_registered(self, id: Id) -> bool {
        let domino = self.dominoes[id];
        &&& id < self.next_id
        &&& domino.tail_is_addressable()
        &&& self.contains(domino.position)
        &&& self.contains(domino.spec_tail_position())
        &&& self.tiles[domino.position] == Tile::Head(id)
        &&& self.tiles[domino.spec_tail_position()] == Tile::Tail(id)
    }

    /// A tile that is not empty is the head or the tail of a registered
    /// domino that lies exactly there.
    pub open spec fn accounts_for(self, position: Position) -> bool {
        match self.tiles[position] {
            Tile::Empty => true,
            Tile::Head(id) => self.dominoes.contains_key(id) && self.dominoes[id].position
                == position,
            Tile::Tail(id) => self.dominoes.contains_key(id)
                && self.dominoes[id].spec_tail_position() == position,
        }
    }

    /// The invariant of a board: the grid has a tile for exactly its own
    /// cells, every registered domino lies on two of them under an id
    /// already handed out, and no tile refers to anything else.
    pub open spec fn wf(self) -> bool {
        &&& self.width <= Coord::MAX
        &&& self.height <= Coord::MAX
        &&& self.next_id <= Id::MAX
        &&& self.dominoes.dom().finite()
        &&& forall|position: Position| #[trigger]
            self.tiles.contains_key(position) <==> self.contains(position)
        &&& forall|id: Id| #[trigger]
            self.dominoes.contains_key(id) ==> self.lies_as_registered(id)
        &&& forall|position: Position| #[trigger]
            self.tiles.contains_key(position) ==> self.accounts_for(position)
    }

    /// The empty board of the given size.
    pub open spec fn empty(width: nat, height: nat) -> BoardView {
        BoardView {
            width,
            height,
            tiles: Map::new(
                |position: Position| position.x < width && position.y < height,
                |position: Position| Tile::Empty,
            ),
            dominoes: Map::empty(),
            next_id: 0,
        }
    }

    /// Why the domino cannot be placed, if it cannot. The head is looked at
    /// before the tail, and for each the bounds before the tile; the supply
    /// of ids comes last.
    pub open spec fn placement_violation(self, domino: Domino) -> Option<ContractViolation> {
        let head = domino.position;
        let tail = domino.spec_tail_position();
        if !self.contains(head) {
            Some(ContractViolation::OutOfBounds(head))
        } else if self.tiles[head] != Tile::Empty {
            Some(ContractViolation::Occupied(head))
        } else if !domino.tail_is_addressable() || !self.contains(tail) {
            Some(ContractViolation::TailOutOfBounds(head))
        } else if self.tiles[tail] != Tile::Empty {
            Some(ContractViolation::Occupied(tail))
        } else if self.next_id >= Id::MAX {
            Some(ContractViolation::IdsExhausted)
        } else {
            None
        }
    }

    /// The board with the domino placed under the next id.
    pub open spec fn put(self, domino: Domino) -> BoardView {
        let id = self.next_id as Id;
        BoardView {
            tiles: self.tiles.insert(domino.position, Tile::Head(id)).insert(
                domino.spec_tail_position(),
                Tile::Tail(id),
            ),
            dominoes: self.dominoes.insert(id, domino),
            next_id: self.next_id + 1,
            ..self
        }
    }

    /// Why the domino cannot be removed, if it cannot: it is not on the
    /// board.
    pub open spec fn removal_violation(self, id: Id) -> Option<ContractViolation> {
        if self.dominoes.contains_key(id) {
            None
        } else {
            Some(ContractViolation::UnknownDomino(id))
        }
    }

    /// The board without the domino: its two cells empty, its id gone from
    /// the registry.
    pub open spec fn remove(self, id: Id) -> BoardView {
        let domino = self.dominoes[id];
        BoardView {
            tiles: self.tiles.insert(domino.position, Tile::Empty).insert(
                domino.spec_tail_position(),
                Tile::Empty,
            ),
            dominoes: self.dominoes.remove(id),
            ..self
        }
    }

    /// The board with other pips on one of its dominoes.
    pub open spec fn with_values(self, id: Id, values: Values) -> BoardView {
        BoardView {
            dominoes: self.dominoes.insert(id, Domino { values, ..self.dominoes[id] }),
            ..self
        }
    }

    /// The tile one step from the cell in the given direction, if that step
    /// stays on the grid.
    pub open spec fn neighbor(self, position: Position, direction: Direction) -> Option<Tile> {
        let x = position.x + direction.dx();
        let y = position.y + direction.dy();
        if 0 <= x < self.width && 0 <= y < self.height {
            Some(self.tiles[Position { x: x as Coord, y: y as Coord }])
        } else {
            None
        }
    }

    /// The neighbours of the cell, as a function of the direction.
    pub open spec fn neighbors_of(self, position: Position) -> spec_fn(Direction) -> Option<
        Tile,
    > {
        |direction: Direction| self.neighbor(position, direction)
    }

    /// The tiles around the cell that are on the grid, clockwise from north.
    pub open spec fn all_neighbors(self, position: Position) -> Seq<Tile> {
        Direction::all().filter_map(self.neighbors_of(position))
    }
}

/// Placing a domino and reading it back: on a well-formed board, a domino
/// that nothing speaks against gets the next id, which was not in use; its
/// head and its tail then read as that id's, the registry holds it under that
/// id beside what it held before, every other cell reads as before, and the
/// board is well formed again.
pub proof fn lemma_put_reads_back(board: BoardView, domino: Domino)
    requires
        board.wf(),
        board.placement_violation(domino) is None,
    ensures
        board.put(domino).wf(),
        !board.dominoes.contains_key(board.next_id as Id),
        board.put(domino).tile(domino.position) == Tile::Head(board.next_id as Id),
        board.put(domino).tile(domino.spec_tail_position()) == Tile::Tail(board.next_id as Id),
        board.put(domino).dominoes == board.dominoes.insert(board.next_id as Id, domino),
        board.dominoes == Map::<Id, Domino>::empty() ==> board.put(domino).dominoes
            == Map::<Id, Domino>::empty().insert(board.next_id as Id, domino),
        forall|position: Position|
            position != domino.position && position != domino.spec_tail_position()
                ==> #[trigger] board.put(domino).tile(position) == board.tile(position),
{
    let id = board.next_id as Id;
    let after = board.put(domino);
    if board.dominoes.contains_key(id) {
        assert(board.lies_as_registered(id));
    }
    assert forall|other: Id| #[trigger] after.dominoes.contains_key(other) implies
        after.lies_as_registered(other) by {
        if other != id {
            assert(board.lies_as_registered(other));
        }
    }
    assert forall|position: Position| #[trigger]
        after.tiles.contains_key(position) implies after.accounts_for(position) by {
        if position != domino.position && position != domino.spec_tail_position() {
            assert(board.tiles.contains_key(position));
            assert(board.accounts_for(position));
        }
    }
}

/// A placement is refused exactly when the head or the tail of the domino
/// lies outside the grid or on a tile that is taken, or when the ids have run
/// out. (What the board does then, namely nothing, is stated by
/// `Board::put_domino`.)
pub proof fn lemma_placement_is_refused(board: BoardView, domino: Domino)
    requires
        board.wf(),
    ensures
        board.placement_violation(domino) is Some <==> {
            ||| !board.contains(domino.position)
            ||| board.tile(domino.position) != Tile::Empty
            ||| !domino.tail_is_addressable()
            ||| !board.contains(domino.spec_tail_position())
            ||| board.tile(domino.spec_tail_position()) != Tile::Empty
            ||| board.next_id >= Id::MAX
        },
{
}

/// Removing a domino clears it away: on a well-formed board, after a
/// registered domino is removed its two cells read as empty, its id is gone
/// from the registry while every other entry stays, no tile refers to the id
/// any more, the board is well formed again, and a second removal of the same
/// id is a violation.
pub proof fn lemma_remove_clears(board: BoardView, id: Id)
    requires
        board.wf(),
        board.dominoes.contains_key(id),
    ensures
        board.remove(id).wf(),
        board.remove(id).tile(board.dominoes[id].position) == Tile::Empty,
        board.remove(id).tile(board.dominoes[id].spec_tail_position()) == Tile::Empty,
        !board.remove(id).dominoes.contains_key(id),
        board.remove(id).dominoes == board.dominoes.remove(id),
        board.remove(id).removal_violation(id) == Some(ContractViolation::UnknownDomino(id)),
        forall|position: Position| #[trigger]
            board.remove(id).tiles.contains_key(position) ==> board.remove(id).tile(
                position,
            ).owner() != Some(id),
{
    let after = board.remove(id);
    let removed = board.dominoes[id];
    assert(board.lies_as_registered(id));
    assert forall|other: Id| #[trigger] after.dominoes.contains_key(other) implies
        after.lies_as_registered(other) by {
        assert(board.lies_as_registered(other));
    }
    assert forall|position: Position| #[trigger]
        after.tiles.contains_key(position) implies after.accounts_for(position)
        && after.tile(position).owner() != Some(id) by {
        assert(board.tiles.contains_key(position));
        assert(board.accounts_for(position));
    }
}

/// A finite set of ids that all lie below a bound has no more members than
/// the bound says.
pub proof fn lemma_ids_below(ids: Set<Id>, bound: nat)
    requires
        ids.finite(),
        bound <= Id::MAX + 1,
        forall|id: Id| ids.contains(id) ==> id < bound,
    ensures
        ids.len() <= bound,
    decreases bound,
{
    if bound == 0 {
        assert(ids =~= Set::empty());
    } else {
        let top = (bound - 1) as Id;
        lemma_ids_below(ids.remove(top), (bound - 1) as nat);
    }
}

/// A well-formed board holds no more dominoes than it has handed out ids.
pub proof fn lemma_registry_is_small(board: BoardView)
    requires
        board.wf(),
    ensures
        board.dominoes.len() <= board.next_id <= Id::MAX,
{
    assert forall|id: Id| board.dominoes.dom().contains(id) implies id < board.next_id by {
        assert(board.dominoes.contains_key(id));
        assert(board.lies_as_registered(id));
    }
    lemma_ids_below(board.dominoes.dom(), board.next_id);
}

/// Other pips on a domino leave the board as well formed as it was.
pub proof fn lemma_with_values(board: BoardView, id: Id, values: Values)
    requires
        board.wf(),
        board.dominoes.contains_key(id),
    ensures
        board.with_values(id, values).wf(),
{
    let after = board.with_values(id, values);
    assert forall|other: Id| #[trigger] after.dominoes.contains_key(other) implies
        after.lies_as_registered(other) by {
        assert(board.lies_as_registered(other));
    }
    assert forall|position: Position| #[trigger]
        after.tiles.contains_key(position) implies after.accounts_for(position) by {
        assert(board.accounts_for(position));
    }
}

} // verus!
