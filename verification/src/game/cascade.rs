//! What a hit does, as mathematics: which dominoes go, in which order, and
//! what each of them is worth.

use crate::game::board::model::{lemma_remove_clears, BoardView};
use crate::game::board::{Position, Tile};
use crate::game::domino::{Domino, Id, Value};
use crate::game::{DominoRemoved, Score, EXPLOSIVE_VALUE};
use vstd::prelude::*;

verus! {

/// The most that the removal of one domino can add to the score or take from
/// it.
pub const MAX_AWARD: Score = 510;

/// Whether a half of the domino is explosive.
pub open spec fn explodes(domino: Domino) -> bool {
    domino.values.head == EXPLOSIVE_VALUE || domino.values.tail == EXPLOSIVE_VALUE
}

/// What the removal of the domino is worth: the sum of its pips where an
/// explosion is involved on either side, the loss of that sum for a double
/// hit by hand, and nothing otherwise.
pub open spec fn award(domino: Domino, hit_by_explosion: bool) -> int {
    let pips = domino.values.head + domino.values.tail;
    if hit_by_explosion || explodes(domino) {
        pips
    } else if domino.values.head == domino.values.tail {
        -pips
    } else {
        0
    }
}

/// The report of the removal of the domino.
pub open spec fn removal(id: Id, domino: Domino, hit_by_explosion: bool) -> DominoRemoved {
    DominoRemoved {
        id,
        exploded: explodes(domino),
        hit_by_explosion,
        score_awarded: award(domino, hit_by_explosion) as Score,
    }
}

/// The domino that a tile belongs to, as a function of the tile.
pub open spec fn tile_owner() -> spec_fn(Tile) -> Option<Id> {
    |tile: Tile| tile.owner()
}

/// The dominoes that the tiles belong to, one for each tile that is not
/// empty, in the order of the tiles.
pub open spec fn owners(tiles: Seq<Tile>) -> Seq<Id> {
    tiles.filter_map(tile_owner())
}

/// The dominoes that a half with the given value takes along from its cell:
/// those of the tiles around it if the half is explosive, none otherwise.
pub open spec fn blast(board: BoardView, value: Value, position: Position) -> Seq<Id> {
    if value == EXPLOSIVE_VALUE {
        owners(board.all_neighbors(position))
    } else {
        Seq::empty()
    }
}

/// The dominoes that the removed domino takes along, on the board that it
/// has already left: those around its head, then those around its tail. A
/// domino that borders on both, or on one with both of its cells, is named
/// more than once.
pub open spec fn fallout(board: BoardView, removed: Domino) -> Seq<Id> {
    blast(board, removed.values.head, removed.position) + blast(
        board,
        removed.values.tail,
        removed.spec_tail_position(),
    )
}

/// The reports of the removals that follow from a queue of dominoes taken
/// along by explosions, first come first served. A domino that is no longer
/// on the board when its turn comes is passed over.
pub open spec fn chain(board: BoardView, queue: Seq<Id>) -> Seq<DominoRemoved>
    decreases board.dominoes.len(), queue.len(),
    when board.dominoes.dom().finite()
{
    if queue.len() == 0 {
        Seq::empty()
    } else if board.dominoes.contains_key(queue[0]) {
        let removed = board.dominoes[queue[0]];
        let rest = board.remove(queue[0]);
        seq![removal(queue[0], removed, true)] + chain(
            rest,
            queue.drop_first() + fallout(rest, removed),
        )
    } else {
        chain(board, queue.drop_first())
    }
}

/// The board that is left when the queue has been worked off.
pub open spec fn settled(board: BoardView, queue: Seq<Id>) -> BoardView
    decreases board.dominoes.len(), queue.len(),
    when board.dominoes.dom().finite()
{
    if queue.len() == 0 {
        board
    } else if board.dominoes.contains_key(queue[0]) {
        let removed = board.dominoes[queue[0]];
        let rest = board.remove(queue[0]);
        settled(rest, queue.drop_first() + fallout(rest, removed))
    } else {
        settled(board, queue.drop_first())
    }
}

/// The reports of a hit on a registered domino: its own removal first, then
/// the chain that it sets off.
pub open spec fn hit_events(board: BoardView, id: Id) -> Seq<DominoRemoved> {
    let removed = board.dominoes[id];
    let rest = board.remove(id);
    seq![removal(id, removed, false)] + chain(rest, fallout(rest, removed))
}

/// The board after a hit on a registered domino.
pub open spec fn board_after_hit(board: BoardView, id: Id) -> BoardView {
    let removed = board.dominoes[id];
    let rest = board.remove(id);
    settled(rest, fallout(rest, removed))
}

/// The sum of what the removals added to the score.
pub open spec fn total_awarded(events: Seq<DominoRemoved>) -> int
    decreases events.len(),
{
    if events.len() == 0 {
        0
    } else {
        total_awarded(events.drop_last()) + events.last().score_awarded
    }
}

/// The dominoes that the reports name, in the order of the reports.
pub open spec fn removed_ids(events: Seq<DominoRemoved>) -> Seq<Id> {
    events.map_values(|event: DominoRemoved| event.id)
}

/// The sum over two runs of reports is the sum of the two sums.
pub proof fn lemma_total_awarded_add(first: Seq<DominoRemoved>, second: Seq<DominoRemoved>)
    ensures
        total_awarded(first + second) == total_awarded(first) + total_awarded(second),
    decreases second.len(),
{
    if second.len() == 0 {
        assert(first + second =~= first);
    } else {
        assert((first + second).drop_last() =~= first + second.drop_last());
        lemma_total_awarded_add(first, second.drop_last());
    }
}

/// Reports that each stay within what one removal can be worth add up to no
/// more than that for each of them.
pub proof fn lemma_total_awarded_bound(events: Seq<DominoRemoved>)
    requires
        forall|i: int|
            0 <= i < events.len() ==> -MAX_AWARD <= (#[trigger] events[i]).score_awarded
                <= MAX_AWARD,
    ensures
        -MAX_AWARD * events.len() <= total_awarded(events) <= MAX_AWARD * events.len(),
    decreases events.len(),
{
    if events.len() > 0 {
        let earlier = events.drop_last();
        assert forall|i: int| 0 <= i < earlier.len() implies -MAX_AWARD <= (
        #[trigger] earlier[i]).score_awarded <= MAX_AWARD by {
            assert(earlier[i] == events[i]);
        }
        lemma_total_awarded_bound(earlier);
    }
}

/// A report ahead of reports that name each domino once, and not the one
/// that it names, makes reports that name each domino once: those of the
/// later reports and its own.
pub proof fn lemma_one_more(first: DominoRemoved, later: Seq<DominoRemoved>)
    requires
        removed_ids(later).no_duplicates(),
        forall|i: int| 0 <= i < later.len() ==> (#[trigger] later[i]).id != first.id,
    ensures
        removed_ids(seq![first] + later).no_duplicates(),
        removed_ids(seq![first] + later).to_set() == removed_ids(later).to_set().insert(
            first.id,
        ),
{
    let ids = removed_ids(seq![first] + later);
    assert forall|i: int, j: int| 0 <= i < j < ids.len() implies ids[i] != ids[j] by {
        assert(ids[j] == later[j - 1].id);
        if i > 0 {
            assert(ids[i] == later[i - 1].id);
            assert(removed_ids(later)[i - 1] != removed_ids(later)[j - 1]);
        }
    }
    assert forall|other: Id|
        ids.to_set().contains(other) <==> removed_ids(later).to_set().insert(first.id).contains(
            other,
        ) by {
        if ids.to_set().contains(other) {
            let i = choose|i: int| 0 <= i < ids.len() && ids[i] == other;
            if i > 0 {
                assert(removed_ids(later)[i - 1] == other);
            }
        }
        if other == first.id {
            assert(ids[0] == other);
        }
        if removed_ids(later).to_set().contains(other) {
            let i = choose|i: int|
                0 <= i < removed_ids(later).len() && removed_ids(later)[i] == other;
            assert(ids[i + 1] == other);
        }
    }
    assert(ids.to_set() =~= removed_ids(later).to_set().insert(first.id));
}

/// No domino goes twice in a chain: whatever the queue holds, and however
/// often it names a domino, each report of the chain is of a removal by
/// explosion, of a domino that was on the board, and no two reports name the
/// same domino. The board that is left is well formed and holds exactly the
/// dominoes that no report names.
pub proof fn lemma_chain_removes_each_once(board: BoardView, queue: Seq<Id>)
    requires
        board.wf(),
    ensures
        settled(board, queue).wf(),
        settled(board, queue).dominoes == board.dominoes.remove_keys(
            removed_ids(chain(board, queue)).to_set(),
        ),
        removed_ids(chain(board, queue)).no_duplicates(),
        forall|i: int|
            0 <= i < chain(board, queue).len() ==> {
                let event = #[trigger] chain(board, queue)[i];
                &&& board.dominoes.contains_key(event.id)
                &&& event == removal(event.id, board.dominoes[event.id], true)
            },
    decreases board.dominoes.len(), queue.len(),
{
    let events = chain(board, queue);
    let ids = removed_ids(events);
    if queue.len() == 0 {
        assert(ids.to_set() =~= Set::empty());
        assert(board.dominoes.remove_keys(ids.to_set()) =~= board.dominoes);
    } else if board.dominoes.contains_key(queue[0]) {
        let id = queue[0];
        let removed = board.dominoes[id];
        let rest = board.remove(id);
        let next = queue.drop_first() + fallout(rest, removed);
        lemma_remove_clears(board, id);
        lemma_chain_removes_each_once(rest, next);
        let later = chain(rest, next);
        assert(events == seq![removal(id, removed, true)] + later);
        assert forall|i: int| 0 <= i < events.len() implies {
            let event = #[trigger] events[i];
            &&& board.dominoes.contains_key(event.id)
            &&& event == removal(event.id, board.dominoes[event.id], true)
        } by {
            if i > 0 {
                assert(events[i] == later[i - 1]);
            }
        }
        lemma_one_more(removal(id, removed, true), later);
        assert(settled(board, queue).dominoes =~= board.dominoes.remove_keys(ids.to_set()));
    } else {
        lemma_chain_removes_each_once(board, queue.drop_first());
    }
}

/// No domino goes twice in a hit, and the hit domino goes first: on a
/// well-formed board, the first report of a hit on a registered domino is of
/// that domino and says that the player hit it, every later report is of a
/// removal by explosion, each report is of a domino that was on the board,
/// and no two reports name the same domino. The board that is left is well
/// formed and holds exactly the dominoes that no report names.
pub proof fn lemma_hit_removes_each_once(board: BoardView, id: Id)
    requires
        board.wf(),
        board.dominoes.contains_key(id),
    ensures
        board_after_hit(board, id).wf(),
        board_after_hit(board, id).dominoes == board.dominoes.remove_keys(
            removed_ids(hit_events(board, id)).to_set(),
        ),
        hit_events(board, id).len() >= 1,
        board_after_hit(board, id).dominoes.len() + hit_events(board, id).len()
            == board.dominoes.len(),
        hit_events(board, id)[0] == removal(id, board.dominoes[id], false),
        removed_ids(hit_events(board, id)).no_duplicates(),
        forall|i: int|
            0 <= i < hit_events(board, id).len() ==> {
                let event = #[trigger] hit_events(board, id)[i];
                &&& board.dominoes.contains_key(event.id)
                &&& event == removal(event.id, board.dominoes[event.id], i > 0)
            },
{
    let removed = board.dominoes[id];
    let rest = board.remove(id);
    let queue = fallout(rest, removed);
    let later = chain(rest, queue);
    let events = hit_events(board, id);
    let ids = removed_ids(events);
    lemma_remove_clears(board, id);
    lemma_chain_removes_each_once(rest, queue);
    assert forall|i: int| 0 <= i < events.len() implies {
        let event = #[trigger] events[i];
        &&& board.dominoes.contains_key(event.id)
        &&& event == removal(event.id, board.dominoes[event.id], i > 0)
    } by {
        if i > 0 {
            assert(events[i] == later[i - 1]);
        }
    }
    lemma_one_more(removal(id, removed, false), later);
    assert(board_after_hit(board, id).dominoes =~= board.dominoes.remove_keys(ids.to_set()));
    assert(board_after_hit(board, id).dominoes.len() + events.len() == board.dominoes.len()) by {
        ids.unique_seq_to_set();
        assert forall|other: Id| #[trigger] ids.to_set().contains(other) implies
            board.dominoes.contains_key(other) by {
            let i = choose|i: int| 0 <= i < ids.len() && ids[i] == other;
            assert(board.dominoes.contains_key(events[i].id));
        }
        board.dominoes.lemma_remove_keys_len(ids.to_set());
    }
}

} // verus!
