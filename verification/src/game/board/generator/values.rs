//! The run of pips that is dealt to the dominoes of a board, and what a deal
//! does to the board.

use crate::game::board::model::{lemma_registry_is_small, lemma_with_values, BoardView};
use crate::game::domino::{Domino, Id, Value, Values};
use vstd::prelude::*;

verus! {

/// Whether no pair of pips comes after this one.
pub open spec fn is_last(values: Values) -> bool {
    values.tail >= values.head && values.head == Value::MAX
}

/// The pair of pips that comes after this one: the tail grows until it has
/// reached the head, then the head grows and the tail starts again at zero.
pub open spec fn successor(values: Values) -> Values {
    if values.tail >= values.head {
        Values { head: (values.head + 1) as Value, tail: 0 }
    } else {
        Values { head: values.head, tail: (values.tail + 1) as Value }
    }
}

/// The pair of pips at the given place of the run that starts with the
/// double blank.
pub open spec fn nth_values(n: nat) -> Values
    decreases n,
{
    if n == 0 {
        Values { head: 0, tail: 0 }
    } else {
        successor(nth_values((n - 1) as nat))
    }
}

/// The sum of the numbers up to the given one.
pub open spec fn triangle(n: nat) -> nat
    decreases n,
{
    if n == 0 {
        0
    } else {
        n + triangle((n - 1) as nat)
    }
}

/// The place of a pair in the run: as many pairs with a smaller head come
/// before it as the sum of the numbers up to its head, and as many with its
/// own head as its tail.
pub open spec fn place_of(values: Values) -> nat {
    triangle(values.head as nat) + values.tail as nat
}

/// The run of pips has every pair whose tail is not above its head, ordered
/// by the head and under one head by the tail.
pub proof fn lemma_nth_values(values: Values)
    requires
        values.tail <= values.head,
    ensures
        nth_values(place_of(values)) == values,
    decreases values.head, values.tail,
{
    if values.tail > 0 {
        let before = Values { head: values.head, tail: (values.tail - 1) as Value };
        lemma_nth_values(before);
        assert(place_of(values) == place_of(before) + 1);
        assert(nth_values(place_of(values)) == successor(nth_values(place_of(before))));
    } else if values.head > 0 {
        let before = Values { head: (values.head - 1) as Value, tail: (values.head - 1) as Value };
        lemma_nth_values(before);
        assert(triangle(values.head as nat) == values.head + triangle(before.head as nat));
        assert(place_of(values) == place_of(before) + 1);
        assert(nth_values(place_of(values)) == successor(nth_values(place_of(before))));
    }
}

/// The pips of a pair as they are laid on a domino: as they are, or with
/// head and tail exchanged.
pub open spec fn laid(values: Values, swapped: bool) -> Values {
    if swapped {
        values.spec_swapped()
    } else {
        values
    }
}

/// The board after the pairs of pips from the given one on have been dealt
/// to the dominoes of the list, one pair each in the order of the list, each
/// laid as the list says. The dealing ends with the list or with the run of
/// pairs, whichever ends first.
pub open spec fn dealt(board: BoardView, deal: Seq<(Id, bool)>, upcoming: Values) -> BoardView
    decreases deal.len(),
{
    if deal.len() == 0 || is_last(upcoming) {
        board
    } else {
        dealt(
            board.with_values(deal[0].0, laid(upcoming, deal[0].1)),
            deal.drop_first(),
            successor(upcoming),
        )
    }
}

/// The first domino of the list that is not on the board, if there is one.
pub open spec fn first_unknown(board: BoardView, deal: Seq<(Id, bool)>) -> Option<Id>
    decreases deal.len(),
{
    if deal.len() == 0 {
        None
    } else if !board.dominoes.contains_key(deal[0].0) {
        Some(deal[0].0)
    } else {
        first_unknown(board, deal.drop_first())
    }
}

/// The dominoes that a list deals to, in its order.
pub open spec fn dealt_to(deal: Seq<(Id, bool)>) -> Seq<Id> {
    deal.map_values(|entry: (Id, bool)| entry.0)
}

/// Whether the list deals to every domino of the board, and to each once.
pub open spec fn is_full_deal(board: BoardView, deal: Seq<(Id, bool)>) -> bool {
    dealt_to(deal).no_duplicates() && dealt_to(deal).to_set() == board.dominoes.dom()
}

/// The pairs of the run keep their tail at or below their head, and the head
/// grows by one at most from pair to pair.
pub proof fn lemma_nth_values_is_small(n: nat)
    ensures
        nth_values(n).tail <= nth_values(n).head <= n,
    decreases n,
{
    if n > 0 {
        lemma_nth_values_is_small((n - 1) as nat);
    }
}

/// Dealing from some place of the run on, to dominoes of the board of which
/// none is named twice and for which the run is long enough: each gets the
/// pair of its turn, laid as the list says, and keeps its cells; every other
/// domino and every tile stays as it was.
pub proof fn lemma_dealt_from(board: BoardView, deal: Seq<(Id, bool)>, start: nat)
    requires
        board.wf(),
        dealt_to(deal).no_duplicates(),
        forall|i: int| 0 <= i < deal.len() ==> board.dominoes.contains_key(#[trigger] deal[i].0),
        start + deal.len() <= Id::MAX,
    ensures
        ({
            let after = dealt(board, deal, nth_values(start));
            &&& after.wf()
            &&& after.width == board.width
            &&& after.height == board.height
            &&& after.tiles == board.tiles
            &&& after.next_id == board.next_id
            &&& after.dominoes.dom() == board.dominoes.dom()
            &&& forall|i: int|
                0 <= i < deal.len() ==> after.dominoes[#[trigger] deal[i].0] == (Domino {
                    values: laid(nth_values((start + i) as nat), deal[i].1),
                    ..board.dominoes[deal[i].0]
                })
            &&& forall|id: Id|
                !dealt_to(deal).contains(id) ==> #[trigger] after.dominoes[id]
                    == board.dominoes[id]
        }),
    decreases deal.len(),
{
    let after = dealt(board, deal, nth_values(start));
    if deal.len() > 0 {
        let (id, swapped) = deal[0];
        let rest = deal.drop_first();
        let next = board.with_values(id, laid(nth_values(start), swapped));
        lemma_nth_values_is_small(start);
        lemma_with_values(board, id, laid(nth_values(start), swapped));
        assert(successor(nth_values(start)) == nth_values(start + 1));
        assert(after == dealt(next, rest, nth_values(start + 1)));
        assert forall|i: int, j: int| 0 <= i < j < rest.len() implies dealt_to(rest)[i]
            != dealt_to(rest)[j] by {
            assert(dealt_to(deal)[i + 1] != dealt_to(deal)[j + 1]);
        }
        assert forall|i: int| 0 <= i < rest.len() implies next.dominoes.contains_key(
            #[trigger] rest[i].0,
        ) by {
            assert(rest[i] == deal[i + 1]);
        }
        lemma_dealt_from(next, rest, start + 1);
        assert(!dealt_to(rest).contains(id)) by {
            if dealt_to(rest).contains(id) {
                let j = choose|j: int| 0 <= j < rest.len() && dealt_to(rest)[j] == id;
                assert(dealt_to(deal)[j + 1] == dealt_to(deal)[0]);
            }
        }
        assert(after.dominoes.dom() =~= board.dominoes.dom());
        assert forall|i: int| 0 <= i < deal.len() implies after.dominoes[#[trigger] deal[i].0]
            == (Domino {
            values: laid(nth_values((start + i) as nat), deal[i].1),
            ..board.dominoes[deal[i].0]
        }) by {
            if i > 0 {
                assert(rest[i - 1] == deal[i]);
                assert(dealt_to(deal)[i] != dealt_to(deal)[0]);
            }
        }
        assert forall|other: Id| !dealt_to(deal).contains(other) implies #[trigger] after.dominoes[other]
            == board.dominoes[other] by {
            assert(dealt_to(deal)[0] == id);
            if dealt_to(rest).contains(other) {
                let j = choose|j: int| 0 <= j < rest.len() && dealt_to(rest)[j] == other;
                assert(dealt_to(deal)[j + 1] == other);
            }
        }
    }
}

/// A full deal gives the dominoes of the board the first pairs of the run,
/// one each: the domino at a place of the list gets the pair at that place of
/// the run, laid as the list says. It keeps its cells, and so the grid stays
/// as it was, and the board well formed.
pub proof fn lemma_full_deal(board: BoardView, deal: Seq<(Id, bool)>)
    requires
        board.wf(),
        is_full_deal(board, deal),
    ensures
        ({
            let after = dealt(board, deal, nth_values(0));
            &&& after.wf()
            &&& after.width == board.width
            &&& after.height == board.height
            &&& after.tiles == board.tiles
            &&& after.next_id == board.next_id
            &&& after.dominoes.dom() == board.dominoes.dom()
            &&& deal.len() == board.dominoes.len()
            &&& forall|i: int|
                0 <= i < deal.len() ==> after.dominoes[#[trigger] deal[i].0] == (Domino {
                    values: laid(nth_values(i as nat), deal[i].1),
                    ..board.dominoes[deal[i].0]
                })
        }),
{
    lemma_registry_is_small(board);
    dealt_to(deal).unique_seq_to_set();
    assert forall|i: int| 0 <= i < deal.len() implies board.dominoes.contains_key(
        #[trigger] deal[i].0,
    ) by {
        assert(dealt_to(deal)[i] == deal[i].0);
        assert(dealt_to(deal).to_set().contains(deal[i].0));
    }
    lemma_dealt_from(board, deal, 0);
}

/// A sequence that holds the same ids as often as one without repetition
/// has no repetition either, and holds the same ids.
pub proof fn lemma_same_ids(before: Seq<Id>, after: Seq<Id>)
    requires
        before.no_duplicates(),
        before.to_multiset() == after.to_multiset(),
    ensures
        after.no_duplicates(),
        after.to_set() == before.to_set(),
{
    broadcast use vstd::seq_lib::group_to_multiset_ensures;

    before.lemma_multiset_has_no_duplicates();
    after.lemma_multiset_has_no_duplicates_conv();
    assert forall|id: Id| after.to_set().contains(id) <==> before.to_set().contains(id) by {
        assert(after.contains(id) <==> after.to_multiset().count(id) > 0);
        assert(before.contains(id) <==> before.to_multiset().count(id) > 0);
    }
    assert(after.to_set() =~= before.to_set());
}

/// A list that deals to the dominoes of the board names none that is not on
/// it.
pub proof fn lemma_full_deal_knows_all(board: BoardView, deal: Seq<(Id, bool)>)
    requires
        dealt_to(deal).to_set() == board.dominoes.dom(),
    ensures
        first_unknown(board, deal) is None,
    decreases deal.len(),
{
    assert forall|i: int| 0 <= i < deal.len() implies board.dominoes.contains_key(
        #[trigger] deal[i].0,
    ) by {
        assert(dealt_to(deal)[i] == deal[i].0);
        assert(dealt_to(deal).to_set().contains(deal[i].0));
    }
    lemma_knows_rest(board, deal, 0);
    assert(deal.skip(0) =~= deal);
}

/// A list of dominoes that are all on the board names none that is not on
/// it, from any place on.
pub proof fn lemma_knows_rest(board: BoardView, deal: Seq<(Id, bool)>, from: int)
    requires
        0 <= from <= deal.len(),
        forall|i: int| 0 <= i < deal.len() ==> board.dominoes.contains_key(#[trigger] deal[i].0),
    ensures
        first_unknown(board, deal.skip(from)) is None,
    decreases deal.len() - from,
{
    if from < deal.len() {
        lemma_knows_rest(board, deal, from + 1);
        assert(deal.skip(from).drop_first() =~= deal.skip(from + 1));
        assert(deal.skip(from)[0] == deal[from]);
    }
}

} // verus!
