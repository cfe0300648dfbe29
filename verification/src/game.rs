//! The game: one board, a running score, and the resolution of hits.

pub mod board;
pub mod cascade;
pub mod domino;
pub mod violation;

use crate::game::board::generator::drawing::layout_of;
use crate::game::board::generator::values::{dealt, is_full_deal, nth_values};
use crate::game::board::generator::{generate_from_string, LayoutError};
use crate::game::board::model::{lemma_registry_is_small, BoardView};
use crate::game::board::{Board, Position, Tile};
use crate::game::cascade::{
    blast, board_after_hit, chain, explodes, fallout, hit_events, lemma_hit_removes_each_once,
    lemma_total_awarded_add, lemma_total_awarded_bound, owners, tile_owner,
    removal, removed_ids, settled, total_awarded, MAX_AWARD,
};
use crate::game::domino::{Domino, Id, Value};
use crate::game::violation::ContractViolation;
use std::collections::{BTreeMap, VecDeque};
use vstd::prelude::*;

verus! {

/// The value that makes a half of a domino explosive.
pub const EXPLOSIVE_VALUE: Value = 0;

/// What is counted: points won and lost.
pub type Score = i32;

/// The report of one removal.
#[derive(Copy, Clone, Debug, Eq, Hash, PartialEq, Structural)]
pub struct DominoRemoved {
    /// The domino that was removed.
    pub id: Id,
    /// Whether one of its halves was explosive.
    pub exploded: bool,
    /// Whether an explosion removed it, and not the player's hit.
    pub hit_by_explosion: bool,
    /// What the removal added to the score.
    pub score_awarded: Score,
}

/// What a game holds, as contracts speak of it.
#[verifier::ext_equal]
pub struct GameView {
    pub board: BoardView,
    pub score: int,
}

impl GameView {
    /// The invariant of a game: the board is well formed, and the score lies
    /// within what the dominoes that have left the board can have been
    /// worth.
    pub open spec fn wf(self) -> bool {
        &&& self.board.wf()
        &&& -MAX_AWARD * (Id::MAX - self.board.dominoes.len()) <= self.score
        &&& self.score <= MAX_AWARD * (Id::MAX - self.board.dominoes.len())
    }

    /// The game at its start on the given board.
    pub open spec fn start(board: BoardView) -> GameView {
        GameView { board, score: 0 }
    }

    /// What a hit on the domino reports. A hit on a domino that is not on
    /// the board is refused and reports nothing.
    pub open spec fn events_of_hit(self, id: Id) -> Seq<DominoRemoved> {
        if self.board.dominoes.contains_key(id) {
            hit_events(self.board, id)
        } else {
            Seq::empty()
        }
    }

    /// The game after a hit on the domino. A hit on a domino that is not on
    /// the board is refused and changes nothing.
    pub open spec fn hit(self, id: Id) -> GameView {
        if self.board.dominoes.contains_key(id) {
            GameView {
                board: board_after_hit(self.board, id),
                score: self.score + total_awarded(hit_events(self.board, id)),
            }
        } else {
            self
        }
    }

    /// The game after one hit after the other, in the order of the ids.
    pub open spec fn play(self, ids: Seq<Id>) -> GameView
        decreases ids.len(),
    {
        if ids.len() == 0 {
            self
        } else {
            self.play(ids.drop_last()).hit(ids.last())
        }
    }

    /// Everything that the hits report, one hit after the other.
    pub open spec fn events_of_play(self, ids: Seq<Id>) -> Seq<DominoRemoved>
        decreases ids.len(),
    {
        if ids.len() == 0 {
            Seq::empty()
        } else {
            self.events_of_play(ids.drop_last()) + self.play(ids.drop_last()).events_of_hit(
                ids.last(),
            )
        }
    }
}

/// A hit keeps the game well formed, whether it is refused or not.
pub proof fn lemma_hit_keeps_wf(game: GameView, id: Id)
    requires
        game.wf(),
    ensures
        game.hit(id).wf(),
{
    if game.board.dominoes.contains_key(id) {
        let events = hit_events(game.board, id);
        lemma_hit_removes_each_once(game.board, id);
        assert forall|i: int| 0 <= i < events.len() implies -MAX_AWARD <= (
        #[trigger] events[i]).score_awarded <= MAX_AWARD by {
            let event = events[i];
            assert(event == removal(event.id, game.board.dominoes[event.id], i > 0));
        }
        lemma_total_awarded_bound(events);
    }
}

/// Hits keep the game well formed, however many there are.
pub proof fn lemma_play_keeps_wf(game: GameView, ids: Seq<Id>)
    requires
        game.wf(),
    ensures
        game.play(ids).wf(),
    decreases ids.len(),
{
    if ids.len() > 0 {
        lemma_play_keeps_wf(game, ids.drop_last());
        lemma_hit_keeps_wf(game.play(ids.drop_last()), ids.last());
    }
}

/// The score is conserved: after any hits, on dominoes that are on the board
/// or not, the score has grown by the sum of what the reports of all those
/// hits awarded. A game that started on a board has just that sum as its
/// score.
pub proof fn lemma_score_is_conserved(game: GameView, ids: Seq<Id>)
    ensures
        game.play(ids).score == game.score + total_awarded(game.events_of_play(ids)),
        game.score == 0 ==> game.play(ids).score == total_awarded(game.events_of_play(ids)),
    decreases ids.len(),
{
    if ids.len() > 0 {
        let earlier = ids.drop_last();
        lemma_score_is_conserved(game, earlier);
        lemma_total_awarded_add(
            game.events_of_play(earlier),
            game.play(earlier).events_of_hit(ids.last()),
        );
    }
}

/// A board that is played on, and the score so far.
#[derive(Debug)]
pub struct Game {
    board: Board,
    score: Score,
}

impl View for Game {
    type V = GameView;

    closed spec fn view(&self) -> GameView {
        GameView { board: self.board@, score: self.score as int }
    }
}

impl Clone for Game {
    fn clone(&self) -> (copy: Self)
        ensures
            copy@ == self@,
            copy.wf() == self.wf(),
    {
        Game { board: self.board.clone(), score: self.score }
    }
}

/// Whether one of the reports is of the removal of the domino.
pub fn is_removed(events: &[DominoRemoved], id: Id) -> (removed: bool)
    ensures
        removed == removed_ids(events@).contains(id),
{
    let mut seen: usize = 0;
    while seen < events.len()
        invariant
            seen <= events@.len(),
            !removed_ids(events@.take(seen as int)).contains(id),
        decreases events@.len() - seen,
    {
        if events[seen].id == id {
            proof {
                assert(removed_ids(events@)[seen as int] == id);
            }
            return true;
        }
        proof {
            let ids = removed_ids(events@.take(seen + 1));
            assert forall|i: int| 0 <= i < ids.len() implies ids[i] != id by {
                if i < seen {
                    assert(removed_ids(events@.take(seen as int))[i] == ids[i]);
                }
            }
        }
        seen += 1;
    }
    proof {
        assert(events@.take(seen as int) =~= events@);
    }
    false
}

impl Game {
    /// The board is kept as boards are.
    pub closed spec fn is_laid_out(&self) -> bool {
        self.board.is_laid_out()
    }

    /// The invariant that every game keeps.
    pub open spec fn wf(&self) -> bool {
        self.is_laid_out() && self@.wf()
    }

    /// A game on the given board, with nothing scored yet.
    pub fn new(board: Board) -> (game: Self)
        requires
            board.wf(),
        ensures
            game.wf(),
            game@ == GameView::start(board@),
    {
        proof {
            lemma_registry_is_small(board@);
        }
        Self { board, score: 0 }
    }

    /// A game on the board that the drawing stands for, with pips dealt by
    /// chance and nothing scored yet. A drawing that stands for no board is
    /// refused with the reason.
    pub fn new_generated(input: &str) -> (generated: Result<Self, LayoutError>)
        ensures
            match generated {
                Ok(game) => {
                    &&& game.wf()
                    &&& game@.score == 0
                    &&& layout_of(input@) is Ok
                    &&& exists|deal: Seq<(Id, bool)>| #[trigger]
                        is_full_deal(layout_of(input@)->Ok_0, deal) && game@.board == dealt(
                            layout_of(input@)->Ok_0,
                            deal,
                            nth_values(0),
                        )
                },
                Err(error) => layout_of(input@) == Err::<BoardView, LayoutError>(error),
            },
    {
        let board = generate_from_string(input)?;
        Ok(Self::new(board))
    }

    /// The board as it now is.
    pub fn board(&self) -> (board: &Board)
        ensures
            board@ == self@.board,
            self.wf() ==> board.wf(),
    {
        &self.board
    }

    /// The dominoes that are still on the board, by id.
    pub fn dominoes(&self) -> (dominoes: &BTreeMap<Id, Domino>)
        ensures
            dominoes@ == self@.board.dominoes,
    {
        self.board.dominoes()
    }

    /// The score so far.
    pub fn score(&self) -> (score: Score)
        ensures
            score == self@.score,
    {
        self.score
    }

    /// Whether no domino is left on the board.
    pub fn is_finished(&self) -> (finished: bool)
        ensures
            finished == self@.board.dominoes.is_empty(),
    {
        self.board.dominoes().is_empty()
    }

    /// Resolves the player's hit on a domino: removes it, then every domino
    /// that an explosion reaches, in the order in which the explosions reach
    /// them, and adds what the removals are worth to the score. The reports
    /// come in that order, the one of the hit domino first, and no domino is
    /// reported twice. A hit on a domino that is not on the board is refused
    /// and changes nothing.
    pub fn hit_domino(&mut self, id: Id) -> (outcome: Result<Vec<DominoRemoved>, ContractViolation>)
        requires
            old(self).wf(),
        ensures
            final(self).wf(),
            final(self)@ == old(self)@.hit(id),
            match outcome {
                Ok(events) => {
                    &&& old(self)@.board.dominoes.contains_key(id)
                    &&& events@ == hit_events(old(self)@.board, id)
                    &&& final(self)@.board == board_after_hit(old(self)@.board, id)
                    &&& final(self)@.board.dominoes == old(self)@.board.dominoes.remove_keys(
                        removed_ids(events@).to_set(),
                    )
                    &&& final(self)@.score == old(self)@.score + total_awarded(events@)
                    &&& events@ == old(self)@.events_of_hit(id)
                    &&& events@.len() >= 1
                    &&& events@[0].id == id
                    &&& !events@[0].hit_by_explosion
                    &&& removed_ids(events@).no_duplicates()
                },
                Err(violation) => {
                    &&& !old(self)@.board.dominoes.contains_key(id)
                    &&& violation == ContractViolation::UnknownDomino(id)
                    &&& final(self)@ == old(self)@
                },
            },
    {
        let mut dominoes_removed: Vec<DominoRemoved> = Vec::new();
        let mut exploded_queue: VecDeque<Id> = VecDeque::new();

        let hitting_outcome = self.remove_domino(id, false, &mut exploded_queue)?;
        dominoes_removed.push(hitting_outcome);
        proof {
            assert(dominoes_removed@ =~= seq![hitting_outcome]);
            assert(exploded_queue@ =~= fallout(self@.board, old(self)@.board.dominoes[id]));
            assert(total_awarded(dominoes_removed@) == hitting_outcome.score_awarded) by {
                assert(dominoes_removed@.drop_last() =~= Seq::empty());
                assert(total_awarded(Seq::<DominoRemoved>::empty()) == 0);
            }
        }
        loop
            invariant
                self.wf(),
                old(self)@.board.dominoes.contains_key(id),
                dominoes_removed@.len() >= 1,
                dominoes_removed@[0] == removal(id, old(self)@.board.dominoes[id], false),
                dominoes_removed@ + chain(self@.board, exploded_queue@) == hit_events(
                    old(self)@.board,
                    id,
                ),
                settled(self@.board, exploded_queue@) == board_after_hit(old(self)@.board, id),
                self@.score == old(self)@.score + total_awarded(dominoes_removed@),
            ensures
                self.wf(),
                old(self)@.board.dominoes.contains_key(id),
                dominoes_removed@.len() >= 1,
                dominoes_removed@[0] == removal(id, old(self)@.board.dominoes[id], false),
                dominoes_removed@ == hit_events(old(self)@.board, id),
                self@.board == board_after_hit(old(self)@.board, id),
                self@.score == old(self)@.score + total_awarded(dominoes_removed@),
            decreases self@.board.dominoes.len(), exploded_queue@.len(),
        {
            let ghost queue_before = exploded_queue@;
            let ghost events_before = dominoes_removed@;
            let exploded = match exploded_queue.pop_front() {
                Some(exploded) => exploded,
                None => {
                    proof {
                        assert(dominoes_removed@ + Seq::<DominoRemoved>::empty()
                            =~= dominoes_removed@);
                    }
                    break ;
                },
            };
            proof {
                assert(exploded_queue@ =~= queue_before.drop_first());
            }
            if self.board.dominoes().contains_key(&exploded) {
                let explosion_outcome = self.remove_domino(exploded, true, &mut exploded_queue)?;
                dominoes_removed.push(explosion_outcome);
                proof {
                    assert(dominoes_removed@ + chain(self@.board, exploded_queue@)
                        =~= events_before + (seq![explosion_outcome] + chain(
                        self@.board,
                        exploded_queue@,
                    )));
                    assert(dominoes_removed@.drop_last() =~= events_before);
                }
            }
        }
        proof {
            lemma_hit_removes_each_once(old(self)@.board, id);
        }
        Ok(dominoes_removed)
    }

    /// Takes the domino off the board, lets it explode if it does, and
    /// scores the removal.
    fn remove_domino(
        &mut self,
        id: Id,
        hit_by_explosion: bool,
        exploded_queue: &mut VecDeque<Id>,
    ) -> (outcome: Result<DominoRemoved, ContractViolation>)
        requires
            old(self).wf(),
        ensures
            final(self).wf(),
            match outcome {
                Ok(event) => {
                    let removed = old(self)@.board.dominoes[id];
                    &&& old(self)@.board.dominoes.contains_key(id)
                    &&& event == removal(id, removed, hit_by_explosion)
                    &&& final(self)@.board == old(self)@.board.remove(id)
                    &&& final(self)@.score == old(self)@.score + event.score_awarded
                    &&& final(exploded_queue)@ == old(exploded_queue)@ + fallout(
                        final(self)@.board,
                        removed,
                    )
                },
                Err(violation) => {
                    &&& !old(self)@.board.dominoes.contains_key(id)
                    &&& violation == ContractViolation::UnknownDomino(id)
                    &&& final(self)@ == old(self)@
                    &&& final(exploded_queue)@ == old(exploded_queue)@
                },
            },
    {
        proof {
            lemma_registry_is_small(self@.board);
            if self@.board.dominoes.contains_key(id) {
                assert(self@.board.lies_as_registered(id));
            }
        }
        let removed = self.board.remove_domino(id)?;
        let score_value: Score = removed.values.head as Score + removed.values.tail as Score;
        let exploded = self.handle_possible_explosion(removed, exploded_queue);
        let score_awarded: Score = if hit_by_explosion || exploded {
            score_value
        } else if removed.values.head == removed.values.tail {
            -score_value
        } else {
            0
        };
        self.score += score_awarded;
        Ok(DominoRemoved { id, exploded, hit_by_explosion, score_awarded })
    }

    /// Puts on the queue every domino that the explosive halves of the
    /// removed domino reach, and says whether it had such a half.
    fn handle_possible_explosion(
        &self,
        removed: Domino,
        exploded_queue: &mut VecDeque<Id>,
    ) -> (exploded: bool)
        requires
            self.board.wf(),
            removed.tail_is_addressable(),
        ensures
            exploded == explodes(removed),
            final(exploded_queue)@ == old(exploded_queue)@ + fallout(self@.board, removed),
    {
        self.enqueue_blast(removed.values.head, removed.position, exploded_queue);
        self.enqueue_blast(removed.values.tail, removed.tail_position(), exploded_queue);
        proof {
            assert(exploded_queue@ =~= old(exploded_queue)@ + fallout(self@.board, removed));
        }
        removed.values.head == EXPLOSIVE_VALUE || removed.values.tail == EXPLOSIVE_VALUE
    }

    /// Puts on the queue the dominoes around the cell of a half, if the half
    /// is explosive.
    fn enqueue_blast(&self, value: Value, position: Position, exploded_queue: &mut VecDeque<Id>)
        requires
            self.board.wf(),
        ensures
            final(exploded_queue)@ == old(exploded_queue)@ + blast(self@.board, value, position),
    {
        if value != EXPLOSIVE_VALUE {
            proof {
                assert(exploded_queue@ =~= old(exploded_queue)@ + Seq::<Id>::empty());
            }
            return ;
        }
        let tiles = self.board.all_neighbors_of(position);
        let mut seen: usize = 0;
        while seen < tiles.len()
            invariant
                seen <= tiles@.len(),
                exploded_queue@ == old(exploded_queue)@ + owners(tiles@.take(seen as int)),
            decreases tiles@.len() - seen,
        {
            proof {
                tiles@.lemma_filter_map_take_succ(tile_owner(), seen as int);
            }
            match tiles[seen] {
                Tile::Empty => {},
                Tile::Head(id) | Tile::Tail(id) => exploded_queue.push_back(id),
            }
            seen += 1;
        }
        proof {
            assert(tiles@.take(seen as int) =~= tiles@);
        }
    }
}

} // verus!
