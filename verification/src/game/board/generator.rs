//! Boards from a drawing: every `-` of the text is a cell of a horizontal
//! domino, every `|` a cell of a vertical one, and the pips are dealt by
//! chance.

pub mod drawing;
pub mod values;

use crate::game::board::generator::drawing::{
    column, columns, drawn, filled, layout_of, lemma_beginning_is_smaller, lemma_drawn_is_blank,
    lemma_error_stays, lemma_rows_and_columns, rows,
};
use crate::game::board::generator::values::{
    dealt, dealt_to, first_unknown, is_full_deal, is_last, lemma_full_deal,
    lemma_full_deal_knows_all, lemma_same_ids, nth_values, successor,
};
use crate::game::board::model::BoardView;
use crate::game::board::{Board, Coord, Position, Tile};
use crate::game::domino::{Domino, Id, Orientation, Value, Values};
use crate::game::violation::ContractViolation;
use rand::rngs::ThreadRng;
use rand::seq::SliceRandom;
use rand::Rng;
use std::collections::BTreeMap;
use vstd::prelude::*;
use vstd::string::StringExecFns;

verus! {

/// The pairs of pips in their run: the double blank first, then each pair
/// with the tail not above the head.
#[derive(Copy, Clone, Debug)]
pub struct DominoValuesGenerator {
    next: Values,
}

impl DominoValuesGenerator {
    /// The pair that is handed out next.
    pub closed spec fn upcoming(&self) -> Values {
        self.next
    }

    /// The run from its start.
    pub fn new() -> (generator: Self)
        ensures
            generator.upcoming() == nth_values(0),
    {
        DominoValuesGenerator { next: Values { head: 0, tail: 0 } }
    }

    /// Hands out the upcoming pair and moves on to its successor. The run
    /// ends before the pair that has no successor.
    pub fn next(&mut self) -> (values: Option<Values>)
        ensures
            match values {
                Some(values) => {
                    &&& !is_last(old(self).upcoming())
                    &&& values == old(self).upcoming()
                    &&& final(self).upcoming() == successor(old(self).upcoming())
                },
                None => is_last(old(self).upcoming()) && final(self).upcoming() == old(
                    self,
                ).upcoming(),
            },
    {
        let return_value = self.next;
        if self.next.tail >= self.next.head {
            if self.next.head == Value::MAX {
                return None;
            }
            self.next.head += 1;
            self.next.tail = 0;
        } else {
            self.next.tail += 1;
        }
        Some(return_value)
    }
}

/// Why a drawing gives no board.
#[derive(Copy, Clone, Debug, Eq, Hash, PartialEq, Structural)]
pub enum LayoutError {
    /// The drawing has more rows or more columns than a board can have.
    TooLarge,
    /// The mark at this cell asks for a domino that lies the other way than
    /// the one that is there already.
    Inconsistent(Position),
    /// The board refused the domino that a mark asks for.
    Refused(ContractViolation),
}

impl LayoutError {
    /// What is wrong with the drawing, in words.
    pub open spec fn text(self) -> Seq<char> {
        match self {
            LayoutError::TooLarge => "Board too large"@,
            LayoutError::Inconsistent(position) => "Inconsistent domino at position "@
                + position.text(),
            LayoutError::Refused(violation) => violation.text(),
        }
    }

    /// What is wrong with the drawing, in words.
    pub fn to_text(&self) -> (text: String)
        ensures
            text@ == self.text(),
    {
        match self {
            LayoutError::TooLarge => String::from_str("Board too large"),
            LayoutError::Inconsistent(position) => {
                let mut text = String::from_str("Inconsistent domino at position ");
                text.append(position.to_text().as_str());
                text
            },
            LayoutError::Refused(violation) => violation.to_text(),
        }
    }
}

/// `rand::rngs::ThreadRng`, the handle to the generator of random numbers of
/// this thread. Nothing is claimed of what is inside it.
#[verifier::external_type_specification]
#[verifier::external_body]
pub struct ExThreadRng(rand::rngs::ThreadRng);

/// Calls `rand::thread_rng`, which hands out the generator of this thread.
/// Nothing is claimed of it.
#[verifier::external_body]
fn thread_rng() -> ThreadRng {
    rand::thread_rng()
}

/// Calls `rand::seq::SliceRandom::shuffle`, which exchanges items of the
/// slice in place: what comes out holds the same ids as often as what went
/// in. Of their order nothing is claimed.
#[verifier::external_body]
fn shuffle(ids: &mut Vec<Id>, rng: &mut ThreadRng)
    ensures
        final(ids)@.to_multiset() == old(ids)@.to_multiset(),
{
    ids.shuffle(rng);
}

/// Calls `rand::Rng::gen_ratio`, which is true with the given chance. Of
/// the outcome nothing is claimed. The call panics on a denominator of zero
/// and on a numerator above the denominator.
#[verifier::external_body]
fn gen_ratio(rng: &mut ThreadRng, numerator: u32, denominator: u32) -> bool
    requires
        0 < denominator,
        numerator <= denominator,
{
    rng.gen_ratio(numerator, denominator)
}

/// The ids of the registry.
fn registered_ids(dominoes: &BTreeMap<Id, Domino>) -> (ids: Vec<Id>)
    ensures
        ids@.no_duplicates(),
        ids@.to_set() == dominoes@.dom(),
{
    let mut ids: Vec<Id> = Vec::new();
    for id in keys: dominoes.keys()
        invariant
            keys.seq().unref().to_set() == dominoes@.dom(),
            keys.seq().no_duplicates(),
            ids@ == keys.seq().take(keys.index()).unref(),
            ids@.no_duplicates(),
            keys.index() == keys.seq().len() ==> ids@.to_set() == dominoes@.dom(),
    {
        ids.push(*id);
        proof {
            let next = keys.index() + 1;
            assert(keys.seq().take(next).unref() =~= keys.seq().take(keys.index()).unref().push(
                *id,
            ));
            assert forall|i: int, j: int| 0 <= i < j < ids@.len() implies ids@[i] != ids@[j] by {
                assert(keys.seq()[i] != keys.seq()[j]);
            }
            assert(next == keys.seq().len() ==> keys.seq().take(next) =~= keys.seq());
        }
    }
    ids
}

/// Deals the run of pips to the dominoes of the list: the first of the list
/// gets the double blank, the next the pair after it, and so on, each pair
/// laid with head and tail exchanged where the list says so. A list that
/// names a domino that is not on the board is refused, and the board stays
/// as it was.
pub fn deal_values(board: &mut Board, deal: &Vec<(Id, bool)>) -> (outcome: Result<
    (),
    ContractViolation,
>)
    requires
        old(board).wf(),
    ensures
        final(board).wf(),
        match first_unknown(old(board)@, deal@) {
            Some(id) => outcome == Err::<(), ContractViolation>(
                ContractViolation::UnknownDomino(id),
            ) && final(board)@ == old(board)@,
            None => outcome is Ok && final(board)@ == dealt(old(board)@, deal@, nth_values(0)),
        },
{
    let mut checked: usize = 0;
    proof {
        assert(deal@.skip(0) =~= deal@);
    }
    while checked < deal.len()
        invariant
            checked <= deal@.len(),
            board.wf(),
            board@ == old(board)@,
            first_unknown(board@, deal@) == first_unknown(board@, deal@.skip(checked as int)),
        decreases deal@.len() - checked,
    {
        let id = deal[checked].0;
        proof {
            assert(deal@.skip(checked as int).drop_first() =~= deal@.skip(checked + 1));
        }
        if !board.dominoes().contains_key(&id) {
            return Err(ContractViolation::UnknownDomino(id));
        }
        checked += 1;
    }
    let mut values_generator = DominoValuesGenerator::new();
    let mut done: usize = 0;
    while done < deal.len()
        invariant
            done <= deal@.len(),
            board.wf(),
            board@.dominoes.dom() == old(board)@.dominoes.dom(),
            first_unknown(old(board)@, deal@) is None,
            first_unknown(old(board)@, deal@.skip(done as int)) is None,
            dealt(board@, deal@.skip(done as int), values_generator.upcoming()) == dealt(
                old(board)@,
                deal@,
                nth_values(0),
            ),
        ensures
            board.wf(),
            first_unknown(old(board)@, deal@) is None,
            board@ == dealt(old(board)@, deal@, nth_values(0)),
        decreases deal@.len() - done,
    {
        let (id, swapped) = deal[done];
        proof {
            assert(deal@.skip(done as int).drop_first() =~= deal@.skip(done + 1));
            assert(deal@.skip(done as int)[0] == deal@[done as int]);
        }
        let values = match values_generator.next() {
            Some(values) => values,
            None => break ,
        };
        match board.domino_values_mut(id) {
            Ok(pips) => {
                *pips = if swapped {
                    values.swapped()
                } else {
                    values
                };
            },
            Err(violation) => return Err(violation),
        }
        proof {
            assert(board@.dominoes.dom() =~= old(board)@.dominoes.dom());
        }
        done += 1;
    }
    Ok(())
}

/// The drawing that is being turned into a board.
struct Generator<'a> {
    input: &'a str,
    board: Board,
}

impl<'a> Generator<'a> {
    /// An empty board of the size of the drawing.
    fn prepare(input: &'a str) -> (prepared: Result<Self, LayoutError>)
        ensures
            match prepared {
                Ok(generator) => {
                    &&& generator.input@ == input@
                    &&& generator.board.wf()
                    &&& columns(input@) <= Coord::MAX
                    &&& rows(input@) <= Coord::MAX
                    &&& generator.board@ == BoardView::empty(columns(input@), rows(input@))
                },
                Err(error) => {
                    &&& columns(input@) > Coord::MAX || rows(input@) > Coord::MAX
                    &&& error == LayoutError::TooLarge
                },
            },
    {
        let mut width: Coord = 0;
        let mut height: Coord = 1;
        let mut column_reached: Coord = 0;
        for character in text: input.chars()
            invariant
                text.seq() == input@,
                height == rows(input@.take(text.index())),
                width == columns(input@.take(text.index())),
                column_reached == column(input@.take(text.index())),
        {
            proof {
                assert(input@.take(text.index() + 1).drop_last() =~= input@.take(text.index()));
                lemma_rows_and_columns(input@.take(text.index()));
                lemma_beginning_is_smaller(input@, text.index() + 1);
            }
            if character == '\n' {
                if height == Coord::MAX {
                    return Err(LayoutError::TooLarge);
                }
                height += 1;
                column_reached = 0;
            } else {
                if column_reached == Coord::MAX {
                    return Err(LayoutError::TooLarge);
                }
                column_reached += 1;
                if column_reached > width {
                    width = column_reached;
                }
            }
        }
        proof {
            assert(input@.take(input@.len() as int) =~= input@);
        }
        Ok(Self { input, board: Board::new(width, height) })
    }

    /// Places a domino for every mark of the drawing that stands on an empty
    /// cell, and holds every other mark against the domino that lies there.
    fn place_dominoes(&mut self) -> (placed: Result<(), LayoutError>)
        requires
            old(self).board.wf(),
            columns(old(self).input@) <= Coord::MAX,
            rows(old(self).input@) <= Coord::MAX,
            old(self).board@ == BoardView::empty(
                columns(old(self).input@),
                rows(old(self).input@),
            ),
        ensures
            final(self).input@ == old(self).input@,
            final(self).board.wf(),
            match placed {
                Ok(()) => layout_of(old(self).input@) == Ok::<BoardView, LayoutError>(
                    final(self).board@,
                ),
                Err(error) => layout_of(old(self).input@) == Err::<BoardView, LayoutError>(error),
            },
    {
        let mut row: Coord = 0;
        let mut col: Coord = 0;
        for character in text: self.input.chars()
            invariant
                text.seq() == self.input@,
                self.input@ == old(self).input@,
                self.board.wf(),
                columns(self.input@) <= Coord::MAX,
                rows(self.input@) <= Coord::MAX,
                self.board@.width == columns(self.input@),
                self.board@.height == rows(self.input@),
                row + 1 == rows(self.input@.take(text.index())),
                col == column(self.input@.take(text.index())),
                drawn(self.input@, text.index() as nat) == Ok::<BoardView, LayoutError>(
                    self.board@,
                ),
                text.index() == text.seq().len() ==> drawn(self.input@, self.input@.len())
                    == Ok::<BoardView, LayoutError>(self.board@),
        {
            proof {
                assert(self.input@.take(text.index() + 1).drop_last() =~= self.input@.take(
                    text.index(),
                ));
                lemma_beginning_is_smaller(self.input@, text.index() + 1);
                lemma_beginning_is_smaller(self.input@, text.index());
            }
            let possible_domino = if character == '|' {
                Some(Orientation::Vertical)
            } else if character == '-' {
                Some(Orientation::Horizontal)
            } else {
                None
            };
            if let Some(orientation) = possible_domino {
                let position = Position { x: col, y: row };
                let filled = self.fill_tile(position, orientation);
                if let Err(error) = filled {
                    proof {
                        lemma_error_stays(self.input@, text.index() + 1, self.input@.len() as int);
                    }
                    return Err(error);
                }
            }
            if character == '\n' {
                row += 1;
                col = 0;
            } else {
                col += 1;
            }
        }
        Ok(())
    }

    /// Lets the mark at a cell of the grid have its way: a domino on an
    /// empty cell, and on a cell that is taken a domino that lies as the
    /// mark says.
    fn fill_tile(&mut self, position: Position, orientation: Orientation) -> (done: Result<
        (),
        LayoutError,
    >)
        requires
            old(self).board.wf(),
            old(self).board@.contains(position),
        ensures
            final(self).input@ == old(self).input@,
            final(self).board.wf(),
            match filled(old(self).board@, position, orientation) {
                Ok(board) => done is Ok && final(self).board@ == board,
                Err(error) => done == Err::<(), LayoutError>(error),
            },
    {
        match self.board.tile(position) {
            Ok(Tile::Empty) => {
                match self.board.put_domino(
                    Domino { values: Values::default(), position, orientation },
                ) {
                    Ok(_) => Ok(()),
                    Err(violation) => Err(LayoutError::Refused(violation)),
                }
            },
            Ok(Tile::Head(id)) | Ok(Tile::Tail(id)) => {
                proof {
                    assert(self.board@.tiles.contains_key(position));
                    assert(self.board@.accounts_for(position));
                }
                match self.board.dominoes().get(&id) {
                    Some(domino) if domino.orientation == orientation => Ok(()),
                    _ => Err(LayoutError::Inconsistent(position)),
                }
            },
            Err(violation) => Err(LayoutError::Refused(violation)),
        }
    }
}

impl<'a> Generator<'a> {
    /// Deals the run of pips to the dominoes of the board, in an order and
    /// with head and tail as chance will have it.
    fn assign_values(&mut self)
        requires
            old(self).board.wf(),
        ensures
            final(self).input@ == old(self).input@,
            final(self).board.wf(),
            exists|deal: Seq<(Id, bool)>| #[trigger]
                is_full_deal(old(self).board@, deal) && final(self).board@ == dealt(
                    old(self).board@,
                    deal,
                    nth_values(0),
                ),
    {
        let mut ids = registered_ids(self.board.dominoes());
        let ghost ids_in_order = ids@;
        let mut rng = thread_rng();
        shuffle(&mut ids, &mut rng);
        proof {
            lemma_same_ids(ids_in_order, ids@);
        }
        let mut deal: Vec<(Id, bool)> = Vec::new();
        let mut drawn: usize = 0;
        while drawn < ids.len()
            invariant
                drawn <= ids@.len(),
                dealt_to(deal@) == ids@.take(drawn as int),
            decreases ids@.len() - drawn,
        {
            let swapped = gen_ratio(&mut rng, 1, 2);
            deal.push((ids[drawn], swapped));
            proof {
                assert(dealt_to(deal@) =~= ids@.take(drawn as int).push(ids@[drawn as int]));
                assert(ids@.take(drawn + 1) =~= ids@.take(drawn as int).push(ids@[drawn as int]));
            }
            drawn += 1;
        }
        proof {
            assert(ids@.take(drawn as int) =~= ids@);
            lemma_full_deal_knows_all(self.board@, deal@);
        }
        // Every domino of the list is on the board, so the deal is not refused.
        let _ = deal_values(&mut self.board, &deal);
        proof {
            assert(is_full_deal(old(self).board@, deal@));
        }
    }
}

/// The board that the drawing stands for, with the run of pips dealt to its
/// dominoes by chance: each domino gets one pair, the pairs are those from
/// the double blank on, and which domino gets which pair, and with head and
/// tail which way round, is not foretold. A drawing that stands for no board
/// is refused with the reason.
pub fn generate_from_string(string: &str) -> (generated: Result<Board, LayoutError>)
    ensures
        match generated {
            Ok(board) => {
                &&& board.wf()
                &&& layout_of(string@) is Ok
                &&& board@.width == columns(string@)
                &&& board@.height == rows(string@)
                &&& board@.tiles == layout_of(string@)->Ok_0.tiles
                &&& exists|deal: Seq<(Id, bool)>| #[trigger]
                    is_full_deal(layout_of(string@)->Ok_0, deal) && board@ == dealt(
                        layout_of(string@)->Ok_0,
                        deal,
                        nth_values(0),
                    )
            },
            Err(error) => layout_of(string@) == Err::<BoardView, LayoutError>(error),
        },
{
    let mut generator = Generator::prepare(string)?;
    generator.place_dominoes()?;
    let ghost blank = generator.board@;
    generator.assign_values();
    proof {
        let deal = choose|deal: Seq<(Id, bool)>| #[trigger]
            is_full_deal(blank, deal) && generator.board@ == dealt(blank, deal, nth_values(0));
        assert(is_full_deal(layout_of(string@)->Ok_0, deal));
        lemma_drawn_is_blank(string@, string@.len());
        lemma_full_deal(blank, deal);
    }
    Ok(generator.board)
}

} // verus!
