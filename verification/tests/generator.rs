use dombreaker::game::board::generator::{
    deal_values, generate_from_string, DominoValuesGenerator, LayoutError,
};
use dombreaker::game::board::{Board, Position, Tile};
use dombreaker::game::domino::{Domino, Id, Orientation, Values};
use dombreaker::game::violation::ContractViolation;
use dombreaker::game::Game;
use itertools::Itertools;
use std::collections::HashSet;

fn first_values(count: usize) -> Vec<(u8, u8)> {
    let mut generator = DominoValuesGenerator::new();
    let mut generated = Vec::new();
    for _ in 0..count {
        let Values { head, tail } = generator.next().unwrap();
        generated.push((head, tail));
    }
    generated
}

#[test]
fn domino_values_generator() {
    let generated = first_values(10);
    assert_eq!(
        generated,
        [
            (0, 0),
            (1, 0),
            (1, 1),
            (2, 0),
            (2, 1),
            (2, 2),
            (3, 0),
            (3, 1),
            (3, 2),
            (3, 3)
        ]
    )
}

#[test]
fn generate_single_horizontal() {
    let input = "\n--\n";
    let board = generate_from_string(input).unwrap();
    assert_eq!(board.width(), 2);
    assert_eq!(board.height(), 3);
    let expected_domino = Domino {
        values: (0, 0).into(),
        position: (0, 1).into(),
        orientation: Orientation::Horizontal,
    };
    assert_eq!(
        board.dominoes().values().collect_vec(),
        vec![&expected_domino]
    )
}

#[test]
fn generate_single_vertical() {
    let input = " |\n |\n";
    let board = generate_from_string(input).unwrap();
    assert_eq!(board.width(), 2);
    assert_eq!(board.height(), 3);
    let expected_domino = Domino {
        values: (0, 0).into(),
        position: (1, 0).into(),
        orientation: Orientation::Vertical,
    };
    assert_eq!(
        board.dominoes().values().collect_vec(),
        vec![&expected_domino]
    )
}

#[test]
#[should_panic]
fn panic_on_inconsistency1() {
    let input = "\n\
        --|\n\
        |--\n\
        |--
        ";
    generate_from_string(input).unwrap();
}

#[test]
#[should_panic]
fn panic_on_inconsistency2() {
    let input = "\n\
        --|\n\
        ---";
    generate_from_string(input).unwrap();
}

#[test]
fn several_dominoes() {
    let input = "\n\
        --|--|\n\
        --|--||\n      \
              |";
    let board = generate_from_string(input).unwrap();
    assert_eq!(board.width(), 7);
    assert_eq!(board.height(), 4);
    println!(
        "[{}]",
        board.dominoes().values().map(Domino::to_text).join(",")
    );

    let mut expected_values: HashSet<Values> =
        [(0, 0), (1, 0), (1, 1), (2, 0), (2, 1), (2, 2), (3, 0)]
            .iter()
            .map(|x| Values::from(*x))
            .collect();
    for domino in board.dominoes().values() {
        assert!(
            expected_values.remove(&domino.values)
                || expected_values.remove(&domino.values.swapped()),
            "Didn't expected {} domino",
            domino.to_text()
        );
    }
    assert_eq!(
        expected_values.into_iter().collect_vec(),
        Vec::<Values>::new()
    );
}

#[test]
fn values_come_by_head_then_tail() {
    let generated = first_values(300);
    let mut place = 0;
    for head in 0..=255u8 {
        for tail in 0..=head {
            if place < generated.len() {
                assert_eq!(generated[place], (head, tail));
                // The place is the triangular number of the head, and the tail on top.
                assert_eq!(place, head as usize * (head as usize + 1) / 2 + tail as usize);
            }
            place += 1;
        }
    }
}

#[test]
fn run_of_values_ends_before_the_last_pair() {
    let mut generator = DominoValuesGenerator::new();
    let mut count = 0usize;
    let mut last = None;
    while let Some(values) = generator.next() {
        assert!(values.tail <= values.head);
        last = Some(values);
        count += 1;
    }
    assert_eq!(count, 256 * 257 / 2 - 1);
    assert_eq!(
        last,
        Some(Values {
            head: 255,
            tail: 254
        })
    );
    assert_eq!(generator.next(), None);
    assert_eq!(generator.next(), None);
}

#[test]
fn drawing_is_read_line_by_line() {
    let input = "--|\n| |\n|--";
    let board = generate_from_string(input).unwrap();
    assert_eq!(board.width(), 3);
    assert_eq!(board.height(), 3);
    let lying = board
        .dominoes()
        .iter()
        .map(|(id, domino)| (*id, domino.position, domino.orientation))
        .collect_vec();
    assert_eq!(
        lying,
        vec![
            (0, Position { x: 0, y: 0 }, Orientation::Horizontal),
            (1, Position { x: 2, y: 0 }, Orientation::Vertical),
            (2, Position { x: 0, y: 1 }, Orientation::Vertical),
            (3, Position { x: 1, y: 2 }, Orientation::Horizontal),
        ]
    );
    assert_eq!(board.tile((0, 0).into()), Ok(Tile::Head(0)));
    assert_eq!(board.tile((1, 0).into()), Ok(Tile::Tail(0)));
    assert_eq!(board.tile((2, 0).into()), Ok(Tile::Head(1)));
    assert_eq!(board.tile((0, 1).into()), Ok(Tile::Head(2)));
    assert_eq!(board.tile((1, 1).into()), Ok(Tile::Empty));
    assert_eq!(board.tile((2, 1).into()), Ok(Tile::Tail(1)));
    assert_eq!(board.tile((0, 2).into()), Ok(Tile::Tail(2)));
    assert_eq!(board.tile((1, 2).into()), Ok(Tile::Head(3)));
    assert_eq!(board.tile((2, 2).into()), Ok(Tile::Tail(3)));
}

#[test]
fn one_mark_is_enough_for_a_domino() {
    let board = generate_from_string("- \n|\n ").unwrap();
    assert_eq!(board.width(), 2);
    assert_eq!(board.height(), 3);
    assert_eq!(board.tile((0, 0).into()), Ok(Tile::Head(0)));
    assert_eq!(board.tile((1, 0).into()), Ok(Tile::Tail(0)));
    assert_eq!(board.tile((0, 1).into()), Ok(Tile::Head(1)));
    assert_eq!(board.tile((0, 2).into()), Ok(Tile::Tail(1)));
}

#[test]
fn empty_drawing_is_a_board_without_columns() {
    let board = generate_from_string("").unwrap();
    assert_eq!(board.width(), 0);
    assert_eq!(board.height(), 1);
    assert!(board.dominoes().is_empty());
    let board = generate_from_string("\n\n").unwrap();
    assert_eq!(board.width(), 0);
    assert_eq!(board.height(), 3);
    let board = generate_from_string("ab c").unwrap();
    assert_eq!(board.width(), 4);
    assert_eq!(board.height(), 1);
    assert!(board.dominoes().is_empty());
}

#[test]
fn inconsistent_mark_is_named() {
    assert_eq!(
        generate_from_string("\n--|\n---").err(),
        Some(LayoutError::Inconsistent(Position { x: 2, y: 2 }))
    );
    assert_eq!(
        generate_from_string("--\n-|").err(),
        Some(LayoutError::Inconsistent(Position { x: 1, y: 1 }))
    );
    assert_eq!(
        generate_from_string("|\n-").err(),
        Some(LayoutError::Inconsistent(Position { x: 0, y: 1 }))
    );
}

#[test]
fn marks_that_the_board_refuses() {
    assert_eq!(
        generate_from_string("-").err(),
        Some(LayoutError::Refused(ContractViolation::TailOutOfBounds(
            Position { x: 0, y: 0 }
        )))
    );
    assert_eq!(
        generate_from_string("  \n |").err(),
        Some(LayoutError::Refused(ContractViolation::TailOutOfBounds(
            Position { x: 1, y: 1 }
        )))
    );
    assert_eq!(
        generate_from_string(" |\n- ").err(),
        Some(LayoutError::Refused(ContractViolation::Occupied(
            Position { x: 1, y: 1 }
        )))
    );
    assert_eq!(
        generate_from_string("\n--|\n|--\n|--\n").err(),
        Some(LayoutError::Refused(ContractViolation::Occupied(
            Position { x: 2, y: 2 }
        )))
    );
}

#[test]
fn drawing_can_be_too_large() {
    let wide = " ".repeat(256);
    assert_eq!(generate_from_string(&wide).err(), Some(LayoutError::TooLarge));
    let widest = " ".repeat(255);
    assert_eq!(generate_from_string(&widest).unwrap().width(), 255);
    let high = "\n".repeat(255);
    assert_eq!(generate_from_string(&high).err(), Some(LayoutError::TooLarge));
    let highest = "\n".repeat(254);
    assert_eq!(generate_from_string(&highest).unwrap().height(), 255);
}

#[test]
fn drawing_can_ask_for_too_many_dominoes() {
    let row = "--".repeat(16);
    let rows = vec![row; 16];
    let full = rows.join("\n");
    assert_eq!(
        generate_from_string(&full).err(),
        Some(LayoutError::Refused(ContractViolation::IdsExhausted))
    );
    let fewer = rows[..15].join("\n");
    let board = generate_from_string(&fewer).unwrap();
    assert_eq!(board.dominoes().len(), 240);
}

#[test]
fn characters_are_counted_not_bytes() {
    let board = generate_from_string("\u{e9}\u{e9}--\n\u{4e16}|\n |").unwrap();
    assert_eq!(board.width(), 4);
    assert_eq!(board.height(), 3);
    assert_eq!(board.tile((2, 0).into()), Ok(Tile::Head(0)));
    assert_eq!(board.tile((3, 0).into()), Ok(Tile::Tail(0)));
    assert_eq!(board.tile((1, 1).into()), Ok(Tile::Head(1)));
    assert_eq!(board.tile((1, 2).into()), Ok(Tile::Tail(1)));
}

fn three_blanks() -> Board {
    let mut board = Board::new(3, 2);
    for x in 0..3 {
        board
            .put_domino(Domino {
                values: Values::default(),
                position: (x, 0).into(),
                orientation: Orientation::Vertical,
            })
            .unwrap();
    }
    board
}

#[test]
fn values_are_dealt_in_the_order_of_the_list() {
    let mut board = three_blanks();
    let deal: Vec<(Id, bool)> = vec![(2, false), (0, true), (1, true)];
    assert_eq!(deal_values(&mut board, &deal), Ok(()));
    assert_eq!(board.dominoes()[&2].values, Values { head: 0, tail: 0 });
    assert_eq!(board.dominoes()[&0].values, Values { head: 0, tail: 1 });
    assert_eq!(board.dominoes()[&1].values, Values { head: 1, tail: 1 });
    for x in 0..3u8 {
        assert_eq!(board.dominoes()[&x].position, Position { x, y: 0 });
        assert_eq!(board.dominoes()[&x].orientation, Orientation::Vertical);
        assert_eq!(board.tile((x, 0).into()), Ok(Tile::Head(x)));
        assert_eq!(board.tile((x, 1).into()), Ok(Tile::Tail(x)));
    }
}

#[test]
fn later_deal_to_the_same_domino_wins() {
    let mut board = three_blanks();
    let deal: Vec<(Id, bool)> = vec![(1, false), (1, false), (1, false), (1, true), (1, true)];
    assert_eq!(deal_values(&mut board, &deal), Ok(()));
    assert_eq!(board.dominoes()[&1].values, Values { head: 1, tail: 2 });
    assert_eq!(board.dominoes()[&0].values, Values { head: 0, tail: 0 });
}

#[test]
fn deal_to_an_unknown_domino_changes_nothing() {
    let mut board = three_blanks();
    let deal: Vec<(Id, bool)> = vec![(2, false), (0, true), (7, false), (9, true), (1, true)];
    assert_eq!(
        deal_values(&mut board, &deal),
        Err(ContractViolation::UnknownDomino(7))
    );
    for x in 0..3u8 {
        assert_eq!(board.dominoes()[&x].values, Values { head: 0, tail: 0 });
    }
}

#[test]
fn deal_ends_with_the_run_of_values() {
    let mut board = three_blanks();
    let supply = 256 * 257 / 2 - 1;
    let mut deal: Vec<(Id, bool)> = vec![(0, false); supply];
    deal.push((1, false));
    deal.push((2, true));
    assert_eq!(deal_values(&mut board, &deal), Ok(()));
    assert_eq!(
        board.dominoes()[&0].values,
        Values {
            head: 255,
            tail: 254
        }
    );
    assert_eq!(board.dominoes()[&1].values, Values { head: 0, tail: 0 });
    assert_eq!(board.dominoes()[&2].values, Values { head: 0, tail: 0 });
}

fn dealt_order(board: &Board) -> Vec<Id> {
    let mut by_place = board
        .dominoes()
        .iter()
        .map(|(id, domino)| {
            let Values { head, tail } = domino.values;
            let (head, tail) = if tail > head { (tail, head) } else { (head, tail) };
            (head as usize * (head as usize + 1) / 2 + tail as usize, *id)
        })
        .collect_vec();
    by_place.sort();
    by_place.into_iter().map(|(_, id)| id).collect()
}

#[test]
fn generated_values_are_the_first_of_the_run() {
    let input = "--|--|\n\
                 --|--||\n\
                 --  --|";
    for _ in 0..20 {
        let board = generate_from_string(input).unwrap();
        let places = board
            .dominoes()
            .values()
            .map(|domino| {
                let Values { head, tail } = domino.values;
                if tail > head {
                    (tail, head)
                } else {
                    (head, tail)
                }
            })
            .sorted()
            .collect_vec();
        assert_eq!(places, first_values(9).into_iter().sorted().collect_vec());
    }
}

#[test]
fn generated_values_are_dealt_by_chance() {
    let input = "--|--|\n\
                 --|--||\n\
                 --  --|";
    let mut orders = HashSet::new();
    let mut swapped = HashSet::new();
    for _ in 0..40 {
        let board = generate_from_string(input).unwrap();
        orders.insert(dealt_order(&board));
        for domino in board.dominoes().values() {
            if domino.values.head != domino.values.tail {
                swapped.insert(domino.values.tail > domino.values.head);
            }
        }
    }
    // Forty deals that all come out in one order, or all the same way round,
    // do not happen by chance.
    assert!(orders.len() > 1);
    assert_eq!(swapped.len(), 2);
}

#[test]
fn generated_game_starts_without_score() {
    let game = Game::new_generated("--|\n  |").unwrap();
    assert_eq!(game.score(), 0);
    assert!(!game.is_finished());
    assert_eq!(game.dominoes().len(), 2);
    assert_eq!(game.board().width(), 3);
    assert_eq!(game.board().height(), 2);
    assert_eq!(
        Game::new_generated("-|").err(),
        Some(LayoutError::Inconsistent(Position { x: 1, y: 0 }))
    );
}
