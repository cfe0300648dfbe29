use dombreaker::game::board::Board;
use dombreaker::game::domino::{Domino, Id, Orientation};
use dombreaker::game::violation::ContractViolation;
use dombreaker::game::{is_removed, DominoRemoved, Game, Score, EXPLOSIVE_VALUE};
use std::collections::BTreeMap;

#[test]
fn hitting_normal_domino() {
    let mut board = Board::new(3, 3);
    let domino = board
        .put_domino(Domino {
            values: (1, 2).into(),
            position: (1, 1).into(),
            orientation: Orientation::Horizontal,
        })
        .unwrap();
    let mut game = Game::new(board);
    let outcome = game.hit_domino(domino).unwrap();
    assert_eq!(
        outcome,
        vec![DominoRemoved {
            id: domino,
            exploded: false,
            hit_by_explosion: false,
            score_awarded: 0
        }]
    );
    assert_eq!(game.score(), 0);
}

#[test]
fn hitting_hard_domino() {
    let mut board = Board::new(3, 3);
    let domino = board
        .put_domino(Domino {
            values: (5, 5).into(),
            position: (1, 1).into(),
            orientation: Orientation::Vertical,
        })
        .unwrap();
    let mut game = Game::new(board);
    let outcome = game.hit_domino(domino).unwrap();
    assert_eq!(
        outcome,
        vec![DominoRemoved {
            id: domino,
            exploded: false,
            hit_by_explosion: false,
            score_awarded: -10
        }]
    );
    assert_eq!(game.score(), -10);
}

#[test]
fn hitting_explosive_domino() {
    let mut board = Board::new(3, 3);
    let domino = board
        .put_domino(Domino {
            values: (5, 0).into(),
            position: (1, 1).into(),
            orientation: Orientation::Vertical,
        })
        .unwrap();
    let mut game = Game::new(board);
    let outcome = game.hit_domino(domino).unwrap();
    assert_eq!(
        outcome,
        vec![DominoRemoved {
            id: domino,
            exploded: true,
            hit_by_explosion: false,
            score_awarded: 5
        }]
    );
    assert_eq!(game.score(), 5);
}

#[test]
fn explosion() {
    let mut board = Board::new(3, 6);
    let orientation = Orientation::Vertical;
    let explosive = board
        .put_domino(Domino {
            values: (5, 0).into(),
            position: (1, 2).into(),
            orientation,
        })
        .unwrap();

    let not_destroyed = vec![
        Domino {
            values: (0, 1).into(),
            position: (0, 0).into(),
            orientation,
        },
        Domino {
            values: (1, 2).into(),
            position: (1, 0).into(),
            orientation,
        },
        Domino {
            values: (2, 3).into(),
            position: (2, 0).into(),
            orientation,
        },
    ];
    let expected_remaining: BTreeMap<Id, Domino> = not_destroyed
        .iter()
        .map(|domino| (board.put_domino(*domino).unwrap(), *domino))
        .collect();

    let destroyed = vec![
        board
            .put_domino(Domino {
                values: (3, 4).into(),
                position: (0, 2).into(),
                orientation,
            })
            .unwrap(),
        board
            .put_domino(Domino {
                values: (6, 1).into(),
                position: (2, 2).into(),
                orientation,
            })
            .unwrap(),
        board
            .put_domino(Domino {
                values: (2, 2).into(),
                position: (0, 4).into(),
                orientation,
            })
            .unwrap(),
        board
            .put_domino(Domino {
                values: (3, 3).into(),
                position: (1, 4).into(),
                orientation,
            })
            .unwrap(),
        board
            .put_domino(Domino {
                values: (4, 4).into(),
                position: (2, 4).into(),
                orientation,
            })
            .unwrap(),
    ];

    let mut game = Game::new(board);

    let expected_outcome = vec![
        DominoRemoved {
            id: explosive,
            exploded: true,
            hit_by_explosion: false,
            score_awarded: 5,
        },
        DominoRemoved {
            id: destroyed[1],
            exploded: false,
            hit_by_explosion: true,
            score_awarded: 7,
        },
        DominoRemoved {
            id: destroyed[4],
            exploded: false,
            hit_by_explosion: true,
            score_awarded: 8,
        },
        DominoRemoved {
            id: destroyed[3],
            exploded: false,
            hit_by_explosion: true,
            score_awarded: 6,
        },
        DominoRemoved {
            id: destroyed[2],
            exploded: false,
            hit_by_explosion: true,
            score_awarded: 4,
        },
        DominoRemoved {
            id: destroyed[0],
            exploded: false,
            hit_by_explosion: true,
            score_awarded: 7,
        },
    ];
    assert_eq!(game.hit_domino(explosive), Ok(expected_outcome));
    assert_eq!(*game.dominoes(), expected_remaining);
    assert_eq!(game.score(), 37)
}

#[test]
fn chained_explosion() {
    let mut board = Board::new(4, 7);
    let orientation = Orientation::Horizontal;
    let hit = board
        .put_domino(Domino {
            values: (0, 0).into(),
            position: (1, 2).into(),
            orientation,
        })
        .unwrap();

    let not_destroyed = vec![Domino {
        values: (3, 3).into(),
        position: (1, 6).into(),
        orientation,
    }];
    let expected_remaining: BTreeMap<Id, Domino> = not_destroyed
        .iter()
        .map(|domino| (board.put_domino(*domino).unwrap(), *domino))
        .collect();

    let destroyed = vec![
        board
            .put_domino(Domino {
                values: (3, 2).into(),
                position: (1, 0).into(),
                orientation,
            })
            .unwrap(),
        board
            .put_domino(Domino {
                values: (3, 0).into(),
                position: (1, 1).into(),
                orientation,
            })
            .unwrap(),
        board
            .put_domino(Domino {
                values: (4, 0).into(),
                position: (1, 3).into(),
                orientation,
            })
            .unwrap(),
        board
            .put_domino(Domino {
                values: (5, 0).into(),
                position: (1, 4).into(),
                orientation,
            })
            .unwrap(),
        board
            .put_domino(Domino {
                values: (1, 3).into(),
                position: (1, 5).into(),
                orientation,
            })
            .unwrap(),
    ];

    let mut game = Game::new(board);

    let expected_outcome = vec![
        DominoRemoved {
            id: hit,
            exploded: true,
            hit_by_explosion: false,
            score_awarded: 0,
        },
        DominoRemoved {
            id: destroyed[1],
            exploded: true,
            hit_by_explosion: true,
            score_awarded: 3,
        },
        DominoRemoved {
            id: destroyed[2],
            exploded: true,
            hit_by_explosion: true,
            score_awarded: 4,
        },
        DominoRemoved {
            id: destroyed[0],
            exploded: false,
            hit_by_explosion: true,
            score_awarded: 5,
        },
        DominoRemoved {
            id: destroyed[3],
            exploded: true,
            hit_by_explosion: true,
            score_awarded: 5,
        },
        DominoRemoved {
            id: destroyed[4],
            exploded: false,
            hit_by_explosion: true,
            score_awarded: 4,
        },
    ];
    assert_eq!(game.hit_domino(hit), Ok(expected_outcome));
    assert_eq!(*game.dominoes(), expected_remaining);
    assert_eq!(game.score(), 21)
}

#[test]
fn on_edge_explosions_do_not_panic() {
    let mut board = Board::new(4, 4);
    let hit = board
        .put_domino(Domino {
            values: (0, 0).into(),
            position: (0, 1).into(),
            orientation: Orientation::Vertical,
        })
        .unwrap();
    board
        .put_domino(Domino {
            values: (0, 0).into(),
            position: (1, 0).into(),
            orientation: Orientation::Horizontal,
        })
        .unwrap();
    board
        .put_domino(Domino {
            values: (0, 0).into(),
            position: (3, 1).into(),
            orientation: Orientation::Vertical,
        })
        .unwrap();
    board
        .put_domino(Domino {
            values: (0, 0).into(),
            position: (1, 3).into(),
            orientation: Orientation::Horizontal,
        })
        .unwrap();

    let mut game = Game::new(board);

    let outcome = game.hit_domino(hit).unwrap();

    assert_eq!(outcome.len(), 4);
}

fn chain_board() -> (Board, Vec<Id>) {
    let mut board = Board::new(4, 7);
    let orientation = Orientation::Horizontal;
    let layout: Vec<((u8, u8), (u8, u8))> = vec![
        ((0, 0), (1, 2)),
        ((3, 3), (1, 6)),
        ((3, 2), (1, 0)),
        ((3, 0), (1, 1)),
        ((4, 0), (1, 3)),
        ((5, 0), (1, 4)),
        ((1, 3), (1, 5)),
    ];
    let mut ids = Vec::new();
    for (values, position) in layout {
        ids.push(
            board
                .put_domino(Domino {
                    values: values.into(),
                    position: position.into(),
                    orientation,
                })
                .unwrap(),
        );
    }
    (board, ids)
}

#[test]
fn the_explosive_value_is_zero() {
    assert_eq!(EXPLOSIVE_VALUE, 0);
}

#[test]
fn new_game_has_no_score() {
    let (board, ids) = chain_board();
    let game = Game::new(board);
    assert_eq!(game.score(), 0);
    assert!(!game.is_finished());
    assert_eq!(game.dominoes().len(), ids.len());
    assert_eq!(game.board().width(), 4);
    assert_eq!(game.board().height(), 7);
    assert!(Game::new(Board::new(2, 2)).is_finished());
}

#[test]
fn no_domino_is_reported_twice() {
    let (board, ids) = chain_board();
    let mut game = Game::new(board);
    let outcome = game.hit_domino(ids[0]).unwrap();
    for (i, first) in outcome.iter().enumerate() {
        for second in outcome.iter().skip(i + 1) {
            assert_ne!(first.id, second.id);
        }
    }
    // Every domino that went is off the board, every other is still there.
    for id in &ids {
        assert_eq!(is_removed(&outcome, *id), !game.dominoes().contains_key(id));
    }
}

#[test]
fn first_report_is_of_the_hit_domino() {
    let (board, ids) = chain_board();
    for id in ids {
        let mut game = Game::new(board.clone());
        let outcome = game.hit_domino(id).unwrap();
        assert_eq!(outcome[0].id, id);
        assert!(!outcome[0].hit_by_explosion);
        for later in &outcome[1..] {
            assert!(later.hit_by_explosion);
        }
    }
}

#[test]
fn score_is_the_sum_of_all_awards() {
    let (board, ids) = chain_board();
    let mut game = Game::new(board);
    let mut awarded: Score = 0;
    for id in [ids[6], ids[1], ids[3], ids[2], ids[0]] {
        if let Ok(outcome) = game.hit_domino(id) {
            awarded += outcome.iter().map(|event| event.score_awarded).sum::<Score>();
        }
        assert_eq!(game.score(), awarded);
    }
    assert!(game.is_finished());
    assert_eq!(game.score(), -6 + 3 + 5 + 4 + 5 + 0);
}

#[test]
fn hitting_what_is_not_there_is_a_violation() {
    let (board, ids) = chain_board();
    let mut game = Game::new(board);
    assert_eq!(
        game.hit_domino(200),
        Err(ContractViolation::UnknownDomino(200))
    );
    assert_eq!(game.score(), 0);
    assert_eq!(game.dominoes().len(), ids.len());
    game.hit_domino(ids[1]).unwrap();
    assert_eq!(
        game.hit_domino(ids[1]),
        Err(ContractViolation::UnknownDomino(ids[1]))
    );
    assert_eq!(game.score(), -6);
    assert_eq!(game.dominoes().len(), ids.len() - 1);
}

#[test]
fn double_blank_explodes_at_both_ends_for_one_award() {
    let mut board = Board::new(6, 1);
    let orientation = Orientation::Horizontal;
    let left = board
        .put_domino(Domino {
            values: (6, 6).into(),
            position: (0, 0).into(),
            orientation,
        })
        .unwrap();
    let middle = board
        .put_domino(Domino {
            values: (0, 0).into(),
            position: (2, 0).into(),
            orientation,
        })
        .unwrap();
    let right = board
        .put_domino(Domino {
            values: (2, 5).into(),
            position: (4, 0).into(),
            orientation,
        })
        .unwrap();
    let mut game = Game::new(board);
    assert_eq!(
        game.hit_domino(middle),
        Ok(vec![
            DominoRemoved {
                id: middle,
                exploded: true,
                hit_by_explosion: false,
                score_awarded: 0
            },
            DominoRemoved {
                id: left,
                exploded: false,
                hit_by_explosion: true,
                score_awarded: 12
            },
            DominoRemoved {
                id: right,
                exploded: false,
                hit_by_explosion: true,
                score_awarded: 7
            },
        ])
    );
    assert_eq!(game.score(), 19);
    assert!(game.is_finished());
}

#[test]
fn highest_pips_are_scored_in_full() {
    let mut board = Board::new(2, 2);
    let double = board
        .put_domino(Domino {
            values: (255, 255).into(),
            position: (0, 0).into(),
            orientation: Orientation::Horizontal,
        })
        .unwrap();
    let other = board
        .put_domino(Domino {
            values: (255, 0).into(),
            position: (0, 1).into(),
            orientation: Orientation::Horizontal,
        })
        .unwrap();
    let mut game = Game::new(board.clone());
    assert_eq!(
        game.hit_domino(double),
        Ok(vec![DominoRemoved {
            id: double,
            exploded: false,
            hit_by_explosion: false,
            score_awarded: -510
        }])
    );
    assert_eq!(game.score(), -510);
    let mut game = Game::new(board);
    assert_eq!(
        game.hit_domino(other),
        Ok(vec![
            DominoRemoved {
                id: other,
                exploded: true,
                hit_by_explosion: false,
                score_awarded: 255
            },
            DominoRemoved {
                id: double,
                exploded: false,
                hit_by_explosion: true,
                score_awarded: 510
            },
        ])
    );
    assert_eq!(game.score(), 765);
}

#[test]
fn reports_name_what_was_removed() {
    let events = vec![
        DominoRemoved {
            id: 4,
            exploded: true,
            hit_by_explosion: false,
            score_awarded: 3,
        },
        DominoRemoved {
            id: 9,
            exploded: false,
            hit_by_explosion: true,
            score_awarded: 7,
        },
    ];
    assert!(is_removed(&events, 4));
    assert!(is_removed(&events, 9));
    assert!(!is_removed(&events, 0));
    assert!(!is_removed(&[], 4));
}

#[test]
fn clone_of_a_game_is_played_on_its_own() {
    let (board, ids) = chain_board();
    let mut game = Game::new(board);
    let copy = game.clone();
    game.hit_domino(ids[0]).unwrap();
    assert_eq!(copy.score(), 0);
    assert_eq!(copy.dominoes().len(), ids.len());
    assert_eq!(game.dominoes().len(), 1);
}
