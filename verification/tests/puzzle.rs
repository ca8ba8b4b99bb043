use flat_hypercube::puzzle::{Puzzle, PuzzleTurn, SideTurn, Turn};
use flat_hypercube::stickers::StickerMap;
use flat_hypercube::turns::{ax, NormalizedTurn};

fn sample_turns() -> Vec<Turn> {
    vec![
        Turn::Side(SideTurn {
            side: 0,
            layer_min: 2,
            layer_max: 2,
            from: 1,
            to: 2,
        }),
        Turn::Side(SideTurn {
            side: !0,
            layer_min: -2,
            layer_max: -2,
            from: 1,
            to: 3,
        }),
        Turn::Puzzle(PuzzleTurn { from: 0, to: 2 }),
        Turn::Side(SideTurn {
            side: 3,
            layer_min: 0,
            layer_max: 0,
            from: !0,
            to: 1,
        }),
        Turn::Puzzle(PuzzleTurn { from: 1, to: 3 }),
    ]
}

fn labeled_puzzle() -> Puzzle {
    let mut puzzle = Puzzle::make_solved(3, 4);
    let positions: Vec<Vec<i16>> = puzzle.stickers.keys().into_iter().collect();
    for (idx, pos) in positions.into_iter().enumerate() {
        puzzle.stickers.insert(pos, idx as i16);
    }
    puzzle
}

#[test]
fn batch_turns_match_sequential_turns() {
    let turns = sample_turns();
    let mut sequential = labeled_puzzle();
    let mut batch = sequential.clone();

    for turn in &turns {
        assert!(sequential.turn(turn.clone()).is_some());
    }
    assert!(batch.apply_turns_batch(&turns).is_some());

    assert_eq!(sequential.stickers, batch.stickers);
}

#[test]
fn batch_turns_match_sequential_inverse_turns() {
    let turns: Vec<Turn> = sample_turns()
        .iter()
        .rev()
        .map(|turn| turn.inverse())
        .collect();
    let mut sequential = labeled_puzzle();
    let mut batch = sequential.clone();

    for turn in &turns {
        assert!(sequential.turn(turn.clone()).is_some());
    }
    assert!(batch.apply_turns_batch(&turns).is_some());

    assert_eq!(sequential.stickers, batch.stickers);
}

#[test]
fn batch_positions_match_sequential_positions() {
    let puzzle = Puzzle::make_solved(3, 4);
    let turns = sample_turns();
    let mut sequential = vec![
        vec![2, 2, 0, 0],
        vec![2, 0, 2, 0],
        vec![0, 0, 0, 0],
        vec![2, 2, 0, 0],
    ];
    let mut batch = sequential.clone();

    for turn in &turns {
        for pos in &mut sequential {
            assert!(puzzle.turn_position(pos, turn).is_some());
        }
    }
    assert!(puzzle
        .apply_turns_to_positions_batch(&mut batch, &turns)
        .is_some());

    assert_eq!(sequential, batch);
}

#[test]
fn solved_puzzle_has_one_colour_per_face() {
    let puzzle = Puzzle::make_solved(3, 3);
    assert_eq!(puzzle.stickers.len(), 54);
    assert!(puzzle.is_solved());
    assert_eq!(puzzle.stickers.get(&[3, 0, 0]), Some(0));
    assert_eq!(puzzle.stickers.get(&[-3, 0, 0]), Some(!0));
    assert_eq!(puzzle.stickers.get(&[0, 3, 0]), Some(1));
    assert_eq!(puzzle.stickers.get(&[0, 0, -3]), Some(!2));
    assert_eq!(puzzle.stickers.get(&[2, 2, 2]), None);
}

#[test]
fn one_dimensional_puzzle_has_two_stickers() {
    let puzzle = Puzzle::make_solved(2, 1);
    assert_eq!(puzzle.stickers.len(), 2);
    assert_eq!(puzzle.stickers.get(&[2]), Some(0));
    assert_eq!(puzzle.stickers.get(&[-2]), Some(!0));
    assert!(puzzle.is_solved());
}

#[test]
fn sticker_counts_of_hypercubes() {
    // 2 d faces with n^(d-1) stickers each
    assert_eq!(Puzzle::make_solved(2, 2).stickers.len(), 8);
    assert_eq!(Puzzle::make_solved(3, 4).stickers.len(), 216);
    assert_eq!(Puzzle::make_solved(2, 4).stickers.len(), 64);
}

#[test]
fn a_turn_unsolves_and_its_inverse_solves() {
    let mut puzzle = Puzzle::make_solved(3, 3);
    let turn = Turn::Side(SideTurn {
        side: 0,
        layer_min: 2,
        layer_max: 2,
        from: 1,
        to: 2,
    });
    assert!(puzzle.turn(turn.clone()).is_some());
    assert!(!puzzle.is_solved());
    assert!(puzzle.turn(turn.inverse()).is_some());
    assert!(puzzle.is_solved());
}

#[test]
fn turn_then_inverse_restores_every_sticker() {
    let start = labeled_puzzle();
    for turn in sample_turns() {
        let mut puzzle = start.clone();
        assert!(puzzle.turn(turn.clone()).is_some());
        assert!(puzzle.turn(turn.inverse()).is_some());
        assert_eq!(puzzle.stickers, start.stickers);
    }
}

#[test]
fn undoing_a_sequence_restores_the_puzzle() {
    let start = labeled_puzzle();
    let mut puzzle = start.clone();
    let turns = sample_turns();
    assert!(puzzle.apply_turns_batch(&turns).is_some());
    assert_ne!(puzzle.stickers, start.stickers);
    let undo: Vec<Turn> = turns.iter().rev().map(|t| t.inverse()).collect();
    assert!(puzzle.apply_turns_batch(&undo).is_some());
    assert_eq!(puzzle.stickers, start.stickers);
}

#[test]
fn whole_puzzle_rotation_keeps_it_solved() {
    let mut puzzle = Puzzle::make_solved(3, 4);
    assert!(puzzle
        .turn(Turn::Puzzle(PuzzleTurn { from: 0, to: 3 }))
        .is_some());
    assert!(puzzle.is_solved());
}

#[test]
fn four_quarter_turns_are_the_identity() {
    let start = labeled_puzzle();
    let mut puzzle = start.clone();
    let turn = Turn::Side(SideTurn {
        side: 1,
        layer_min: 0,
        layer_max: 2,
        from: 0,
        to: 2,
    });
    for _ in 0..3 {
        assert!(puzzle.turn(turn.clone()).is_some());
        assert_ne!(puzzle.stickers, start.stickers);
    }
    assert!(puzzle.turn(turn).is_some());
    assert_eq!(puzzle.stickers, start.stickers);
}

#[test]
fn invalid_turns_change_nothing() {
    let start = labeled_puzzle();
    let bad = vec![
        // the turning plane holds the side's own axis
        Turn::Side(SideTurn {
            side: 0,
            layer_min: 0,
            layer_max: 0,
            from: 0,
            to: 1,
        }),
        // an axis the puzzle does not have
        Turn::Side(SideTurn {
            side: 4,
            layer_min: 0,
            layer_max: 0,
            from: 0,
            to: 1,
        }),
        // a plane of one axis
        Turn::Puzzle(PuzzleTurn { from: 1, to: !1 }),
        Turn::Puzzle(PuzzleTurn { from: 0, to: 7 }),
    ];
    for turn in bad {
        let mut puzzle = start.clone();
        assert!(puzzle.turn(turn.clone()).is_none());
        assert_eq!(puzzle.stickers, start.stickers);
        let mut pos = vec![2, 2, 0, 0];
        assert!(start.turn_position(&mut pos, &turn).is_none());
        assert_eq!(pos, vec![2, 2, 0, 0]);
    }
    let mut batch = start.clone();
    let mut turns = sample_turns();
    turns.push(Turn::Puzzle(PuzzleTurn { from: 2, to: 2 }));
    assert!(batch.apply_turns_batch(&turns).is_none());
    assert_eq!(batch.stickers, start.stickers);
}

#[test]
fn turn_position_follows_the_sticker() {
    let start = labeled_puzzle();
    for turn in sample_turns() {
        let mut puzzle = start.clone();
        assert!(puzzle.turn(turn.clone()).is_some());
        for pos in start.stickers.keys() {
            let label = start.stickers.get(&pos).unwrap();
            let mut moved = pos.clone();
            assert!(puzzle.turn_position(&mut moved, &turn).is_some());
            assert_eq!(puzzle.stickers.get(&moved), Some(label));
        }
    }
}

#[test]
fn quarter_turn_moves_one_position() {
    let puzzle = Puzzle::make_solved(3, 3);
    // turning the +x side from axis 1 towards axis 2 carries y onto z
    let mut pos = vec![3, 2, 0];
    let turn = Turn::Side(SideTurn {
        side: 0,
        layer_min: 2,
        layer_max: 2,
        from: 1,
        to: 2,
    });
    assert!(puzzle.turn_position(&mut pos, &turn).is_some());
    assert_eq!(pos, vec![3, 0, 2]);
    // a position outside the turning layers stays
    let mut other = vec![-3, 2, 0];
    assert!(puzzle.turn_position(&mut other, &turn).is_some());
    assert_eq!(other, vec![-3, 2, 0]);
}

#[test]
fn inverse_swaps_from_and_to() {
    let t = SideTurn {
        side: 2,
        layer_min: -1,
        layer_max: 1,
        from: 0,
        to: !3,
    };
    let inv = t.inverse();
    assert_eq!(inv.from, !3);
    assert_eq!(inv.to, 0);
    assert_eq!(inv.side, 2);
    assert_eq!(inv.layer_min, -1);
    assert_eq!(inv.layer_max, 1);
    assert_eq!(inv.inverse(), t);
    let p = PuzzleTurn { from: 1, to: 2 };
    assert_eq!(p.inverse(), PuzzleTurn { from: 2, to: 1 });
    let turn = Turn::Puzzle(p.clone());
    assert_eq!(turn.inverse().inverse(), turn);
}

#[test]
fn ax_names_the_axis_of_a_side() {
    assert_eq!(ax(0), 0);
    assert_eq!(ax(3), 3);
    assert_eq!(ax(!0), 0);
    assert_eq!(ax(!3), 3);
}

#[test]
fn piece_body_and_its_stickers() {
    let puzzle = Puzzle::make_solved(3, 3);
    // the sticker on the +x face of the corner (2, 2, 2)
    let piece = vec![3, 2, 2];
    assert_eq!(puzzle.piece_body(&piece), vec![2, 2, 2]);
    assert_eq!(puzzle.stickers(&piece), vec![0, 1, 2]);
    assert_eq!(puzzle.piece_body_stickers(&[-2, 2, 0]), vec![!0, 1]);
}

#[test]
fn scramble_permutes_the_colours() {
    let mut puzzle = Puzzle::make_solved(3, 3);
    let mut rng = rand::thread_rng();
    puzzle.scramble(&mut rng);
    assert_eq!(puzzle.stickers.len(), 54);
    let mut counts = std::collections::HashMap::new();
    for pos in puzzle.stickers.keys() {
        *counts.entry(puzzle.stickers.get(&pos).unwrap()).or_insert(0) += 1;
    }
    assert_eq!(counts.len(), 6);
    assert!(counts.values().all(|&c| c == 9));
}

#[test]
fn scramble_move_is_a_single_layer_side_turn() {
    let mut a = labeled_puzzle();
    let mut b = a.clone();
    assert!(a.scramble_move(&vec![2, 0, 3, 1], 1).is_some());
    // layer n - 1 - 2 * pick = 0
    assert!(b
        .turn(Turn::Side(SideTurn {
            side: 2,
            layer_min: 0,
            layer_max: 0,
            from: 0,
            to: 3,
        }))
        .is_some());
    assert_eq!(a.stickers, b.stickers);
}

#[test]
fn normalized_turns() {
    let puzzle = Puzzle::make_solved(3, 3);
    // one negative end swaps the direction
    assert_eq!(
        puzzle.normalize_turn(&Turn::Side(SideTurn {
            side: !1,
            layer_min: 0,
            layer_max: 0,
            from: !0,
            to: 2,
        })),
        Some(NormalizedTurn::Side {
            side: 1,
            layer_min: 0,
            layer_max: 0,
            from: 2,
            to: 0,
        })
    );
    // two negative ends keep it
    assert_eq!(
        puzzle.normalize_turn(&Turn::Side(SideTurn {
            side: 1,
            layer_min: 0,
            layer_max: 0,
            from: !0,
            to: !2,
        })),
        Some(NormalizedTurn::Side {
            side: 1,
            layer_min: 0,
            layer_max: 0,
            from: 0,
            to: 2,
        })
    );
    assert_eq!(
        puzzle.normalize_turn(&Turn::Puzzle(PuzzleTurn { from: !2, to: 0 })),
        Some(NormalizedTurn::Puzzle { from: 2, to: 0 })
    );
    assert_eq!(puzzle.normalize_turn(&Turn::Puzzle(PuzzleTurn { from: 0, to: 3 })), None);
}

#[test]
fn source_positions() {
    let puzzle = Puzzle::make_solved(3, 3);
    assert_eq!(
        puzzle.source_position(NormalizedTurn::Puzzle { from: 0, to: 1 }, &[1, 2, 3]),
        Some(vec![2, -1, 3])
    );
    let side = NormalizedTurn::Side {
        side: 2,
        layer_min: 3,
        layer_max: 3,
        from: 0,
        to: 1,
    };
    assert_eq!(puzzle.source_position(side, &[1, 2, 0]), None);
    assert_eq!(puzzle.source_position(side, &[1, 2, 3]), Some(vec![2, -1, 3]));
    let mut pos = vec![2, -1, 3];
    Puzzle::apply_normalized_turn_to_position(&mut pos, side);
    assert_eq!(pos, vec![1, 2, 3]);
}

#[test]
fn is_solved_on_a_partial_sticker_set() {
    let mut stickers = StickerMap::new();
    stickers.insert(vec![3, 0, 0], 0);
    stickers.insert(vec![3, 2, 2], 0);
    stickers.insert(vec![0, -3, 1], !1);
    let mut puzzle = Puzzle { n: 3, d: 3, stickers };
    assert!(puzzle.is_solved());
    puzzle.stickers.insert(vec![3, 2, 2], 1);
    assert!(!puzzle.is_solved());
}

#[test]
fn stickers_compare_by_content() {
    let solved = Puzzle::make_solved(2, 3);
    let mut reordered = StickerMap::new();
    let mut keys = solved.stickers.keys();
    keys.reverse();
    for pos in keys {
        let color = solved.stickers.get(&pos).unwrap();
        reordered.insert(pos, color);
    }
    assert_eq!(reordered, solved.stickers);
    assert_eq!(reordered.len(), solved.stickers.len());
}

#[test]
fn turns_apply_to_a_closed_partial_sticker_set() {
    let ring: Vec<Vec<i16>> = vec![vec![3, 2, 0], vec![3, 0, 2], vec![3, -2, 0], vec![3, 0, -2]];
    let mut stickers = StickerMap::new();
    for (i, pos) in ring.iter().enumerate() {
        stickers.insert(pos.clone(), i as i16);
    }
    let start = Puzzle { n: 3, d: 3, stickers };
    let turn = Turn::Side(SideTurn {
        side: 0,
        layer_min: 2,
        layer_max: 2,
        from: 1,
        to: 2,
    });
    let mut one = start.clone();
    assert!(one.turn(turn.clone()).is_some());
    assert_eq!(one.stickers.get(&[3, 0, 2]), Some(0));
    assert_eq!(one.stickers.get(&[3, -2, 0]), Some(1));
    assert_eq!(one.stickers.get(&[3, 0, -2]), Some(2));
    assert_eq!(one.stickers.get(&[3, 2, 0]), Some(3));
    let mut batch = start.clone();
    assert!(batch.apply_turns_batch(&[turn.clone(), turn.inverse()]).is_some());
    assert_eq!(batch.stickers, start.stickers);
}

#[test]
fn scramble_of_an_empty_sticker_set() {
    let mut puzzle = Puzzle { n: 3, d: 3, stickers: StickerMap::new() };
    let mut rng = rand::thread_rng();
    puzzle.scramble(&mut rng);
    assert_eq!(puzzle.stickers.len(), 0);
}

#[test]
fn scramble_of_a_five_dimensional_puzzle() {
    let mut puzzle = Puzzle::make_solved(3, 5);
    assert_eq!(puzzle.stickers.len(), 810);
    let mut rng = rand::thread_rng();
    puzzle.scramble(&mut rng);
    assert_eq!(puzzle.stickers.len(), 810);
    let mut counts = std::collections::HashMap::new();
    for pos in puzzle.stickers.keys() {
        *counts.entry(puzzle.stickers.get(&pos).unwrap()).or_insert(0) += 1;
    }
    assert_eq!(counts.len(), 10);
    assert!(counts.values().all(|&c| c == 81));
}
