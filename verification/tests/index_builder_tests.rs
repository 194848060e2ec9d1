use obs_shogi::index_builder::{
    bucketize_entries, build_index_for_jkf, BuildError, BuildPolicy, FileIndexBuild,
};
use obs_shogi::initial_position::{initial_partial_position, partial_from_state, InitialPosError};
use obs_shogi::position_apply::{
    apply_node_action, is_promoted_kind, jkf_move_to_core_move, to_piece_kind, to_square,
    ApplyError, ApplyStatus,
};
use obs_shogi::position_key::{key_from_partial_position, PositionKey};
use obs_shogi::traverse::{
    node_action, Initial, Jkf, MoveData, MoveNode, NodeAction, Place, SquareData, StateData,
};
use obs_shogi::types::{ForkPointer, Occurrence};
use shogi_core::{Color, Move, PartialPosition, Piece, PieceKind, Square};

fn place(x: u8, y: u8) -> Place {
    Place { x, y }
}

fn step(white: bool, from: (u8, u8), to: (u8, u8), piece: u8) -> MoveData {
    MoveData {
        white,
        from: Some(place(from.0, from.1)),
        to: place(to.0, to.1),
        piece,
        promote: None,
    }
}

fn node(m: MoveData) -> MoveNode {
    MoveNode { mv: Some(m), special: false, forks: vec![] }
}

fn root() -> MoveNode {
    MoveNode { mv: None, special: false, forks: vec![] }
}

fn resign() -> MoveNode {
    MoveNode { mv: None, special: true, forks: vec![] }
}

fn rule_move(from: (u8, u8), to: (u8, u8)) -> Move {
    Move::Normal {
        from: Square::new(from.0, from.1).unwrap(),
        to: Square::new(to.0, to.1).unwrap(),
        promote: false,
    }
}

/// Six moves of a main line; the fifth has two alternate lines of two moves.
fn forked_record() -> Jkf {
    let mut fifth = node(step(false, (2, 6), (2, 5), 0));
    fifth.forks = vec![
        vec![node(step(false, (6, 9), (7, 8), 4)), node(step(true, (8, 4), (8, 5), 0))],
        vec![node(step(false, (1, 7), (1, 6), 0)), node(step(true, (9, 3), (9, 4), 0))],
    ];
    Jkf {
        initial: None,
        moves: vec![
            root(),
            node(step(false, (7, 7), (7, 6), 0)),
            node(step(true, (3, 3), (3, 4), 0)),
            node(step(false, (2, 7), (2, 6), 0)),
            node(step(true, (8, 3), (8, 4), 0)),
            fifth,
            node(step(true, (4, 1), (3, 2), 4)),
        ],
    }
}

fn cursor_of(b: &FileIndexBuild, node_id: u32) -> (u32, Vec<ForkPointer>) {
    let c = b.node_table.cursor_lite(node_id).unwrap();
    (c.tesuu, c.fork_pointers)
}

#[test]
fn walk_records_the_start_and_every_position_in_walk_order() {
    let b = build_index_for_jkf(7, 3, &forked_record(), BuildPolicy::Strict).unwrap();
    assert!(b.warns.is_empty());
    assert_eq!(b.entries.len(), 11);
    assert_eq!(b.node_table.nodes.len(), 11);
    for (i, (_, occ)) in b.entries.iter().enumerate() {
        assert_eq!(*occ, Occurrence { file_id: 7, gen: 3, node_id: i as u32 });
    }
    let f0 = vec![ForkPointer { te: 5, fork_index: 0 }];
    let f1 = vec![ForkPointer { te: 5, fork_index: 1 }];
    let expected: Vec<(u32, Vec<ForkPointer>)> = vec![
        (0, vec![]),
        (1, vec![]),
        (2, vec![]),
        (3, vec![]),
        (4, vec![]),
        (5, f0.clone()),
        (6, f0.clone()),
        (5, f1.clone()),
        (6, f1.clone()),
        (5, vec![]),
        (6, vec![]),
    ];
    for (i, want) in expected.iter().enumerate() {
        assert_eq!(&cursor_of(&b, i as u32), want);
    }
    assert_eq!(b.entries[0].0, key_from_partial_position(&PartialPosition::startpos()));
}

#[test]
fn a_move_with_two_alternatives_gives_three_positions_at_the_next_move() {
    let b = build_index_for_jkf(1, 1, &forked_record(), BuildPolicy::Loose).unwrap();
    let mut at_six: Vec<(PositionKey, Vec<ForkPointer>)> = Vec::new();
    for (key, occ) in &b.entries {
        let (tesuu, path) = cursor_of(&b, occ.node_id);
        if tesuu == 6 {
            at_six.push((*key, path));
        }
    }
    assert_eq!(at_six.len(), 3);
    assert_ne!(at_six[0].0, at_six[1].0);
    assert_ne!(at_six[0].0, at_six[2].0);
    assert_ne!(at_six[1].0, at_six[2].0);
    // each key is that of the position its fork path leads to
    let mut common = PartialPosition::startpos();
    for m in [((7, 7), (7, 6)), ((3, 3), (3, 4)), ((2, 7), (2, 6)), ((8, 3), (8, 4))] {
        common.make_move(rule_move(m.0, m.1)).unwrap();
    }
    let lines = [
        (vec![ForkPointer { te: 5, fork_index: 0 }], ((6, 9), (7, 8)), ((8, 4), (8, 5))),
        (vec![ForkPointer { te: 5, fork_index: 1 }], ((1, 7), (1, 6)), ((9, 3), (9, 4))),
        (vec![], ((2, 6), (2, 5)), ((4, 1), (3, 2))),
    ];
    for (i, (path, fifth, sixth)) in lines.iter().enumerate() {
        let mut p = common.clone();
        p.make_move(rule_move(fifth.0, fifth.1)).unwrap();
        p.make_move(rule_move(sixth.0, sixth.1)).unwrap();
        assert_eq!(at_six[i].1, *path);
        assert_eq!(at_six[i].0, key_from_partial_position(&p));
    }
}

#[test]
fn alternate_lines_start_from_the_position_before_the_move() {
    let b = build_index_for_jkf(1, 1, &forked_record(), BuildPolicy::Loose).unwrap();
    let mut p = PartialPosition::startpos();
    for m in [((7, 7), (7, 6)), ((3, 3), (3, 4)), ((2, 7), (2, 6)), ((8, 3), (8, 4))] {
        p.make_move(rule_move(m.0, m.1)).unwrap();
    }
    let mut fork0 = p.clone();
    fork0.make_move(rule_move((6, 9), (7, 8))).unwrap();
    assert_eq!(b.entries[5].0, key_from_partial_position(&fork0));
    let mut main = p.clone();
    main.make_move(rule_move((2, 6), (2, 5))).unwrap();
    assert_eq!(b.entries[9].0, key_from_partial_position(&main));
}

#[test]
fn record_with_only_a_root_gives_one_entry() {
    let jkf = Jkf { initial: None, moves: vec![root()] };
    let b = build_index_for_jkf(2, 1, &jkf, BuildPolicy::Strict).unwrap();
    assert_eq!(b.entries.len(), 1);
    assert_eq!(cursor_of(&b, 0), (0, vec![]));
    let empty = Jkf { initial: None, moves: vec![] };
    assert_eq!(build_index_for_jkf(2, 1, &empty, BuildPolicy::Strict).unwrap().entries.len(), 1);
}

#[test]
fn game_end_is_recorded_and_stops_the_line() {
    let jkf = Jkf {
        initial: None,
        moves: vec![
            root(),
            node(step(false, (7, 7), (7, 6), 0)),
            resign(),
            node(step(true, (3, 3), (3, 4), 0)),
        ],
    };
    let b = build_index_for_jkf(1, 1, &jkf, BuildPolicy::Strict).unwrap();
    assert_eq!(b.entries.len(), 3);
    assert_eq!(cursor_of(&b, 2).0, 2);
    // the position at the game end is that after the last move
    assert_eq!(b.entries[1].0, b.entries[2].0);
}

#[test]
fn comment_nodes_change_nothing_and_go_on() {
    let jkf = Jkf {
        initial: None,
        moves: vec![root(), root(), node(step(false, (7, 7), (7, 6), 0))],
    };
    let b = build_index_for_jkf(1, 1, &jkf, BuildPolicy::Strict).unwrap();
    assert_eq!(b.entries.len(), 3);
    assert_eq!(b.entries[0].0, b.entries[1].0);
    assert_ne!(b.entries[1].0, b.entries[2].0);
}

/// The main line is fine; the alternate line at move 2 moves a piece that is not there.
fn record_with_a_bad_fork() -> Jkf {
    let mut second = node(step(true, (3, 3), (3, 4), 0));
    second.forks = vec![vec![
        node(step(true, (5, 5), (5, 6), 0)),
        node(step(false, (2, 7), (2, 6), 0)),
    ]];
    Jkf {
        initial: None,
        moves: vec![root(), node(step(false, (7, 7), (7, 6), 0)), second],
    }
}

#[test]
fn loose_policy_warns_and_drops_only_the_branch() {
    let b = build_index_for_jkf(1, 1, &record_with_a_bad_fork(), BuildPolicy::Loose).unwrap();
    assert_eq!(b.entries.len(), 3);
    assert_eq!(b.warns.len(), 1);
    assert_eq!(b.warns[0].cursor.tesuu, 2);
    assert_eq!(b.warns[0].cursor.fork_pointers, vec![ForkPointer { te: 2, fork_index: 0 }]);
    assert_eq!(b.warns[0].error, ApplyError::ApplyFailed);
    assert_eq!(
        b.warns[0].message(),
        "CursorLite { tesuu: 2, fork_pointers: [ForkPointer { te: 2, fork_index: 0 }] }: cannot apply move"
    );
    assert_eq!(cursor_of(&b, 2), (2, vec![]));
}

#[test]
fn strict_policy_aborts_with_the_location() {
    let e = build_index_for_jkf(1, 1, &record_with_a_bad_fork(), BuildPolicy::Strict).unwrap_err();
    match e {
        BuildError::Apply { cursor, source } => {
            assert_eq!(cursor.tesuu, 2);
            assert_eq!(cursor.fork_pointers, vec![ForkPointer { te: 2, fork_index: 0 }]);
            assert_eq!(source, ApplyError::ApplyFailed);
        }
        other => panic!("unexpected error {other:?}"),
    }
}

#[test]
fn loose_policy_stops_the_main_line_at_a_bad_move() {
    let jkf = Jkf {
        initial: None,
        moves: vec![
            root(),
            node(step(false, (7, 7), (7, 6), 0)),
            node(step(false, (2, 7), (2, 6), 0)),
            node(step(true, (3, 3), (3, 4), 0)),
        ],
    };
    let b = build_index_for_jkf(1, 1, &jkf, BuildPolicy::Loose).unwrap();
    assert_eq!(b.entries.len(), 2);
    assert_eq!(b.warns.len(), 1);
    assert_eq!(
        b.warns[0].error,
        ApplyError::SideToMoveMismatch { pos_white: true, mv_white: false }
    );
}

#[test]
fn empty_alternate_lines_are_passed_over() {
    let mut first = node(step(false, (7, 7), (7, 6), 0));
    first.forks = vec![vec![], vec![node(step(false, (2, 7), (2, 6), 0))]];
    let jkf = Jkf { initial: None, moves: vec![root(), first] };
    let b = build_index_for_jkf(1, 1, &jkf, BuildPolicy::Strict).unwrap();
    assert_eq!(b.entries.len(), 3);
    assert_eq!(cursor_of(&b, 1), (1, vec![ForkPointer { te: 1, fork_index: 1 }]));
    assert_eq!(cursor_of(&b, 2), (1, vec![]));
}

#[test]
fn nested_alternate_lines_extend_the_fork_path() {
    let mut inner = node(step(true, (3, 3), (3, 4), 0));
    inner.forks = vec![vec![node(step(true, (8, 3), (8, 4), 0))]];
    let mut first = node(step(false, (7, 7), (7, 6), 0));
    first.forks = vec![vec![node(step(false, (2, 7), (2, 6), 0)), inner]];
    let jkf = Jkf { initial: None, moves: vec![root(), first] };
    let b = build_index_for_jkf(1, 1, &jkf, BuildPolicy::Strict).unwrap();
    let paths: Vec<(u32, Vec<ForkPointer>)> = (0..b.entries.len() as u32).map(|i| cursor_of(&b, i)).collect();
    let f1 = ForkPointer { te: 1, fork_index: 0 };
    let f2 = ForkPointer { te: 2, fork_index: 0 };
    assert_eq!(
        paths,
        vec![
            (0, vec![]),
            (1, vec![f1]),
            (2, vec![f1, f2]),
            (2, vec![f1]),
            (1, vec![]),
        ]
    );
}

#[test]
fn node_action_prefers_the_move() {
    let m = step(false, (7, 7), (7, 6), 0);
    assert_eq!(node_action(&node(m)), NodeAction::Move(m));
    assert_eq!(node_action(&resign()), NodeAction::Special);
    assert_eq!(node_action(&root()), NodeAction::Noop);
    let both = MoveNode { mv: Some(m), special: true, forks: vec![] };
    assert_eq!(node_action(&both), NodeAction::Move(m));
}

#[test]
fn apply_node_action_statuses_and_errors() {
    let mut pos = PartialPosition::startpos();
    assert_eq!(
        apply_node_action(&mut pos, NodeAction::Move(step(false, (7, 7), (7, 6), 0))),
        Ok(ApplyStatus::Applied)
    );
    assert_eq!(pos.side_to_move(), Color::White);
    assert_eq!(pos.piece_at(Square::new(7, 6).unwrap()), Some(Piece::B_P));
    assert_eq!(apply_node_action(&mut pos, NodeAction::Noop), Ok(ApplyStatus::Noop));
    assert_eq!(apply_node_action(&mut pos, NodeAction::Special), Ok(ApplyStatus::Terminal));
    let before = pos.clone();
    assert_eq!(
        apply_node_action(&mut pos, NodeAction::Move(step(false, (2, 7), (2, 6), 0))),
        Err(ApplyError::SideToMoveMismatch { pos_white: true, mv_white: false })
    );
    assert_eq!(
        apply_node_action(&mut pos, NodeAction::Move(step(true, (3, 3), (0, 4), 0))),
        Err(ApplyError::InvalidSquare { x: 0, y: 4 })
    );
    assert_eq!(
        apply_node_action(&mut pos, NodeAction::Move(step(true, (3, 10), (3, 4), 0))),
        Err(ApplyError::InvalidSquare { x: 3, y: 10 })
    );
    assert_eq!(
        apply_node_action(&mut pos, NodeAction::Move(step(true, (5, 5), (5, 6), 0))),
        Err(ApplyError::ApplyFailed)
    );
    let drop_promoted = MoveData { white: true, from: None, to: place(5, 5), piece: 8, promote: None };
    assert_eq!(
        apply_node_action(&mut pos, NodeAction::Move(drop_promoted)),
        Err(ApplyError::PromotedDropNotAllowed(8))
    );
    let drop_unknown = MoveData { white: true, from: None, to: place(5, 5), piece: 14, promote: None };
    assert_eq!(
        apply_node_action(&mut pos, NodeAction::Move(drop_unknown)),
        Err(ApplyError::UnsupportedKind(14))
    );
    assert_eq!(pos, before);
}

#[test]
fn drops_and_promotions_are_applied() {
    let mut pos = PartialPosition::empty();
    let hand = pos.hand_of_a_player(Color::Black).added(PieceKind::Silver).unwrap();
    *pos.hand_of_a_player_mut(Color::Black) = hand;
    pos.piece_set(Square::new(2, 4).unwrap(), Some(Piece::B_P));
    let drop = MoveData { white: false, from: None, to: place(5, 5), piece: 3, promote: None };
    assert_eq!(apply_node_action(&mut pos, NodeAction::Move(drop)), Ok(ApplyStatus::Applied));
    assert_eq!(
        pos.piece_at(Square::new(5, 5).unwrap()),
        Some(Piece::new(PieceKind::Silver, Color::Black))
    );
    assert_eq!(pos.hand_of_a_player(Color::Black).count(PieceKind::Silver), Some(0));
    pos.side_to_move_set(Color::Black);
    let promote = MoveData {
        white: false,
        from: Some(place(2, 4)),
        to: place(2, 3),
        piece: 0,
        promote: Some(true),
    };
    assert_eq!(apply_node_action(&mut pos, NodeAction::Move(promote)), Ok(ApplyStatus::Applied));
    assert_eq!(
        pos.piece_at(Square::new(2, 3).unwrap()),
        Some(Piece::new(PieceKind::ProPawn, Color::Black))
    );
}

#[test]
fn square_and_kind_conversions() {
    assert_eq!(to_square(place(1, 1)), Ok(1));
    assert_eq!(to_square(place(9, 9)), Ok(81));
    assert_eq!(to_square(place(3, 4)), Ok(22));
    assert_eq!(to_square(place(0, 1)), Err(ApplyError::InvalidSquare { x: 0, y: 1 }));
    assert_eq!(to_square(place(1, 10)), Err(ApplyError::InvalidSquare { x: 1, y: 10 }));
    assert_eq!(to_piece_kind(0), Ok(1));
    assert_eq!(to_piece_kind(13), Ok(14));
    assert_eq!(to_piece_kind(14), Err(ApplyError::UnsupportedKind(14)));
    assert!(!is_promoted_kind(7));
    assert!(is_promoted_kind(8));
    assert!(is_promoted_kind(13));
    assert!(!is_promoted_kind(14));
    let m = jkf_move_to_core_move(step(false, (7, 7), (7, 6), 0)).unwrap();
    assert_eq!((m.from, m.to, m.promote), (Some(61), 60, false));
}

fn explicit_state() -> StateData {
    let mut board = vec![SquareData { white: None, kind: None }; 81];
    board[(5 - 1) * 9 + (9 - 1)] = SquareData { white: Some(false), kind: Some(7) };
    board[(5 - 1) * 9 + (1 - 1)] = SquareData { white: Some(true), kind: Some(7) };
    board[(2 - 1) * 9 + (8 - 1)] = SquareData { white: Some(false), kind: Some(13) };
    board[0] = SquareData { white: Some(true), kind: None };
    let mut hands = vec![0u8; 14];
    hands[0] = 3;
    hands[7 + 6] = 2;
    StateData { white_to_move: true, board, hands }
}

#[test]
fn explicit_starting_position_is_built_cell_by_cell() {
    let pos = partial_from_state(&explicit_state()).unwrap();
    assert_eq!(pos.side_to_move(), Color::White);
    assert_eq!(pos.piece_at(Square::new(5, 9).unwrap()), Some(Piece::B_K));
    assert_eq!(pos.piece_at(Square::new(5, 1).unwrap()), Some(Piece::W_K));
    assert_eq!(
        pos.piece_at(Square::new(2, 8).unwrap()),
        Some(Piece::new(PieceKind::ProRook, Color::Black))
    );
    assert_eq!(pos.piece_at(Square::new(1, 1).unwrap()), None);
    assert_eq!(pos.hand_of_a_player(Color::Black).count(PieceKind::Pawn), Some(3));
    assert_eq!(pos.hand_of_a_player(Color::White).count(PieceKind::Rook), Some(2));
    assert_eq!(pos.hand_of_a_player(Color::White).count(PieceKind::Pawn), Some(0));
}

#[test]
fn starting_position_of_a_record() {
    let plain = Jkf { initial: None, moves: vec![] };
    assert_eq!(initial_partial_position(&plain).unwrap(), PartialPosition::startpos());
    let even = Jkf { initial: Some(Initial { preset: 0, data: None }), moves: vec![] };
    assert_eq!(initial_partial_position(&even).unwrap(), PartialPosition::startpos());
    let handicap = Jkf { initial: Some(Initial { preset: 3, data: None }), moves: vec![] };
    assert_eq!(
        initial_partial_position(&handicap).unwrap_err(),
        InitialPosError::UnsupportedPreset(3)
    );
    let given = Jkf {
        initial: Some(Initial { preset: 16, data: Some(explicit_state()) }),
        moves: vec![],
    };
    assert_eq!(initial_partial_position(&given).unwrap().side_to_move(), Color::White);
    let b = build_index_for_jkf(1, 1, &handicap, BuildPolicy::Loose).unwrap_err();
    assert!(matches!(b, BuildError::Initial(InitialPosError::UnsupportedPreset(3))));
}

#[test]
fn malformed_explicit_positions_are_rejected() {
    let mut short = explicit_state();
    short.board.pop();
    assert_eq!(partial_from_state(&short).unwrap_err(), InitialPosError::MalformedState);
    let mut hands = explicit_state();
    hands.hands.push(0);
    assert_eq!(partial_from_state(&hands).unwrap_err(), InitialPosError::MalformedState);
    let mut kind = explicit_state();
    kind.board[40] = SquareData { white: Some(false), kind: Some(14) };
    kind.board[50] = SquareData { white: Some(false), kind: Some(99) };
    assert_eq!(partial_from_state(&kind).unwrap_err(), InitialPosError::UnsupportedKind(14));
}

#[test]
fn bucketize_splits_by_top_byte_and_sorts_each_run() {
    let k = |b: u8, low: u64| PositionKey { z0: ((b as u64) << 56) | low, z1: 0 };
    let o = |n: u32| Occurrence { file_id: 1, gen: 1, node_id: n };
    let out = bucketize_entries(vec![
        (k(3, 9), o(0)),
        (k(250, 1), o(1)),
        (k(3, 2), o(2)),
        (k(3, 9), o(3)),
        (k(0, 0), o(4)),
    ]);
    assert_eq!(out.len(), 256);
    assert_eq!(out[3], vec![(k(3, 2), o(2)), (k(3, 9), o(0)), (k(3, 9), o(3))]);
    assert_eq!(out[250], vec![(k(250, 1), o(1))]);
    assert_eq!(out[0], vec![(k(0, 0), o(4))]);
    assert_eq!(out.iter().map(|b| b.len()).sum::<usize>(), 5);
    assert!(bucketize_entries(vec![]).iter().all(|b| b.is_empty()));
}

#[test]
fn traversal_lists_nodes_with_their_parents() {
    let items = obs_shogi::traverse::traverse_jkf(&forked_record());
    let got: Vec<(u32, Vec<ForkPointer>, Option<(u32, Vec<ForkPointer>)>)> = items
        .iter()
        .map(|t| {
            (
                t.cursor.tesuu,
                t.cursor.fork_pointers.clone(),
                t.parent_cursor.as_ref().map(|c| (c.tesuu, c.fork_pointers.clone())),
            )
        })
        .collect();
    let f0 = vec![ForkPointer { te: 5, fork_index: 0 }];
    let f1 = vec![ForkPointer { te: 5, fork_index: 1 }];
    assert_eq!(
        got,
        vec![
            (0, vec![], None),
            (1, vec![], Some((0, vec![]))),
            (2, vec![], Some((1, vec![]))),
            (3, vec![], Some((2, vec![]))),
            (4, vec![], Some((3, vec![]))),
            (5, vec![], Some((4, vec![]))),
            (5, f0.clone(), Some((4, vec![]))),
            (6, f0.clone(), Some((5, f0.clone()))),
            (5, f1.clone(), Some((4, vec![]))),
            (6, f1.clone(), Some((5, f1.clone()))),
            (6, vec![], Some((5, vec![]))),
        ]
    );
    assert_eq!(items[0].action, NodeAction::Noop);
    assert!(matches!(items[1].action, NodeAction::Move(_)));
    assert!(obs_shogi::traverse::traverse_jkf(&Jkf { initial: None, moves: vec![] }).is_empty());
}

#[test]
fn errors_in_words() {
    assert_eq!(ApplyError::InvalidSquare { x: 10, y: 0 }.message(), "invalid square: x=10, y=0");
    assert_eq!(ApplyError::UnsupportedKind(255).message(), "unsupported piece kind in JKF: 255");
    assert_eq!(
        ApplyError::PromotedDropNotAllowed(9).message(),
        "drop with promoted kind is not allowed: 9"
    );
    assert_eq!(
        ApplyError::SideToMoveMismatch { pos_white: false, mv_white: true }.message(),
        "side-to-move mismatch: pos=Black, mv=White"
    );
    assert_eq!(ApplyError::ApplyFailed.message(), "cannot apply move");
    assert_eq!(
        obs_shogi::initial_position::InitialPosError::UnsupportedPreset(3).message(),
        "unsupported preset without explicit data: 3"
    );
    assert_eq!(
        obs_shogi::initial_position::InitialPosError::MalformedState.message(),
        "malformed explicit position"
    );
    let at = obs_shogi::types::CursorLite {
        tesuu: 4_000_000_000,
        fork_pointers: vec![
            ForkPointer { te: 1, fork_index: 0 },
            ForkPointer { te: 120, fork_index: 17 },
        ],
    };
    let e = obs_shogi::index_builder::BuildError::Apply {
        cursor: at,
        source: ApplyError::ApplyFailed,
    };
    assert_eq!(
        e.message(),
        "failed to apply move at CursorLite { tesuu: 4000000000, fork_pointers: [ForkPointer { te: 1, fork_index: 0 }, ForkPointer { te: 120, fork_index: 17 }] }: cannot apply move"
    );
    let e = obs_shogi::index_builder::BuildError::Initial(
        obs_shogi::initial_position::InitialPosError::UnsupportedKind(0),
    );
    assert_eq!(e.message(), "failed to create initial position: unsupported piece kind in JKF: 0");
    assert_eq!(
        obs_shogi::index_builder::BuildError::TooLarge.message(),
        "too many positions for a node table"
    );
    let root = obs_shogi::types::CursorLite::root();
    let mut s = String::from("at ");
    root.append_text(&mut s);
    assert_eq!(s, "at CursorLite { tesuu: 0, fork_pointers: [] }");
}
