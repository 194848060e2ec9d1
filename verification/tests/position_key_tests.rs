use obs_shogi::position_key::{
    key_from_partial_position, next128, splitmix64, zobrist_constant, PositionKey, ZobristTable,
};
use obs_shogi::sfen_position::{partial_position_from_sfen, position_key_from_sfen};
use shogi_core::{Move, PartialPosition, Piece, PieceKind, Color, Square};

fn mv(from: (u8, u8), to: (u8, u8)) -> Move {
    Move::Normal {
        from: Square::new(from.0, from.1).unwrap(),
        to: Square::new(to.0, to.1).unwrap(),
        promote: false,
    }
}

#[test]
fn bucket_is_top_byte_of_first_half() {
    let k = PositionKey { z0: 0xAB00_0000_0000_0001, z1: 7 };
    assert_eq!(k.bucket(), 0xAB);
    assert_eq!(PositionKey { z0: 0x00FF_FFFF_FFFF_FFFF, z1: 0 }.bucket(), 0);
    assert_eq!(PositionKey { z0: u64::MAX, z1: 0 }.bucket(), 255);
}

#[test]
fn xor_assign_combines_both_halves() {
    let mut k = PositionKey { z0: 0b1100, z1: 0b1010 };
    k.xor_assign(PositionKey { z0: 0b1010, z1: 0b0110 });
    assert_eq!(k, PositionKey { z0: 0b0110, z1: 0b1100 });
    k.xor_assign(PositionKey::zero());
    assert_eq!(k, PositionKey { z0: 0b0110, z1: 0b1100 });
}

#[test]
fn key_order_is_by_first_half_then_second() {
    let a = PositionKey { z0: 1, z1: 9 };
    let b = PositionKey { z0: 2, z1: 0 };
    let c = PositionKey { z0: 2, z1: 1 };
    assert!(a.key_lt(b));
    assert!(b.key_lt(c));
    assert!(!c.key_lt(b));
    assert!(b.key_le(b));
    assert!(!b.key_lt(b));
}

#[test]
fn splitmix64_first_output_from_zero() {
    let mut x: u64 = 0;
    let r = splitmix64(&mut x);
    assert_eq!(x, 0x9E37_79B9_7F4A_7C15);
    assert_eq!(r, 0xe220a8397b1dcdaf);
}

#[test]
fn next128_draws_two_numbers() {
    let mut seed: u64 = 0x9E37_79B9_7F4A_7C15;
    let k = next128(&mut seed);
    assert_eq!(k, PositionKey { z0: 0x6e789e6aa1b965f4, z1: 0x06c45d188009454f });
    assert_eq!(seed, 0x9E37_79B9_7F4A_7C15u64.wrapping_mul(3));
}

#[test]
fn zobrist_constants_match_the_generator() {
    assert_eq!(
        zobrist_constant(0),
        PositionKey { z0: 0x6e789e6aa1b965f4, z1: 0x06c45d188009454f }
    );
    assert_eq!(
        zobrist_constant(1),
        PositionKey { z0: 0xf88bb8a8724c81ec, z1: 0x1b39896a51a8749b }
    );
    assert_eq!(
        zobrist_constant(1268),
        PositionKey { z0: 0x2cce161b976e1945, z1: 0xa014e180baa650ac }
    );
    assert_eq!(
        zobrist_constant(2535),
        PositionKey { z0: 0xd81f923c97a890f1, z1: 0xc81b5491c9ee1641 }
    );
}

#[test]
fn startpos_key_has_its_exact_value() {
    let key = key_from_partial_position(&PartialPosition::startpos());
    assert_eq!(key, PositionKey { z0: 0x32cc4ccb2c51c541, z1: 0x2049872a80d5a95c });
    assert_eq!(key.bucket(), 50);
}

#[test]
fn table_lookup_gives_the_same_key() {
    let table = ZobristTable::new();
    let mut pos = PartialPosition::startpos();
    assert_eq!(table.key_of(&pos), key_from_partial_position(&pos));
    pos.make_move(mv((7, 7), (7, 6))).unwrap();
    assert_eq!(table.key_of(&pos), key_from_partial_position(&pos));
}

#[test]
fn same_position_encoded_twice_gives_same_key() {
    let pos = PartialPosition::startpos();
    assert_eq!(key_from_partial_position(&pos), key_from_partial_position(&pos));
}

#[test]
fn different_move_orders_give_the_same_key() {
    let mut a = PartialPosition::startpos();
    a.make_move(mv((7, 7), (7, 6))).unwrap();
    a.make_move(mv((3, 3), (3, 4))).unwrap();
    a.make_move(mv((2, 7), (2, 6))).unwrap();
    a.make_move(mv((8, 3), (8, 4))).unwrap();
    let mut b = PartialPosition::startpos();
    b.make_move(mv((2, 7), (2, 6))).unwrap();
    b.make_move(mv((8, 3), (8, 4))).unwrap();
    b.make_move(mv((7, 7), (7, 6))).unwrap();
    b.make_move(mv((3, 3), (3, 4))).unwrap();
    assert_eq!(key_from_partial_position(&a), key_from_partial_position(&b));
}

#[test]
fn distinct_positions_give_distinct_keys() {
    let start = PartialPosition::startpos();
    let mut keys = vec![key_from_partial_position(&start)];
    // every first move of a pawn gives another position
    for file in 1..=9u8 {
        let mut p = PartialPosition::startpos();
        p.make_move(mv((file, 7), (file, 6))).unwrap();
        keys.push(key_from_partial_position(&p));
    }
    // the side to move alone tells positions apart
    let mut flipped = PartialPosition::startpos();
    flipped.side_to_move_set(Color::White);
    keys.push(key_from_partial_position(&flipped));
    // and so does one piece in hand
    let mut held = PartialPosition::startpos();
    let hand = held.hand_of_a_player(Color::Black).added(PieceKind::Pawn).unwrap();
    *held.hand_of_a_player_mut(Color::Black) = hand;
    keys.push(key_from_partial_position(&held));
    for i in 0..keys.len() {
        for j in (i + 1)..keys.len() {
            assert_ne!(keys[i], keys[j]);
        }
    }
}

#[test]
fn hand_counts_above_the_cap_share_one_key() {
    let mut pos = PartialPosition::empty();
    let mut hand = pos.hand_of_a_player(Color::Black);
    for _ in 0..18 {
        hand = hand.added(PieceKind::Pawn).unwrap();
    }
    *pos.hand_of_a_player_mut(Color::Black) = hand;
    let k18 = key_from_partial_position(&pos);
    hand = hand.added(PieceKind::Pawn).unwrap();
    *pos.hand_of_a_player_mut(Color::Black) = hand;
    let k19 = key_from_partial_position(&pos);
    assert_eq!(k18, k19);
    let mut fewer = PartialPosition::empty();
    let mut h17 = fewer.hand_of_a_player(Color::Black);
    for _ in 0..17 {
        h17 = h17.added(PieceKind::Pawn).unwrap();
    }
    *fewer.hand_of_a_player_mut(Color::Black) = h17;
    assert_ne!(key_from_partial_position(&fewer), k18);
}

#[test]
fn key_ignores_move_count_and_last_move() {
    let mut a = PartialPosition::startpos();
    assert!(a.ply_set(77));
    assert_eq!(
        key_from_partial_position(&a),
        key_from_partial_position(&PartialPosition::startpos())
    );
}

#[test]
fn sfen_of_the_start_position_gives_the_startpos_key() {
    let sfen = "lnsgkgsnl/1r5b1/ppppppppp/9/9/9/PPPPPPPPP/1B5R1/LNSGKGSNL b - 1";
    let key = position_key_from_sfen(sfen).unwrap();
    assert_eq!(key, key_from_partial_position(&PartialPosition::startpos()));
    assert_eq!(position_key_from_sfen("startpos").unwrap(), key);
    assert_eq!(position_key_from_sfen("position startpos").unwrap(), key);
    assert_eq!(position_key_from_sfen(&format!("position sfen {sfen}")).unwrap(), key);
    assert_eq!(position_key_from_sfen(&format!("  sfen   {sfen}  moves 7g7f")).unwrap(), key);
}

#[test]
fn sfen_places_pieces_sides_and_hands() {
    let pos = partial_position_from_sfen("4k4/9/9/9/9/9/9/9/4K2+R1 w 2Pb3p 12").unwrap();
    assert_eq!(pos.side_to_move(), Color::White);
    assert_eq!(pos.piece_at(Square::new(5, 1).unwrap()), Some(Piece::W_K));
    assert_eq!(pos.piece_at(Square::new(5, 9).unwrap()), Some(Piece::B_K));
    assert_eq!(
        pos.piece_at(Square::new(2, 9).unwrap()),
        Some(Piece::new(PieceKind::ProRook, Color::Black))
    );
    assert_eq!(pos.piece_at(Square::new(1, 9).unwrap()), None);
    assert_eq!(pos.hand_of_a_player(Color::Black).count(PieceKind::Pawn), Some(2));
    assert_eq!(pos.hand_of_a_player(Color::White).count(PieceKind::Bishop), Some(1));
    assert_eq!(pos.hand_of_a_player(Color::White).count(PieceKind::Pawn), Some(3));
    assert_eq!(pos.ply(), 12);
}

#[test]
fn the_constants_of_the_table_are_pairwise_distinct_and_not_zero() {
    let mut all: Vec<PositionKey> = (0..2 * obs_shogi::position_key::PER_COLOR)
        .map(obs_shogi::position_key::zobrist_constant)
        .collect();
    assert_eq!(all.len(), 2536);
    assert!(all.iter().all(|k| k.z0 != 0 && k.z1 != 0));
    all.sort_by_key(|k| (k.z0, k.z1));
    all.dedup();
    assert_eq!(all.len(), 2536);
}
