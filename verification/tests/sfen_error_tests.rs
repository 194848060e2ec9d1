use obs_shogi::sfen_position::{
    hand_piecekind_from_letter, partial_position_from_sfen, piecekind_from_sfen_letter,
    position_key_from_sfen, SfenParseError,
};

fn err(s: &str) -> SfenParseError {
    partial_position_from_sfen(s).unwrap_err()
}

#[test]
fn empty_input_is_rejected() {
    assert_eq!(err(""), SfenParseError::Empty);
    assert_eq!(err("  \t\n "), SfenParseError::Empty);
}

#[test]
fn too_few_parts_are_unsupported() {
    assert_eq!(err("position"), SfenParseError::Unsupported);
    assert_eq!(err("sfen 9/9/9/9/9/9/9/9/9 b -"), SfenParseError::Unsupported);
    assert_eq!(err("9/9/9/9/9/9/9/9/9"), SfenParseError::Unsupported);
}

#[test]
fn side_must_be_b_or_w() {
    assert_eq!(err("9/9/9/9/9/9/9/9/9 x - 1"), SfenParseError::InvalidSide);
    assert_eq!(err("9/9/9/9/9/9/9/9/9 bw - 1"), SfenParseError::InvalidSide);
}

#[test]
fn board_must_have_nine_ranks() {
    assert_eq!(err("9/9/9/9/9/9/9/9 b - 1"), SfenParseError::BoardRanks);
    assert_eq!(err("9/9/9/9/9/9/9/9/9/9 b - 1"), SfenParseError::BoardRanks);
}

#[test]
fn rank_must_fill_nine_files() {
    assert_eq!(err("8/9/9/9/9/9/9/9/9 b - 1"), SfenParseError::RankSum { rank: 1 });
    assert_eq!(err("9/9/4k3/9/9/9/9/9/9 b - 1"), SfenParseError::RankSum { rank: 3 });
    assert_eq!(err("9/9/9/9/9/9/9/9/99 b - 1"), SfenParseError::RankSum { rank: 9 });
}

#[test]
fn piece_beyond_the_ninth_file_is_rejected() {
    assert_eq!(err("9k/9/9/9/9/9/9/9/9 b - 1"), SfenParseError::FileUnderflow { rank: 1 });
    assert_eq!(
        err("9/pppppppppp/9/9/9/9/9/9/9 b - 1"),
        SfenParseError::FileUnderflow { rank: 2 }
    );
}

#[test]
fn dangling_plus_is_rejected() {
    assert_eq!(err("8+/9/9/9/9/9/9/9/9 b - 1"), SfenParseError::DanglingPlus);
    assert_eq!(err("9/9/9/9/9/9/9/9/8+ b - 1"), SfenParseError::DanglingPlus);
}

#[test]
fn unknown_board_letters_are_rejected() {
    assert_eq!(
        err("8x/9/9/9/9/9/9/9/9 b - 1"),
        SfenParseError::InvalidPiece { byte: b'x', promoted: false }
    );
    assert_eq!(
        err("8+G/9/9/9/9/9/9/9/9 b - 1"),
        SfenParseError::InvalidPiece { byte: b'G', promoted: true }
    );
    assert_eq!(
        err("8+k/9/9/9/9/9/9/9/9 b - 1"),
        SfenParseError::InvalidPiece { byte: b'k', promoted: true }
    );
}

#[test]
fn hands_errors() {
    assert_eq!(err("9/9/9/9/9/9/9/9/9 b K 1"), SfenParseError::InvalidHandPiece(b'K'));
    assert_eq!(err("9/9/9/9/9/9/9/9/9 b +P 1"), SfenParseError::HandPlus);
    assert_eq!(err("9/9/9/9/9/9/9/9/9 b L2 1"), SfenParseError::DanglingNumber);
    assert_eq!(err("9/9/9/9/9/9/9/9/9 b ? 1"), SfenParseError::InvalidHandPiece(b'?'));
}

#[test]
fn ply_must_be_a_positive_16_bit_number() {
    assert_eq!(err("9/9/9/9/9/9/9/9/9 b - 0"), SfenParseError::InvalidPly);
    assert_eq!(err("9/9/9/9/9/9/9/9/9 b - x"), SfenParseError::InvalidPly);
    assert_eq!(err("9/9/9/9/9/9/9/9/9 b - 65536"), SfenParseError::InvalidPly);
    assert_eq!(err("9/9/9/9/9/9/9/9/9 b - +"), SfenParseError::InvalidPly);
    assert!(partial_position_from_sfen("9/9/9/9/9/9/9/9/9 b - 65535").is_ok());
    assert!(partial_position_from_sfen("9/9/9/9/9/9/9/9/9 b - +7").is_ok());
    assert!(partial_position_from_sfen("9/9/9/9/9/9/9/9/9 b - 007").is_ok());
}

#[test]
fn key_from_sfen_reports_the_parse_error() {
    assert_eq!(position_key_from_sfen("nonsense"), Err(SfenParseError::Unsupported));
    assert_eq!(position_key_from_sfen(""), Err(SfenParseError::Empty));
}

#[test]
fn board_letters_map_to_kinds_and_colours() {
    assert_eq!(piecekind_from_sfen_letter(b'P', false), Ok((1, false)));
    assert_eq!(piecekind_from_sfen_letter(b'l', false), Ok((2, true)));
    assert_eq!(piecekind_from_sfen_letter(b'K', false), Ok((8, false)));
    assert_eq!(piecekind_from_sfen_letter(b'p', true), Ok((9, true)));
    assert_eq!(piecekind_from_sfen_letter(b'S', true), Ok((12, false)));
    assert_eq!(piecekind_from_sfen_letter(b'B', true), Ok((13, false)));
    assert_eq!(piecekind_from_sfen_letter(b'r', true), Ok((14, true)));
    assert_eq!(hand_piecekind_from_letter(b'R'), Ok((7, false)));
    assert_eq!(hand_piecekind_from_letter(b'g'), Ok((5, true)));
    assert_eq!(hand_piecekind_from_letter(b'k'), Err(SfenParseError::InvalidHandPiece(b'k')));
}

#[test]
fn counts_in_hand_accumulate() {
    let p = partial_position_from_sfen("9/9/9/9/9/9/9/9/9 b 10P2P 1").unwrap();
    assert_eq!(
        p.hand_of_a_player(shogi_core::Color::Black).count(shogi_core::PieceKind::Pawn),
        Some(12)
    );
}

#[test]
fn any_unicode_white_space_separates_the_parts() {
    let plain = "lnsgkgsnl/1r5b1/ppppppppp/9/9/9/PPPPPPPPP/1B5R1/LNSGKGSNL b - 1";
    let want = position_key_from_sfen(plain).unwrap();
    for space in [
        "\u{3000}", "\u{a0}", "\u{85}", "\u{1680}", "\u{2000}", "\u{200a}", "\u{2028}",
        "\u{2029}", "\u{202f}", "\u{205f}", "\t", "\u{b}", "\u{c}", "\r\n",
    ] {
        let text = format!("{space}sfen{space}{}{space}", plain.replace(' ', space));
        assert_eq!(position_key_from_sfen(&text), Ok(want), "{:?}", space);
    }
    // characters next to the spaces in the code charts are no white space
    for other in ["\u{3001}", "\u{200b}", "\u{a1}", "\u{2060}"] {
        let text = plain.replace(' ', other);
        assert_eq!(position_key_from_sfen(&text), Err(SfenParseError::Unsupported), "{:?}", other);
    }
    assert_eq!(position_key_from_sfen("\u{3000}\u{a0} \u{2003}"), Err(SfenParseError::Empty));
}
