use obs_shogi::fs_scan::{FileRecord, KifuKind};
use obs_shogi::index_builder::{build_index_for_jkf, BuildPolicy};
use obs_shogi::kifu_reader::{
    read_many_to_jkf, read_path_to_jkf, read_to_jkf, strip_utf8_bom,
    try_parse_text_with_fallback, Attempt, KifuReadError, ReadStep, TextRead, MAX_TEXT_BYTES,
};
use obs_shogi::traverse::{Initial, Jkf, MoveData, MoveNode, Place, SquareData, StateData};
use shogi_kifu_converter::jkf::{Color, JsonKifuFormat, MoveFormat, StateFormat};
use shogi_kifu_converter::parser::{parse_csa_str, parse_jkf_str, parse_ki2_str, parse_kif_str};

const KIF: &str = "手数----指手---------消費時間--
   1 ７六歩(77)   ( 0:00/00:00:00)
   2 ３四歩(33)   ( 0:00/00:00:00)
   3 ２六歩(27)   ( 0:00/00:00:00)
   4 ８四歩(83)   ( 0:00/00:00:00)
   5 ２五歩(26)   ( 0:00/00:00:00)
   6 ８五歩(84)   ( 0:00/00:00:00)

変化：5手
   5 ７八金(69)   ( 0:00/00:00:00)
   6 ８五歩(84)   ( 0:00/00:00:00)

変化：5手
   5 １六歩(17)   ( 0:00/00:00:00)
   6 ８五歩(84)   ( 0:00/00:00:00)
";

const KI2: &str = "▲７六歩 △３四歩 ▲２六歩 △８四歩\n";

const CSA: &str = "V2.2\nPI\n+\n+7776FU\n-3334FU\n+2726FU\n%TORYO\n";

const JKF: &str = r#"{"header":{},"moves":[{},{"move":{"color":0,"from":{"x":7,"y":7},"to":{"x":7,"y":6},"piece":"FU"}},{"move":{"color":1,"from":{"x":3,"y":3},"to":{"x":3,"y":4},"piece":"FU"}},{"special":"TORYO"}]}"#;

fn node_from_outside(m: &MoveFormat) -> MoveNode {
    let mv = m.move_.map(|v| MoveData {
        white: v.color == Color::White,
        from: v.from.map(|p| Place { x: p.x, y: p.y }),
        to: Place { x: v.to.x, y: v.to.y },
        piece: v.piece as u8,
        promote: v.promote,
    });
    let forks = m.forks.iter().flatten().map(|l| l.iter().map(node_from_outside).collect());
    MoveNode { mv, special: m.special.is_some(), forks: forks.collect() }
}

fn state_from_outside(s: &StateFormat) -> StateData {
    let board = s.board.iter().flatten().map(|p| SquareData {
        white: p.color.map(|c| c == Color::White),
        kind: p.kind.map(|k| k as u8),
    });
    let hands = s.hands.iter().flat_map(|h| [h.FU, h.KY, h.KE, h.GI, h.KI, h.KA, h.HI]);
    StateData { white_to_move: s.color == Color::White, board: board.collect(), hands: hands.collect() }
}

fn record_from_outside(j: &JsonKifuFormat) -> Jkf {
    let initial = j.initial.map(|i| Initial {
        preset: i.preset as u8,
        data: i.data.map(|s| state_from_outside(&s)),
    });
    Jkf { initial, moves: j.moves.iter().map(node_from_outside).collect() }
}

fn parse_text(kind: KifuKind, text: &str) -> Result<Jkf, String> {
    let parsed = match kind {
        KifuKind::Kif => parse_kif_str(text),
        KifuKind::Ki2 => parse_ki2_str(text),
        KifuKind::Csa => parse_csa_str(text),
        KifuKind::Jkf => parse_jkf_str(text),
    };
    match parsed {
        Ok(j) => Ok(record_from_outside(&j)),
        Err(e) => Err(format!("{e:?}")),
    }
}

fn drive(first: ReadStep, path: &str, bytes: &[u8]) -> Result<Jkf, KifuReadError> {
    let mut step = first;
    loop {
        match step {
            ReadStep::Done(r) => return r,
            ReadStep::Parse(st, text) => {
                let outcome = parse_text(st.kind, &text);
                step = try_parse_text_with_fallback(st, path, bytes, outcome);
            }
        }
    }
}

fn read(path: &str, kind: KifuKind, bytes: &[u8]) -> Result<Jkf, KifuReadError> {
    drive(read_path_to_jkf(path, kind, bytes), path, bytes)
}

fn main_line_moves(j: &Jkf) -> usize {
    j.moves.iter().filter(|m| m.mv.is_some()).count()
}

#[test]
fn strip_bom_removes_only_a_leading_bom() {
    assert_eq!(strip_utf8_bom(&[0xEF, 0xBB, 0xBF, b'a']), &[b'a']);
    assert_eq!(strip_utf8_bom(&[0xEF, 0xBB, 0xBF]), &[] as &[u8]);
    assert_eq!(strip_utf8_bom(&[0xEF, 0xBB, b'a']), &[0xEF, 0xBB, b'a']);
    assert_eq!(strip_utf8_bom(&[b'a', 0xEF, 0xBB, 0xBF]), &[b'a', 0xEF, 0xBB, 0xBF]);
    assert_eq!(strip_utf8_bom(&[]), &[] as &[u8]);
}

#[test]
fn kif_in_utf8_is_read_with_its_alternate_lines() {
    let j = read("/lib/game.kif", KifuKind::Kif, KIF.as_bytes()).unwrap();
    assert_eq!(j.moves.len(), 7);
    assert_eq!(main_line_moves(&j), 6);
    let m = j.moves[1].mv.unwrap();
    assert!(!m.white);
    assert_eq!((m.to.x, m.to.y), (7, 6));
    assert_eq!(m.from.map(|p| (p.x, p.y)), Some((7, 7)));
    assert_eq!(m.piece, 0);
    assert!(j.moves[2].mv.unwrap().white);
    // the first alternative hangs on the fifth move, the second on the first alternative
    assert_eq!(j.moves[5].forks.len(), 1);
    assert_eq!(j.moves[5].forks[0].len(), 2);
    assert_eq!(j.moves[5].forks[0][0].forks.len(), 1);
    assert_eq!(j.moves[5].forks[0][0].forks[0].len(), 2);
    assert!(j.initial.is_none() || j.initial.as_ref().unwrap().preset == 0);
}

#[test]
fn kif_with_a_bom_is_read() {
    let mut bytes = vec![0xEF, 0xBB, 0xBF];
    bytes.extend_from_slice(KIF.as_bytes());
    let j = read("/lib/game.kif", KifuKind::Kif, &bytes).unwrap();
    assert_eq!(main_line_moves(&j), 6);
}

#[test]
fn kif_in_shift_jis_is_read() {
    let (bytes, _, had_errors) = encoding_rs::SHIFT_JIS.encode(KIF);
    assert!(!had_errors);
    assert!(std::str::from_utf8(&bytes).is_err());
    let j = read("/lib/game.kif", KifuKind::Kif, &bytes).unwrap();
    assert_eq!(main_line_moves(&j), 6);
    assert_eq!(j.moves[5].forks.len(), 1);
}

#[test]
fn kif_in_utf16_with_a_byte_order_mark_is_read() {
    let mut utf16: Vec<u8> = vec![0xFF, 0xFE];
    for u in KIF.encode_utf16() {
        utf16.extend_from_slice(&u.to_le_bytes());
    }
    assert_eq!(main_line_moves(&read("a.kif", KifuKind::Kif, &utf16).unwrap()), 6);
    let mut utf16be: Vec<u8> = vec![0xFE, 0xFF];
    for u in KIF.encode_utf16() {
        utf16be.extend_from_slice(&u.to_be_bytes());
    }
    assert_eq!(main_line_moves(&read("a.kif", KifuKind::Kif, &utf16be).unwrap()), 6);
}

#[test]
fn the_first_text_that_parses_wins() {
    // as UTF-8 the second move is impossible, so that attempt fails; the
    // bytes read as UTF-16 are no moves at all, which parses as a record
    // without moves
    let text = "   1 ７六歩(77)\n   2 ７六歩(77)\n";
    let j = read("p.txt", KifuKind::Kif, text.as_bytes()).unwrap();
    assert_eq!(main_line_moves(&j), 0);
    assert_eq!(j.moves.len(), 1);
    // valid text is taken at the first attempt
    let ok = read("p.txt", KifuKind::Kif, KIF.as_bytes()).unwrap();
    assert_eq!(main_line_moves(&ok), 6);
    let ki2 = read("p.txt", KifuKind::Ki2, KI2.as_bytes()).unwrap();
    assert_eq!(main_line_moves(&ki2), 4);
}

#[test]
fn ki2_csa_and_jkf_are_read() {
    let ki2 = read("g.ki2", KifuKind::Ki2, KI2.as_bytes()).unwrap();
    assert_eq!(main_line_moves(&ki2), 4);
    let csa = read("g.csa", KifuKind::Csa, CSA.as_bytes()).unwrap();
    assert_eq!(main_line_moves(&csa), 3);
    assert!(csa.moves.last().unwrap().special);
    let jkf = read("g.jkf", KifuKind::Jkf, JKF.as_bytes()).unwrap();
    assert_eq!(jkf.moves.len(), 4);
    assert_eq!(main_line_moves(&jkf), 2);
    assert!(jkf.moves[3].special);
    assert!(!jkf.moves[0].special && jkf.moves[0].mv.is_none());
}

#[test]
fn csa_and_jkf_must_be_utf8_and_well_formed() {
    let e = read("x.csa", KifuKind::Csa, &[0xFF, 0xFF]).unwrap_err();
    assert!(matches!(e, KifuReadError::ParseFailed { ref message, .. } if message == "invalid utf-8"));
    assert!(read("x.jkf", KifuKind::Jkf, b"{ not json").is_err());
    assert!(read("x.csa", KifuKind::Csa, b"complete nonsense").is_err());
}

#[test]
fn read_to_jkf_goes_by_the_record() {
    let rec = FileRecord { path: "/lib/g.jkf".to_string(), kind: KifuKind::Jkf, size: 0, mtime_ms: 0 };
    assert_eq!(drive(read_to_jkf(&rec, JKF.as_bytes()), &rec.path, JKF.as_bytes()).unwrap().moves.len(), 4);
    let wrong = FileRecord { path: "/lib/g.jkf".to_string(), kind: KifuKind::Csa, size: 0, mtime_ms: 0 };
    assert!(drive(read_to_jkf(&wrong, JKF.as_bytes()), &wrong.path, JKF.as_bytes()).is_err());
}

#[test]
fn a_parsed_kif_file_is_indexed_with_three_positions_at_move_six() {
    let j = read("/lib/game.kif", KifuKind::Kif, KIF.as_bytes()).unwrap();
    let b = build_index_for_jkf(1, 1, &j, BuildPolicy::Strict).unwrap();
    assert!(b.warns.is_empty());
    let mut keys = Vec::new();
    let mut paths = Vec::new();
    for (key, occ) in &b.entries {
        let c = b.node_table.cursor_lite(occ.node_id).unwrap();
        if c.tesuu == 6 {
            keys.push(*key);
            paths.push(c.fork_pointers);
        }
    }
    assert!(keys.len() >= 3);
    keys.sort_by_key(|k| (k.z0, k.z1));
    keys.dedup();
    assert!(keys.len() >= 3);
    // one of the positions lies on the main line, the others on a fork at move 5
    assert_eq!(paths.iter().filter(|p| p.is_empty()).count(), 1);
    assert!(paths.iter().filter(|p| !p.is_empty()).all(|p| p[0].te == 5));
}

#[test]
fn the_longest_file_that_is_decoded() {
    assert_eq!(MAX_TEXT_BYTES, 0x3fff_ffff);
}

#[test]
fn read_many_tells_readable_files_from_the_rest() {
    let rec = |p: &str, kind| FileRecord { path: p.to_string(), kind, size: 0, mtime_ms: 0 };
    let files = vec![
        (rec("a.jkf", KifuKind::Jkf), JKF.as_bytes().to_vec()),
        (rec("b.csa", KifuKind::Csa), vec![0xFF]),
        (rec("c.csa", KifuKind::Csa), CSA.as_bytes().to_vec()),
        (rec("d.jkf", KifuKind::Jkf), b"{".to_vec()),
    ];
    let outcomes = files
        .into_iter()
        .map(|(r, bytes)| {
            let read = drive(read_to_jkf(&r, &bytes), &r.path, &bytes);
            (r, read)
        })
        .collect();
    let (ok, ng) = read_many_to_jkf(outcomes);
    assert_eq!(ok.iter().map(|f| f.0.path.as_str()).collect::<Vec<_>>(), vec!["a.jkf", "c.csa"]);
    assert_eq!(ng.iter().map(|f| f.0.path.as_str()).collect::<Vec<_>>(), vec!["b.csa", "d.jkf"]);
    assert_eq!(ok[0].1.moves.len(), 4);
    assert!(matches!(ng[0].1, KifuReadError::ParseFailed { .. }));
}

#[test]
fn a_file_above_the_limit_is_refused_unread() {
    let huge = vec![0u8; MAX_TEXT_BYTES + 1];
    assert!(matches!(
        read("big.kif", KifuKind::Kif, &huge).unwrap_err(),
        KifuReadError::TooLarge
    ));
    assert!(matches!(
        read("big.jkf", KifuKind::Jkf, &huge).unwrap_err(),
        KifuReadError::TooLarge
    ));
}

fn parse_step(step: ReadStep) -> (TextRead, String) {
    match step {
        ReadStep::Parse(st, text) => (st, text),
        ReadStep::Done(_) => panic!("a text to parse was expected"),
    }
}

#[test]
fn the_attempts_on_a_kif_file_come_in_their_order() {
    // the extension asks for Shift_JIS, in which these bytes are not well formed
    let bytes = "７六歩".as_bytes();
    let path = "/lib/a.kif";
    let (st, text) = parse_step(read_path_to_jkf(path, KifuKind::Kif, bytes));
    assert_eq!(st.attempt, Attempt::Utf8);
    assert_eq!(text, "７六歩");
    assert_eq!(st.message, "all decode+parse attempts failed:");
    let mut st = st;
    let mut seen = Vec::new();
    loop {
        let fail = Err(format!("no {}", seen.len()));
        match try_parse_text_with_fallback(st, path, bytes, fail) {
            ReadStep::Parse(next, _) => {
                seen.push(next.attempt);
                st = next;
            }
            ReadStep::Done(r) => {
                let e = r.unwrap_err();
                let KifuReadError::ParseFailed { path: p, message } = e else {
                    panic!("a parse failure was expected");
                };
                assert_eq!(p, path);
                let lines: Vec<&str> = message.lines().collect();
                assert_eq!(lines.len(), 8);
                assert_eq!(lines[0], "all decode+parse attempts failed:");
                assert_eq!(lines[1], "- utf-8: no 0");
                assert!(lines[2].starts_with("- utf-16le"));
                assert!(lines[3].starts_with("- utf-16be"));
                assert!(lines[4].starts_with("- shift_jis"));
                assert!(lines[5].starts_with("- euc-jp"));
                assert!(lines[6].starts_with("- iso-2022-jp"));
                assert_eq!(lines[7], "- utf-8 lossy: no 6");
                break;
            }
        }
    }
    assert_eq!(
        seen,
        vec![
            Attempt::Utf16Le,
            Attempt::Utf16Be,
            Attempt::ShiftJis,
            Attempt::EucJp,
            Attempt::Iso2022Jp,
            Attempt::Lossy,
        ]
    );
}

#[test]
fn the_extension_decides_the_first_attempt() {
    let sjis = [0x82u8, 0x56, 0x98, 0x5a, 0x95, 0xe0];
    let (st, text) = parse_step(read_path_to_jkf("a.kif", KifuKind::Kif, &sjis));
    assert_eq!(st.attempt, Attempt::Standard);
    assert_eq!(text, "７六歩");
    let (st, _) = parse_step(read_path_to_jkf("a.kifu", KifuKind::Kif, "７六歩".as_bytes()));
    assert_eq!(st.attempt, Attempt::Standard);
    let (st, _) = parse_step(read_path_to_jkf("a.txt", KifuKind::Kif, "７六歩".as_bytes()));
    assert_eq!(st.attempt, Attempt::Utf8);
    // a failure of the first attempt leaves no line in the message
    let (st, _) = parse_step(read_path_to_jkf("a.ki2", KifuKind::Ki2, b"abc"));
    assert_eq!(st.attempt, Attempt::Standard);
    let (next, _) =
        parse_step(try_parse_text_with_fallback(st, "a.ki2", b"abc", Err("e".to_string())));
    assert_eq!(next.attempt, Attempt::Utf8);
    assert_eq!(next.message, "all decode+parse attempts failed:");
}

#[test]
fn invalid_utf8_leaves_a_line_and_a_note_on_replaced_sequences() {
    let bytes = [0xffu8, 0x41];
    let (st, _) = parse_step(read_path_to_jkf("a.txt", KifuKind::Kif, &bytes));
    assert_eq!(st.attempt, Attempt::Utf16Le);
    assert_eq!(st.message, "all decode+parse attempts failed:\n- utf-8: invalid bytes");
    let (st, _) = parse_step(read_path_to_jkf("a.txt", KifuKind::Kif, &[0x41, 0x00, 0x42]));
    assert_eq!(st.attempt, Attempt::Utf8);
    let (st, _) =
        parse_step(try_parse_text_with_fallback(st, "a.txt", &[0x41, 0x00, 0x42], Err("x".into())));
    assert_eq!(st.attempt, Attempt::Utf16Le);
    assert!(st.had_errors);
    let (st, _) =
        parse_step(try_parse_text_with_fallback(st, "a.txt", &[0x41, 0x00, 0x42], Err("y".into())));
    assert_eq!(
        st.message,
        "all decode+parse attempts failed:\n- utf-8: x\n- utf-16le (had_errors): y"
    );
}

#[test]
fn a_record_ends_the_reading_and_a_csa_file_has_one_attempt() {
    let (st, text) = parse_step(read_path_to_jkf("g.csa", KifuKind::Csa, CSA.as_bytes()));
    assert_eq!(st.attempt, Attempt::Utf8);
    assert_eq!(text, CSA);
    assert_eq!(st.message, "");
    let record = parse_text(KifuKind::Csa, &text).unwrap();
    let done = try_parse_text_with_fallback(st.clone(), "g.csa", CSA.as_bytes(), Ok(record));
    assert!(matches!(done, ReadStep::Done(Ok(ref j)) if j.moves.len() == 5));
    let failed = try_parse_text_with_fallback(st, "g.csa", CSA.as_bytes(), Err("bad".into()));
    assert!(matches!(
        failed,
        ReadStep::Done(Err(KifuReadError::ParseFailed { ref path, ref message }))
            if path == "g.csa" && message == "bad"
    ));
}

#[test]
fn read_errors_in_words() {
    assert_eq!(KifuReadError::TooLarge.message(), "file too large");
    let e = KifuReadError::ParseFailed { path: "/a/b.kif".into(), message: "why".into() };
    assert_eq!(e.message(), "parse failed: /a/b.kif: why");
}
