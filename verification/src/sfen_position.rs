use vstd::prelude::*;
use vstd::slice::slice_subrange;
use vstd::string::*;
use shogi_core::PartialPosition;
use crate::position::{
    add_to_hand, empty_cells, empty_position, hand_cell, piece_code, place_piece, position_cells,
    set_ply, set_side_to_move, side_code, startpos, startpos_cells, CELL_COUNT,
};
use crate::position_key::{key_from_partial_position, key_of_cells, PositionKey};

verus! {

/// Why a string is not a position in SFEN notation.
#[derive(Debug, Clone, Copy, PartialEq, Eq, Structural)]
pub enum SfenParseError {
    /// The string holds nothing but white space.
    Empty,
    /// The string has not the four parts board, side, hands and move count.
    Unsupported,
    /// The side to move is neither `b` nor `w`.
    InvalidSide,
    /// The board has not nine ranks.
    BoardRanks,
    /// A `+` stands at the end of a rank.
    DanglingPlus,
    /// A rank holds a piece beyond its ninth file.
    FileUnderflow { rank: u8 },
    /// A rank does not fill nine files.
    RankSum { rank: u8 },
    /// A byte on the board stands for no piece; `promoted` says whether a `+` came before it.
    InvalidPiece { byte: u8, promoted: bool },
    /// A byte in the hands stands for no piece that can be held.
    InvalidHandPiece(u8),
    /// The hands hold a `+`.
    HandPlus,
    /// The hands end with a number.
    DanglingNumber,
    /// The move count is not a number from 1 to 65535.
    InvalidPly,
}

/// Whether the three bytes encode one of the white space characters
/// beyond U+00FF: the Ogham space mark, the spaces U+2000 to U+200A, the
/// line and paragraph separators, the narrow no-break space, the medium
/// mathematical space and the ideographic space.
pub open spec fn is_wide_space(a: u8, b: u8, c: u8) -> bool {
    ||| (a == 0xe1 && b == 0x9a && c == 0x80)
    ||| (a == 0xe2 && b == 0x80 && (0x80 <= c <= 0x8a || c == 0xa8 || c == 0xa9 || c == 0xaf))
    ||| (a == 0xe2 && b == 0x81 && c == 0x9f)
    ||| (a == 0xe3 && b == 0x80 && c == 0x80)
}

/// How many bytes the white space character takes that is encoded at index
/// `i` of the UTF-8 text `s`, or 0 where none is. White space is what
/// Unicode calls so: space, tab, line feed, vertical tab, form feed and
/// carriage return in one byte, the next-line mark and the no-break space
/// in two, and the wide spaces in three.
pub open spec fn space_len(s: Seq<u8>, i: int) -> int {
    if i < 0 || i >= s.len() {
        0
    } else if s[i] == 0x20 || (0x09 <= s[i] <= 0x0d) {
        1
    } else if i + 1 < s.len() && s[i] == 0xc2 && (s[i + 1] == 0x85 || s[i + 1] == 0xa0) {
        2
    } else if i + 2 < s.len() && is_wide_space(s[i], s[i + 1], s[i + 2]) {
        3
    } else {
        0
    }
}

pub open spec fn is_digit(b: u8) -> bool {
    0x30 <= b <= 0x39
}

/// The first index from `i` on at which no white space character begins,
/// or the length.
pub open spec fn skip_spaces(s: Seq<u8>, i: int) -> int
    decreases s.len() - i,
{
    if i < 0 || i >= s.len() {
        s.len() as int
    } else if space_len(s, i) > 0 {
        skip_spaces(s, i + space_len(s, i))
    } else {
        i
    }
}

/// The first index from `i` on at which a white space character begins,
/// or the length.
pub open spec fn token_end(s: Seq<u8>, i: int) -> int
    decreases s.len() - i,
{
    if i < 0 || i >= s.len() {
        s.len() as int
    } else if space_len(s, i) > 0 {
        i
    } else {
        token_end(s, i + 1)
    }
}

/// The next word from `i` on and where it ends, or `None` where only white
/// space is left.
pub open spec fn next_token(s: Seq<u8>, i: int) -> Option<(Seq<u8>, int)> {
    let start = skip_spaces(s, i);
    if start >= s.len() {
        None
    } else {
        Some((s.subrange(start, token_end(s, start)), token_end(s, start)))
    }
}

pub open spec fn word_position() -> Seq<u8> {
    seq![0x70u8, 0x6fu8, 0x73u8, 0x69u8, 0x74u8, 0x69u8, 0x6fu8, 0x6eu8]
}

pub open spec fn word_startpos() -> Seq<u8> {
    seq![0x73u8, 0x74u8, 0x61u8, 0x72u8, 0x74u8, 0x70u8, 0x6fu8, 0x73u8]
}

pub open spec fn word_sfen() -> Seq<u8> {
    seq![0x73u8, 0x66u8, 0x65u8, 0x6eu8]
}

/// The piece that a letter of the board stands for: its kind, 1 to 14, and
/// whether it is white. Upper case is black, lower case white; `promoted`
/// says whether a `+` came before the letter.
pub open spec fn spec_board_piece(b: u8, promoted: bool) -> Option<(u8, bool)> {
    let white = 0x61 <= b <= 0x7a;
    let up = if white {
        (b - 0x20) as u8
    } else {
        b
    };
    let base: u8 = if up == 0x50 {
        1
    } else if up == 0x4c {
        2
    } else if up == 0x4e {
        3
    } else if up == 0x53 {
        4
    } else if up == 0x47 {
        5
    } else if up == 0x42 {
        6
    } else if up == 0x52 {
        7
    } else if up == 0x4b {
        8
    } else {
        0
    };
    if base == 0 {
        None
    } else if !promoted {
        Some((base, white))
    } else if base == 5 || base == 8 {
        None
    } else if base <= 4 {
        Some(((base + 8) as u8, white))
    } else {
        Some(((base + 7) as u8, white))
    }
}

/// The piece that a letter of the hands stands for: a kind that can be
/// held, 1 to 7, and whether it is white.
pub open spec fn spec_hand_piece(b: u8) -> Option<(u8, bool)> {
    match spec_board_piece(b, false) {
        Some((kind, white)) => if kind <= 7 {
            Some((kind, white))
        } else {
            None
        },
        None => None,
    }
}

pub fn piecekind_from_sfen_letter(b: u8, promoted: bool) -> (r: Result<(u8, bool), SfenParseError>)
    ensures
        match spec_board_piece(b, promoted) {
            Some(p) => r == Ok::<(u8, bool), SfenParseError>(p) && 1 <= p.0 <= 14,
            None => r == Err::<(u8, bool), SfenParseError>(
                SfenParseError::InvalidPiece { byte: b, promoted },
            ),
        },
{
    let white = 0x61 <= b && b <= 0x7a;
    let up: u8 = if white { b - 0x20 } else { b };
    let base: u8 = if up == 0x50 {
        1
    } else if up == 0x4c {
        2
    } else if up == 0x4e {
        3
    } else if up == 0x53 {
        4
    } else if up == 0x47 {
        5
    } else if up == 0x42 {
        6
    } else if up == 0x52 {
        7
    } else if up == 0x4b {
        8
    } else {
        0
    };
    if base == 0 {
        Err(SfenParseError::InvalidPiece { byte: b, promoted })
    } else if !promoted {
        Ok((base, white))
    } else if base == 5 || base == 8 {
        Err(SfenParseError::InvalidPiece { byte: b, promoted })
    } else if base <= 4 {
        Ok((base + 8, white))
    } else {
        Ok((base + 7, white))
    }
}

pub fn hand_piecekind_from_letter(b: u8) -> (r: Result<(u8, bool), SfenParseError>)
    ensures
        match spec_hand_piece(b) {
            Some(p) => r == Ok::<(u8, bool), SfenParseError>(p) && 1 <= p.0 <= 7,
            None => r == Err::<(u8, bool), SfenParseError>(SfenParseError::InvalidHandPiece(b)),
        },
{
    match piecekind_from_sfen_letter(b, false) {
        Ok((kind, white)) => {
            if kind <= 7 {
                Ok((kind, white))
            } else {
                Err(SfenParseError::InvalidHandPiece(b))
            }
        },
        Err(_) => Err(SfenParseError::InvalidHandPiece(b)),
    }
}

/// How far the board is read: the cells so far, the rank being read, from
/// 1, the file that the next piece goes to, and whether a `+` waits for
/// its letter.
pub struct BoardScan {
    pub cells: Seq<u8>,
    pub rank: int,
    pub file: int,
    pub plus: bool,
}

/// Reading one more byte of the board. A digit leaves that many files
/// vacant; `+` promotes the letter that follows; a letter puts its piece on
/// the next file, from file 9 down to file 1; `/` ends a rank, which must
/// have filled its nine files.
pub open spec fn board_step(st: BoardScan, b: u8) -> Result<BoardScan, SfenParseError> {
    if b == 0x2f {
        if st.plus {
            Err(SfenParseError::DanglingPlus)
        } else if st.file != 0 {
            Err(SfenParseError::RankSum { rank: st.rank as u8 })
        } else {
            Ok(BoardScan { cells: st.cells, rank: st.rank + 1, file: 9, plus: false })
        }
    } else if !st.plus && is_digit(b) {
        Ok(BoardScan { file: st.file - (b - 0x30), ..st })
    } else if !st.plus && b == 0x2b {
        Ok(BoardScan { plus: true, ..st })
    } else if st.file < 1 {
        Err(SfenParseError::FileUnderflow { rank: st.rank as u8 })
    } else {
        match spec_board_piece(b, st.plus) {
            None => Err(SfenParseError::InvalidPiece { byte: b, promoted: st.plus }),
            Some((kind, white)) => Ok(
                BoardScan {
                    cells: st.cells.update(9 * st.file + st.rank - 9, piece_code(kind, white)),
                    rank: st.rank,
                    file: st.file - 1,
                    plus: false,
                },
            ),
        }
    }
}

/// Reading the first `n` bytes of the board onto the cells `cells`.
pub open spec fn board_scan(cells: Seq<u8>, board: Seq<u8>, n: nat) -> Result<
    BoardScan,
    SfenParseError,
>
    decreases n,
{
    if n == 0 {
        Ok(BoardScan { cells, rank: 1, file: 9, plus: false })
    } else {
        match board_scan(cells, board, (n - 1) as nat) {
            Err(e) => Err(e),
            Ok(st) => board_step(st, board[n - 1]),
        }
    }
}

/// How many bytes of `s` are `/`.
pub open spec fn slashes(s: Seq<u8>) -> nat
    decreases s.len(),
{
    if s.len() == 0 {
        0
    } else {
        slashes(s.drop_last()) + if s.last() == 0x2f {
            1nat
        } else {
            0nat
        }
    }
}

/// The cells once the board `board` is read onto `cells`: it must have nine
/// ranks, and each rank must fill its nine files.
pub open spec fn board_result(cells: Seq<u8>, board: Seq<u8>) -> Result<Seq<u8>, SfenParseError> {
    if slashes(board) != 8 {
        Err(SfenParseError::BoardRanks)
    } else {
        match board_scan(cells, board, board.len()) {
            Err(e) => Err(e),
            Ok(st) => if st.plus {
                Err(SfenParseError::DanglingPlus)
            } else if st.file != 0 {
                Err(SfenParseError::RankSum { rank: st.rank as u8 })
            } else {
                Ok(st.cells)
            },
        }
    }
}

/// How far the hands are read: the cells so far and the number that waits
/// for its letter.
pub struct HandScan {
    pub cells: Seq<u8>,
    pub num: nat,
}

/// Reading one more byte of the hands. Digits make up a number; a letter
/// puts that many of its piece into the hand of its colour, one where no
/// number came before it. A count in hand wraps around at 256.
pub open spec fn hand_step(st: HandScan, b: u8) -> Result<HandScan, SfenParseError> {
    if is_digit(b) {
        Ok(HandScan { cells: st.cells, num: st.num * 10 + (b - 0x30) as nat })
    } else if b == 0x2b {
        Err(SfenParseError::HandPlus)
    } else {
        match spec_hand_piece(b) {
            None => Err(SfenParseError::InvalidHandPiece(b)),
            Some((kind, white)) => {
                let cnt = if st.num == 0 {
                    1
                } else {
                    st.num
                };
                let cell = hand_cell(white, kind);
                Ok(
                    HandScan {
                        cells: st.cells.update(cell, ((st.cells[cell] + cnt) % 256) as u8),
                        num: 0,
                    },
                )
            },
        }
    }
}

pub open spec fn hand_scan(cells: Seq<u8>, hand: Seq<u8>, n: nat) -> Result<HandScan, SfenParseError>
    decreases n,
{
    if n == 0 {
        Ok(HandScan { cells, num: 0 })
    } else {
        match hand_scan(cells, hand, (n - 1) as nat) {
            Err(e) => Err(e),
            Ok(st) => hand_step(st, hand[n - 1]),
        }
    }
}

/// The cells once the hands `hand` are read onto `cells`; `-` stands for
/// empty hands.
pub open spec fn hands_result(cells: Seq<u8>, hand: Seq<u8>) -> Result<Seq<u8>, SfenParseError> {
    if hand == seq![0x2du8] {
        Ok(cells)
    } else {
        match hand_scan(cells, hand, hand.len()) {
            Err(e) => Err(e),
            Ok(st) => if st.num != 0 {
                Err(SfenParseError::DanglingNumber)
            } else {
                Ok(st.cells)
            },
        }
    }
}

/// The number that decimal digits stand for.
pub open spec fn digits_value(s: Seq<u8>) -> nat
    decreases s.len(),
{
    if s.len() == 0 {
        0
    } else {
        digits_value(s.drop_last()) * 10 + (s.last() - 0x30) as nat
    }
}

pub open spec fn all_digits(s: Seq<u8>) -> bool {
    forall|i: int| 0 <= i < s.len() ==> is_digit(#[trigger] s[i])
}

/// Whether `ply` is a move count: decimal digits, with or without a `+`
/// before them, for a number from 1 to 65535.
pub open spec fn valid_ply(ply: Seq<u8>) -> bool {
    let digits = if ply.len() > 0 && ply[0] == 0x2b {
        ply.skip(1)
    } else {
        ply
    };
    digits.len() > 0 && all_digits(digits) && 1 <= digits_value(digits) <= 0xffff
}

/// The cells that the four parts of a position in SFEN notation describe.
pub open spec fn fields_result(s: Seq<u8>, i: int) -> Result<Seq<u8>, SfenParseError> {
    match next_token(s, i) {
        None => Err(SfenParseError::Unsupported),
        Some((board, e1)) => match next_token(s, e1) {
            None => Err(SfenParseError::Unsupported),
            Some((side, e2)) => match next_token(s, e2) {
                None => Err(SfenParseError::Unsupported),
                Some((hand, e3)) => match next_token(s, e3) {
                    None => Err(SfenParseError::Unsupported),
                    Some((ply, e4)) => if side != seq![0x62u8] && side != seq![0x77u8] {
                        Err(SfenParseError::InvalidSide)
                    } else {
                        let start = empty_cells().update(0, side_code(side == seq![0x77u8]));
                        match board_result(start, board) {
                            Err(e) => Err(e),
                            Ok(c1) => match hands_result(c1, hand) {
                                Err(e) => Err(e),
                                Ok(c2) => if valid_ply(ply) {
                                    Ok(c2)
                                } else {
                                    Err(SfenParseError::InvalidPly)
                                },
                            },
                        }
                    },
                },
            },
        },
    }
}

/// The cells of the position that a string describes. The string holds
/// words between white space: an optional `position`; then either
/// `startpos`, for the usual starting position, or, after an optional
/// `sfen`, the board, the side to move, the hands and the move count. What
/// follows is not looked at.
pub open spec fn sfen_result(s: Seq<u8>) -> Result<Seq<u8>, SfenParseError> {
    match next_token(s, 0) {
        None => Err(SfenParseError::Empty),
        Some((t0, e0)) => {
            let i1 = if t0 == word_position() {
                e0
            } else {
                0
            };
            match next_token(s, i1) {
                None => Err(SfenParseError::Unsupported),
                Some((t1, e1)) => if t1 == word_startpos() {
                    Ok(startpos_cells())
                } else if t1 == word_sfen() {
                    fields_result(s, e1)
                } else {
                    fields_result(s, i1)
                },
            }
        },
    }
}

fn space_len_at(s: &[u8], i: usize) -> (n: usize)
    requires
        i < s@.len(),
    ensures
        n == space_len(s@, i as int),
        i + n <= s@.len(),
{
    let a = s[i];
    if a == 0x20 || (0x09 <= a && a <= 0x0d) {
        1
    } else if s.len() - i >= 2 && a == 0xc2 && (s[i + 1] == 0x85 || s[i + 1] == 0xa0) {
        2
    } else if s.len() - i >= 3 {
        let b = s[i + 1];
        let c = s[i + 2];
        if (a == 0xe1 && b == 0x9a && c == 0x80) || (a == 0xe2 && b == 0x80 && ((0x80 <= c && c
            <= 0x8a) || c == 0xa8 || c == 0xa9 || c == 0xaf)) || (a == 0xe2 && b == 0x81 && c
            == 0x9f) || (a == 0xe3 && b == 0x80 && c == 0x80) {
            3
        } else {
            0
        }
    } else {
        0
    }
}

/// The bounds of the next word from `i` on.
fn read_token(s: &[u8], i: usize) -> (r: Option<(usize, usize)>)
    requires
        i <= s@.len(),
    ensures
        match (r, next_token(s@, i as int)) {
            (Some((lo, hi)), Some((t, e))) => lo < hi <= s@.len() && hi == e && t == s@.subrange(
                lo as int,
                hi as int,
            ),
            (None, None) => true,
            _ => false,
        },
{
    let mut lo: usize = i;
    while lo < s.len() && space_len_at(s, lo) > 0
        invariant
            i <= lo <= s@.len(),
            skip_spaces(s@, i as int) == skip_spaces(s@, lo as int),
        decreases s@.len() - lo,
    {
        lo += space_len_at(s, lo);
    }
    if lo >= s.len() {
        return None;
    }
    let mut hi: usize = lo + 1;
    while hi < s.len() && space_len_at(s, hi) == 0
        invariant
            lo < hi <= s@.len(),
            token_end(s@, lo as int) == token_end(s@, hi as int),
        decreases s@.len() - hi,
    {
        hi += 1;
    }
    Some((lo, hi))
}

fn token_is(t: &[u8], word: &[u8]) -> (r: bool)
    ensures
        r == (t@ == word@),
{
    if t.len() != word.len() {
        return false;
    }
    let mut i: usize = 0;
    while i < t.len()
        invariant
            i <= t@.len(),
            t@.len() == word@.len(),
            forall|k: int| 0 <= k < i ==> t@[k] == word@[k],
        decreases t@.len() - i,
    {
        if t[i] != word[i] {
            return false;
        }
        i += 1;
    }
    proof {
        assert(t@ =~= word@);
    }
    true
}

fn is_position_word(t: &[u8]) -> (r: bool)
    ensures
        r == (t@ == word_position()),
{
    let w: [u8; 8] = [0x70, 0x6f, 0x73, 0x69, 0x74, 0x69, 0x6f, 0x6e];
    proof {
        assert(w@ =~= word_position());
    }
    token_is(t, w.as_slice())
}

fn is_startpos_word(t: &[u8]) -> (r: bool)
    ensures
        r == (t@ == word_startpos()),
{
    let w: [u8; 8] = [0x73, 0x74, 0x61, 0x72, 0x74, 0x70, 0x6f, 0x73];
    proof {
        assert(w@ =~= word_startpos());
    }
    token_is(t, w.as_slice())
}

fn is_sfen_word(t: &[u8]) -> (r: bool)
    ensures
        r == (t@ == word_sfen()),
{
    let w: [u8; 4] = [0x73, 0x66, 0x65, 0x6e];
    proof {
        assert(w@ =~= word_sfen());
    }
    token_is(t, w.as_slice())
}

fn is_one_byte(t: &[u8], b: u8) -> (r: bool)
    ensures
        r == (t@ == seq![b]),
{
    let r = t.len() == 1 && t[0] == b;
    proof {
        if r {
            assert(t@ =~= seq![b]);
        } else if t@.len() == 1 {
            assert(seq![b][0] == b);
        }
    }
    r
}

proof fn lemma_board_scan_fails(cells: Seq<u8>, board: Seq<u8>, k: nat, n: nat)
    requires
        k <= n,
        board_scan(cells, board, k) is Err,
    ensures
        board_scan(cells, board, n) == board_scan(cells, board, k),
    decreases n - k,
{
    if k < n {
        lemma_board_scan_fails(cells, board, k, (n - 1) as nat);
    }
}

proof fn lemma_hand_scan_fails(cells: Seq<u8>, hand: Seq<u8>, k: nat, n: nat)
    requires
        k <= n,
        hand_scan(cells, hand, k) is Err,
    ensures
        hand_scan(cells, hand, n) == hand_scan(cells, hand, k),
    decreases n - k,
{
    if k < n {
        lemma_hand_scan_fails(cells, hand, k, (n - 1) as nat);
    }
}

fn count_slashes(s: &[u8]) -> (n: usize)
    ensures
        n == slashes(s@),
{
    let mut n: usize = 0;
    let mut i: usize = 0;
    while i < s.len()
        invariant
            i <= s@.len(),
            n == slashes(s@.take(i as int)),
            n <= i,
        decreases s@.len() - i,
    {
        proof {
            assert(s@.take(i + 1).drop_last() == s@.take(i as int));
            assert(s@.take(i + 1).last() == s@[i as int]);
        }
        if s[i] == 0x2f {
            n += 1;
        }
        i += 1;
    }
    proof {
        assert(s@.take(i as int) == s@);
    }
    n
}

proof fn lemma_slashes_grow(s: Seq<u8>, k: int)
    requires
        0 <= k <= s.len(),
    ensures
        slashes(s.take(k)) <= slashes(s),
    decreases s.len() - k,
{
    if k < s.len() {
        lemma_slashes_grow(s, k + 1);
        assert(s.take(k + 1).drop_last() == s.take(k));
    } else {
        assert(s.take(k) == s);
    }
}

/// The rank that is being read after `n` bytes: one more than the `/` so far.
proof fn lemma_scan_rank(cells: Seq<u8>, board: Seq<u8>, n: nat)
    requires
        n <= board.len(),
        board_scan(cells, board, n) is Ok,
    ensures
        board_scan(cells, board, n)->Ok_0.rank == 1 + slashes(board.take(n as int)),
        board_scan(cells, board, n)->Ok_0.file <= 9,
    decreases n,
{
    if n > 0 {
        lemma_scan_rank(cells, board, (n - 1) as nat);
        assert(board.take(n as int).drop_last() == board.take(n - 1));
        assert(board.take(n as int).last() == board[n - 1]);
    }
}

/// Reads the board part of a position onto `pos`.
fn parse_board_into(pos: &mut PartialPosition, board: &[u8]) -> (r: Result<(), SfenParseError>)
    requires
        position_cells(*old(pos)).len() == CELL_COUNT,
    ensures
        match board_result(position_cells(*old(pos)), board@) {
            Ok(cells) => r is Ok && position_cells(*final(pos)) == cells && cells.len()
                == CELL_COUNT,
            Err(e) => r == Err::<(), SfenParseError>(e),
        },
{
    let ghost start = position_cells(*pos);
    if count_slashes(board) != 8 {
        return Err(SfenParseError::BoardRanks);
    }
    let mut rank: u8 = 1;
    let mut file: i8 = 9;
    let mut plus = false;
    let mut i: usize = 0;
    while i < board.len()
        invariant
            i <= board@.len(),
            start == position_cells(*old(pos)),
            position_cells(*pos).len() == CELL_COUNT,
            slashes(board@) == 8,
            board_scan(start, board@, i as nat) is Ok,
            ({
                let st = board_scan(start, board@, i as nat)->Ok_0;
                &&& st.cells == position_cells(*pos)
                &&& st.rank == rank
                &&& st.plus == plus
                &&& -1 <= file <= 9
                &&& st.file >= 0 ==> file == st.file
                &&& st.file < 0 ==> file == -1
            }),
            1 <= rank <= 9,
        decreases board@.len() - i,
    {
        let b = board[i];
        let ghost st = board_scan(start, board@, i as nat)->Ok_0;
        proof {
            lemma_scan_rank(start, board@, i as nat);
            lemma_scan_rank_next(start, board@, i as nat);
            lemma_slashes_grow(board@, i + 1);
            assert(board@.take(i + 1).drop_last() == board@.take(i as int));
            assert(board@.take(i + 1).last() == b);
        }
        if b == 0x2f {
            if plus {
                proof {
                    lemma_board_scan_fails(start, board@, (i + 1) as nat, board@.len());
                }
                return Err(SfenParseError::DanglingPlus);
            }
            if file != 0 {
                proof {
                    lemma_board_scan_fails(start, board@, (i + 1) as nat, board@.len());
                }
                return Err(SfenParseError::RankSum { rank });
            }
            rank += 1;
            file = 9;
        } else if !plus && 0x30 <= b && b <= 0x39 {
            let d: i8 = (b - 0x30) as i8;
            if file >= 0 {
                file = if file - d < 0 { -1 } else { file - d };
            }
        } else if !plus && b == 0x2b {
            plus = true;
        } else {
            if file < 1 {
                proof {
                    lemma_board_scan_fails(start, board@, (i + 1) as nat, board@.len());
                }
                return Err(SfenParseError::FileUnderflow { rank });
            }
            let (kind, white) = match piecekind_from_sfen_letter(b, plus) {
                Ok(p) => p,
                Err(e) => {
                    proof {
                        lemma_board_scan_fails(start, board@, (i + 1) as nat, board@.len());
                    }
                    return Err(e);
                },
            };
            let sq: u8 = 9 * (file as u8) + rank - 9;
            place_piece(pos, sq, kind, white);
            file -= 1;
            plus = false;
        }
        i += 1;
    }
    if plus {
        return Err(SfenParseError::DanglingPlus);
    }
    if file != 0 {
        return Err(SfenParseError::RankSum { rank });
    }
    Ok(())
}

proof fn lemma_scan_rank_next(cells: Seq<u8>, board: Seq<u8>, n: nat)
    requires
        n < board.len(),
        board_scan(cells, board, n) is Ok,
    ensures
        board_scan(cells, board, (n + 1) as nat) == board_step(
            board_scan(cells, board, n)->Ok_0,
            board[n as int],
        ),
{
}

proof fn lemma_hand_scan_next(cells: Seq<u8>, hand: Seq<u8>, n: nat)
    requires
        n < hand.len(),
        hand_scan(cells, hand, n) is Ok,
    ensures
        hand_scan(cells, hand, (n + 1) as nat) == hand_step(
            hand_scan(cells, hand, n)->Ok_0,
            hand[n as int],
        ),
{
}

/// Puts `k` pieces of one hand kind into a hand.
fn add_n(pos: &mut PartialPosition, white: bool, kind: u8, k: u8)
    requires
        1 <= kind <= 7,
        position_cells(*old(pos)).len() == CELL_COUNT,
    ensures
        position_cells(*final(pos)) == position_cells(*old(pos)).update(
            hand_cell(white, kind),
            ((position_cells(*old(pos))[hand_cell(white, kind)] + k) % 256) as u8,
        ),
{
    let ghost start = position_cells(*pos);
    let ghost c = hand_cell(white, kind);
    let mut j: u8 = 0;
    proof {
        assert(start.update(c, ((start[c] + 0) % 256) as u8) =~= start);
    }
    while j < k
        invariant
            j <= k,
            1 <= kind <= 7,
            c == hand_cell(white, kind),
            start.len() == CELL_COUNT,
            position_cells(*pos) == start.update(c, ((start[c] + j) % 256) as u8),
        decreases k - j,
    {
        let ghost before = position_cells(*pos);
        let ok = add_to_hand(pos, white, kind);
        proof {
            assert(before[c] == ((start[c] + j) % 256) as u8);
            assert(before[c].wrapping_add(1) == ((start[c] + j + 1) % 256) as u8);
            assert(position_cells(*pos) =~= start.update(c, ((start[c] + j + 1) % 256) as u8));
        }
        j += 1;
    }
}

/// Reads the hands part of a position onto `pos`.
fn parse_hands_into(pos: &mut PartialPosition, hand: &[u8]) -> (r: Result<(), SfenParseError>)
    requires
        position_cells(*old(pos)).len() == CELL_COUNT,
    ensures
        match hands_result(position_cells(*old(pos)), hand@) {
            Ok(cells) => r is Ok && position_cells(*final(pos)) == cells,
            Err(e) => r == Err::<(), SfenParseError>(e),
        },
{
    if is_one_byte(hand, 0x2d) {
        return Ok(());
    }
    let ghost start = position_cells(*pos);
    let mut low: u8 = 0;
    let mut nonzero = false;
    let mut i: usize = 0;
    while i < hand.len()
        invariant
            i <= hand@.len(),
            start == position_cells(*old(pos)),
            hand@ != seq![0x2du8],
            position_cells(*pos).len() == CELL_COUNT,
            hand_scan(start, hand@, i as nat) is Ok,
            ({
                let st = hand_scan(start, hand@, i as nat)->Ok_0;
                &&& st.cells == position_cells(*pos)
                &&& nonzero == (st.num != 0)
                &&& low == st.num % 256
            }),
        decreases hand@.len() - i,
    {
        let b = hand[i];
        let ghost st = hand_scan(start, hand@, i as nat)->Ok_0;
        proof {
            lemma_hand_scan_next(start, hand@, i as nat);
        }
        if 0x30 <= b && b <= 0x39 {
            let d: u8 = b - 0x30;
            proof {
                let n = st.num as int;
                assert((n * 10 + d) % 256 == ((n % 256) * 10 + d) % 256) by {
                    vstd::arithmetic::div_mod::lemma_mul_mod_noop_left(n, 10, 256);
                    vstd::arithmetic::div_mod::lemma_add_mod_noop(n * 10, d as int, 256);
                    vstd::arithmetic::div_mod::lemma_add_mod_noop((n % 256) * 10, d as int, 256);
                }
                assert(n * 10 + d != 0 <==> (n != 0 || d != 0)) by (nonlinear_arith)
                    requires
                        n >= 0,
                        d >= 0,
                ;
            }
            low = (((low as u32) * 10 + d as u32) % 256) as u8;
            nonzero = nonzero || d != 0;
        } else if b == 0x2b {
            proof {
                lemma_hand_scan_fails(start, hand@, (i + 1) as nat, hand@.len());
            }
            return Err(SfenParseError::HandPlus);
        } else {
            let (kind, white) = match hand_piecekind_from_letter(b) {
                Ok(p) => p,
                Err(e) => {
                    proof {
                        lemma_hand_scan_fails(start, hand@, (i + 1) as nat, hand@.len());
                    }
                    return Err(e);
                },
            };
            let k: u8 = if nonzero { low } else { 1 };
            proof {
                let cnt: int = if st.num == 0 { 1 } else { st.num as int };
                let c = hand_cell(white, kind);
                let cur = position_cells(*pos)[c] as int;
                assert(k == cnt % 256);
                assert((cur + cnt) % 256 == (cur + k) % 256) by {
                    vstd::arithmetic::div_mod::lemma_add_mod_noop(cur, cnt, 256);
                    vstd::arithmetic::div_mod::lemma_add_mod_noop(cur, k as int, 256);
                    vstd::arithmetic::div_mod::lemma_mod_twice(cnt, 256);
                }
            }
            add_n(pos, white, kind, k);
            low = 0;
            nonzero = false;
        }
        i += 1;
    }
    if nonzero {
        return Err(SfenParseError::DanglingNumber);
    }
    Ok(())
}

/// Whether `ply` is a move count.
fn ply_is_valid(ply: &[u8]) -> (r: Option<u16>)
    ensures
        r is Some <==> valid_ply(ply@),
        r matches Some(v) ==> v != 0,
{
    let from: usize = if ply.len() > 0 && ply[0] == 0x2b { 1 } else { 0 };
    let ghost digits = ply@.skip(from as int);
    proof {
        assert(ply@.skip(0) =~= ply@);
    }
    if ply.len() == from {
        return None;
    }
    let mut v: u32 = 0;
    let mut i: usize = from;
    proof {
        assert(digits.take(0) =~= Seq::<u8>::empty());
    }
    while i < ply.len()
        invariant
            from <= i <= ply@.len(),
            digits == ply@.skip(from as int),
            digits == (if ply@.len() > 0 && ply@[0] == 0x2b {
                ply@.skip(1)
            } else {
                ply@
            }),
            all_digits(digits.take(i - from)),
            v <= 0x1_0000,
            digits_value(digits.take(i - from)) <= 0xffff ==> v == digits_value(
                digits.take(i - from),
            ),
            digits_value(digits.take(i - from)) > 0xffff ==> v == 0x1_0000,
        decreases ply@.len() - i,
    {
        let b = ply[i];
        proof {
            let t = digits.take(i + 1 - from);
            assert(t.drop_last() == digits.take(i - from));
            assert(t.last() == b);
        }
        if !(0x30 <= b && b <= 0x39) {
            proof {
                assert(digits[i - from] == b);
                assert(!is_digit(digits[i - from]));
            }
            return None;
        }
        proof {
            let t = digits.take(i + 1 - from);
            assert forall|k: int| 0 <= k < t.len() implies is_digit(#[trigger] t[k]) by {
                if k < t.len() - 1 {
                    assert(digits.take(i - from)[k] == t[k]);
                }
            }
        }
        let nv: u32 = v * 10 + (b - 0x30) as u32;
        v = if nv > 0xffff { 0x1_0000 } else { nv };
        i += 1;
    }
    proof {
        assert(digits.take(i - from) == digits);
    }
    if v == 0 || v > 0xffff {
        None
    } else {
        Some(v as u16)
    }
}

/// Reads the four parts of a position from the word at `i` on.
fn parse_fields(s: &[u8], i: usize) -> (r: Result<PartialPosition, SfenParseError>)
    requires
        i <= s@.len(),
    ensures
        match fields_result(s@, i as int) {
            Ok(cells) => r is Ok && position_cells(r->Ok_0) == cells,
            Err(e) => r is Err && r->Err_0 == e,
        },
{
    let (b0, b1) = match read_token(s, i) {
        Some(t) => t,
        None => {
            return Err(SfenParseError::Unsupported);
        },
    };
    let (s0, s1) = match read_token(s, b1) {
        Some(t) => t,
        None => {
            return Err(SfenParseError::Unsupported);
        },
    };
    let (h0, h1) = match read_token(s, s1) {
        Some(t) => t,
        None => {
            return Err(SfenParseError::Unsupported);
        },
    };
    let (ply_from, ply_to) = match read_token(s, h1) {
        Some(t) => t,
        None => {
            return Err(SfenParseError::Unsupported);
        },
    };
    let side = slice_subrange(s, s0, s1);
    let white = if is_one_byte(side, 0x62) {
        false
    } else if is_one_byte(side, 0x77) {
        true
    } else {
        return Err(SfenParseError::InvalidSide);
    };
    proof {
        assert(seq![0x62u8][0] == 0x62u8);
        assert(seq![0x77u8][0] == 0x77u8);
        assert((side@ == seq![0x77u8]) == white);
    }
    let mut pos = empty_position();
    set_side_to_move(&mut pos, white);
    match parse_board_into(&mut pos, slice_subrange(s, b0, b1)) {
        Ok(()) => {},
        Err(e) => {
            return Err(e);
        },
    }
    match parse_hands_into(&mut pos, slice_subrange(s, h0, h1)) {
        Ok(()) => {},
        Err(e) => {
            return Err(e);
        },
    }
    match ply_is_valid(slice_subrange(s, ply_from, ply_to)) {
        Some(ply) => {
            let ok = set_ply(&mut pos, ply);
        },
        None => {
            return Err(SfenParseError::InvalidPly);
        },
    }
    Ok(pos)
}

/// Reads a position in SFEN notation.
pub fn partial_position_from_sfen(input: &str) -> (r: Result<PartialPosition, SfenParseError>)
    ensures
        match sfen_result(input.spec_bytes()) {
            Ok(cells) => r is Ok && position_cells(r->Ok_0) == cells,
            Err(e) => r is Err && r->Err_0 == e,
        },
{
    let s = input.as_bytes();
    let (a0, a1) = match read_token(s, 0) {
        Some(t) => t,
        None => {
            return Err(SfenParseError::Empty);
        },
    };
    let i1: usize = if is_position_word(slice_subrange(s, a0, a1)) { a1 } else { 0 };
    let (t0, t1) = match read_token(s, i1) {
        Some(t) => t,
        None => {
            return Err(SfenParseError::Unsupported);
        },
    };
    let word = slice_subrange(s, t0, t1);
    if is_startpos_word(word) {
        return Ok(startpos());
    }
    if is_sfen_word(word) {
        parse_fields(s, t1)
    } else {
        parse_fields(s, i1)
    }
}

/// The key of the position that a string in SFEN notation describes.
pub fn position_key_from_sfen(input: &str) -> (r: Result<PositionKey, SfenParseError>)
    ensures
        match sfen_result(input.spec_bytes()) {
            Ok(cells) => r == Ok::<PositionKey, SfenParseError>(key_of_cells(cells)),
            Err(e) => r == Err::<PositionKey, SfenParseError>(e),
        },
{
    match partial_position_from_sfen(input) {
        Ok(pos) => Ok(key_from_partial_position(&pos)),
        Err(e) => Err(e),
    }
}

} // verus!
