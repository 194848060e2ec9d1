use vstd::prelude::*;
use shogi_core::{Color, Move, PartialPosition, Piece, PieceKind, Square};

verus! {

/// A board position of `shogi_core`: side to move, pieces on squares, and
/// each player's pieces in hand.
#[verifier::external_type_specification]
#[verifier::external_body]
pub struct ExPartialPosition(PartialPosition);

/// What a position holds, cell by cell. Cell 0 is the side to move: 1 for
/// black, 2 for white. Cells 1 to 81 are the squares by their index,
/// `9 * file + rank - 9`: 0 for a vacant square, else the code of the piece
/// on it. Cells 82 to 88 are black's counts in hand of pawn, lance, knight,
/// silver, gold, bishop and rook, and cells 89 to 95 white's.
pub uninterp spec fn position_cells(p: PartialPosition) -> Seq<u8>;

/// What a move makes of the cells of a position, or `None` for a move that
/// the position does not admit.
pub uninterp spec fn cells_after_move(cells: Seq<u8>, mv: BoardMove) -> Option<Seq<u8>>;

/// The number of cells of a position.
pub const CELL_COUNT: usize = 96;

/// The code of a piece: its kind, 1 to 14, for black, and 16 more for white.
pub open spec fn piece_code(kind: u8, white: bool) -> u8 {
    if white {
        (kind + 16) as u8
    } else {
        kind
    }
}

/// Whether `code` is the code of a piece.
pub open spec fn is_piece_code(code: u8) -> bool {
    1 <= code <= 14 || 17 <= code <= 30
}

/// The cell that holds a player's count in hand of the hand kind `kind`, 1 to 7.
pub open spec fn hand_cell(white: bool, kind: u8) -> int {
    81 + kind + if white {
        7int
    } else {
        0int
    }
}

/// The side code: 1 for black, 2 for white.
pub open spec fn side_code(white: bool) -> u8 {
    if white {
        2
    } else {
        1
    }
}

/// The cells of a position without pieces, black to move.
pub open spec fn empty_cells() -> Seq<u8> {
    Seq::new(CELL_COUNT as nat, |i: int| if i == 0 { 1u8 } else { 0u8 })
}

/// The piece that stands on the square of file `file` and rank `rank` when
/// a game starts from the usual position, 0 where none stands.
pub open spec fn startpos_piece(file: int, rank: int) -> u8 {
    let back: u8 = if file == 1 || file == 9 {
        2
    } else if file == 2 || file == 8 {
        3
    } else if file == 3 || file == 7 {
        4
    } else if file == 4 || file == 6 {
        5
    } else {
        8
    };
    if rank == 1 {
        (back + 16) as u8
    } else if rank == 9 {
        back
    } else if rank == 3 {
        17
    } else if rank == 7 {
        1
    } else if rank == 2 && file == 2 {
        22
    } else if rank == 2 && file == 8 {
        23
    } else if rank == 8 && file == 8 {
        6
    } else if rank == 8 && file == 2 {
        7
    } else {
        0
    }
}

/// The cells of the usual starting position: black to move, the pieces on
/// their home squares, nothing in hand.
pub open spec fn startpos_cells() -> Seq<u8> {
    Seq::new(
        CELL_COUNT as nat,
        |i: int|
            if i == 0 {
                1u8
            } else if i <= 81 {
                startpos_piece((i - 1) / 9 + 1, (i - 1) % 9 + 1)
            } else {
                0u8
            },
    )
}

/// A move as the position rules take it: from a square to a square, or a
/// drop from the hand where `from` is `None`. Squares are given by index, 1
/// to 81; `kind` and `white` say which piece is dropped.
#[derive(Debug, Clone, Copy, PartialEq, Eq, Structural)]
pub struct BoardMove {
    pub from: Option<u8>,
    pub to: u8,
    pub promote: bool,
    pub kind: u8,
    pub white: bool,
}

impl BoardMove {
    /// The squares are in range, and so is the kind of a piece that is dropped.
    pub open spec fn wf(self) -> bool {
        &&& 1 <= self.to <= 81
        &&& match self.from {
            Some(f) => 1 <= f <= 81,
            None => 1 <= self.kind <= 14,
        }
    }
}

/// `PartialPosition::startpos`: the usual starting position.
#[verifier::external_body]
pub(crate) fn startpos() -> (p: PartialPosition)
    ensures
        position_cells(p) == startpos_cells(),
{
    PartialPosition::startpos()
}

/// `PartialPosition::empty`: a position without pieces, black to move.
#[verifier::external_body]
pub(crate) fn empty_position() -> (p: PartialPosition)
    ensures
        position_cells(p) == empty_cells(),
{
    PartialPosition::empty()
}

/// `Clone::clone` of a position: a position that holds the same.
#[verifier::external_body]
pub(crate) fn copy_position(p: &PartialPosition) -> (q: PartialPosition)
    ensures
        position_cells(q) == position_cells(*p),
{
    p.clone()
}

/// `PartialPosition::side_to_move`: whether white is to move.
#[verifier::external_body]
pub(crate) fn white_to_move(p: &PartialPosition) -> (white: bool)
    ensures
        position_cells(*p)[0] == side_code(white),
{
    match p.side_to_move() {
        Color::Black => false,
        Color::White => true,
    }
}

/// `PartialPosition::side_to_move_set`: sets the side to move and nothing else.
#[verifier::external_body]
pub(crate) fn set_side_to_move(p: &mut PartialPosition, white: bool)
    ensures
        position_cells(*final(p)) == position_cells(*old(p)).update(0, side_code(white)),
{
    p.side_to_move_set(if white { Color::White } else { Color::Black })
}

/// `PartialPosition::piece_at`: the code of the piece on the square of
/// index `sq`, or 0 for a vacant square.
#[verifier::external_body]
pub(crate) fn piece_at(p: &PartialPosition, sq: u8) -> (code: u8)
    requires
        1 <= sq <= 81,
    ensures
        code == position_cells(*p)[sq as int],
        code == 0 || is_piece_code(code),
{
    match p.piece_at(Square::from_u8(sq).unwrap()) {
        Some(piece) => piece.as_u8(),
        None => 0,
    }
}

/// `PartialPosition::piece_set`: puts a piece of kind `kind` and of the
/// given colour on the square of index `sq`, in place of what stood there.
#[verifier::external_body]
pub(crate) fn place_piece(p: &mut PartialPosition, sq: u8, kind: u8, white: bool)
    requires
        1 <= sq <= 81,
        1 <= kind <= 14,
    ensures
        position_cells(*final(p)) == position_cells(*old(p)).update(
            sq as int,
            piece_code(kind, white),
        ),
{
    let color = if white { Color::White } else { Color::Black };
    let piece = Piece::new(PieceKind::from_u8(kind).unwrap(), color);
    p.piece_set(Square::from_u8(sq).unwrap(), Some(piece))
}

/// `PartialPosition::hand`: how many pieces of the hand kind `kind` a
/// player holds.
#[verifier::external_body]
pub(crate) fn hand_count(p: &PartialPosition, white: bool, kind: u8) -> (n: u8)
    requires
        1 <= kind <= 7,
    ensures
        n == position_cells(*p)[hand_cell(white, kind)],
{
    let color = if white { Color::White } else { Color::Black };
    p.hand(Piece::new(PieceKind::from_u8(kind).unwrap(), color)).unwrap_or(0)
}

/// `Hand::added` on a player's hand: one more piece of kind `kind` in hand.
/// The count wraps around at 256. A kind that cannot be held, 8 to 14, is
/// refused and changes nothing.
#[verifier::external_body]
pub(crate) fn add_to_hand(p: &mut PartialPosition, white: bool, kind: u8) -> (ok: bool)
    requires
        1 <= kind <= 14,
    ensures
        ok == (kind <= 7),
        ok ==> position_cells(*final(p)) == position_cells(*old(p)).update(
            hand_cell(white, kind),
            position_cells(*old(p))[hand_cell(white, kind)].wrapping_add(1),
        ),
        !ok ==> position_cells(*final(p)) == position_cells(*old(p)),
{
    let color = if white { Color::White } else { Color::Black };
    match p.hand_of_a_player(color).added(PieceKind::from_u8(kind).unwrap()) {
        Some(h) => {
            *p.hand_of_a_player_mut(color) = h;
            true
        },
        None => false,
    }
}

/// `PartialPosition::ply_set`: sets the move count, which is no cell. It
/// succeeds if and only if `ply` is not 0.
#[verifier::external_body]
pub(crate) fn set_ply(p: &mut PartialPosition, ply: u16) -> (ok: bool)
    ensures
        ok == (ply != 0),
        position_cells(*final(p)) == position_cells(*old(p)),
{
    p.ply_set(ply)
}

/// `PartialPosition::make_move`: makes a move without checking legality.
/// A move that the position does not admit leaves it as it is.
#[verifier::external_body]
pub(crate) fn make_move(p: &mut PartialPosition, mv: BoardMove) -> (ok: bool)
    requires
        mv.wf(),
    ensures
        ok == cells_after_move(position_cells(*old(p)), mv) is Some,
        ok ==> cells_after_move(position_cells(*old(p)), mv) == Some(position_cells(*final(p))),
        !ok ==> position_cells(*final(p)) == position_cells(*old(p)),
{
    let to = Square::from_u8(mv.to).unwrap();
    let color = if mv.white { Color::White } else { Color::Black };
    let m = match mv.from {
        Some(f) => Move::Normal { from: Square::from_u8(f).unwrap(), to, promote: mv.promote },
        None => Move::Drop { piece: Piece::new(PieceKind::from_u8(mv.kind).unwrap(), color), to },
    };
    p.make_move(m).is_some()
}

} // verus!
