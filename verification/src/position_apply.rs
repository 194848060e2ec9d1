use vstd::prelude::*;
use vstd::string::*;
use crate::text::{append_decimal, spec_decimal};
use shogi_core::PartialPosition;
use crate::position::{
    cells_after_move, make_move, position_cells, white_to_move, BoardMove,
};
use crate::traverse::{MoveData, NodeAction, Place};

verus! {

/// What applying a node did, and whether its line goes on.
#[derive(Debug, Clone, Copy, PartialEq, Eq, Structural)]
pub enum ApplyStatus {
    /// A move was made.
    Applied,
    /// The node changes nothing.
    Noop,
    /// The game ended: the line stops here.
    Terminal,
}

/// Why a move of a game record could not be applied.
#[derive(Debug, Clone, Copy, PartialEq, Eq, Structural)]
pub enum ApplyError {
    /// A file or rank is not between 1 and 9.
    InvalidSquare { x: u8, y: u8 },
    /// The record's code is that of no piece kind.
    UnsupportedKind(u8),
    /// A promoted piece cannot be dropped.
    PromotedDropNotAllowed(u8),
    /// The move is by the side that is not to move.
    SideToMoveMismatch { pos_white: bool, mv_white: bool },
    /// The position does not admit the move.
    ApplyFailed,
}

/// The index of a square: `9 * file + rank - 9`, for a file and a rank
/// between 1 and 9.
pub open spec fn spec_square(p: Place) -> Option<u8> {
    if 1 <= p.x <= 9 && 1 <= p.y <= 9 {
        Some((9 * p.x + p.y - 9) as u8)
    } else {
        None
    }
}

/// The kind of a piece by the record's code: the codes 0 to 13 stand for
/// the kinds 1 to 14 in the same order.
pub open spec fn spec_piece_kind(code: u8) -> Option<u8> {
    if code <= 13 {
        Some((code + 1) as u8)
    } else {
        None
    }
}

/// Whether the record's code is that of a promoted piece.
pub open spec fn spec_is_promoted(code: u8) -> bool {
    8 <= code <= 13
}

/// The move in the terms of the position rules.
pub open spec fn spec_board_move(m: MoveData) -> Result<BoardMove, ApplyError> {
    match spec_square(m.to) {
        None => Err(ApplyError::InvalidSquare { x: m.to.x, y: m.to.y }),
        Some(to) => match m.from {
            Some(f) => match spec_square(f) {
                None => Err(ApplyError::InvalidSquare { x: f.x, y: f.y }),
                Some(from) => Ok(
                    BoardMove {
                        from: Some(from),
                        to,
                        promote: m.promote == Some(true),
                        kind: 0,
                        white: m.white,
                    },
                ),
            },
            None => if spec_is_promoted(m.piece) {
                Err(ApplyError::PromotedDropNotAllowed(m.piece))
            } else {
                match spec_piece_kind(m.piece) {
                    None => Err(ApplyError::UnsupportedKind(m.piece)),
                    Some(kind) => Ok(
                        BoardMove { from: None, to, promote: false, kind, white: m.white },
                    ),
                }
            },
        },
    }
}

/// What applying a node to a position of the cells `cells` gives: the status
/// and the cells afterwards, or why the node's move cannot be applied.
pub open spec fn apply_result(cells: Seq<u8>, action: NodeAction) -> Result<
    (ApplyStatus, Seq<u8>),
    ApplyError,
> {
    match action {
        NodeAction::Move(m) => {
            let pos_white = cells[0] == 2;
            if m.white != pos_white {
                Err(ApplyError::SideToMoveMismatch { pos_white, mv_white: m.white })
            } else {
                match spec_board_move(m) {
                    Err(e) => Err(e),
                    Ok(bm) => match cells_after_move(cells, bm) {
                        Some(after) => Ok((ApplyStatus::Applied, after)),
                        None => Err(ApplyError::ApplyFailed),
                    },
                }
            }
        },
        NodeAction::Special => Ok((ApplyStatus::Terminal, cells)),
        NodeAction::Noop => Ok((ApplyStatus::Noop, cells)),
    }
}

pub fn to_square(p: Place) -> (r: Result<u8, ApplyError>)
    ensures
        match spec_square(p) {
            Some(sq) => r == Ok::<u8, ApplyError>(sq) && 1 <= sq <= 81,
            None => r == Err::<u8, ApplyError>(ApplyError::InvalidSquare { x: p.x, y: p.y }),
        },
{
    if 1 <= p.x && p.x <= 9 && 1 <= p.y && p.y <= 9 {
        Ok(9 * p.x + p.y - 9)
    } else {
        Err(ApplyError::InvalidSquare { x: p.x, y: p.y })
    }
}

pub fn to_piece_kind(code: u8) -> (r: Result<u8, ApplyError>)
    ensures
        match spec_piece_kind(code) {
            Some(k) => r == Ok::<u8, ApplyError>(k) && 1 <= k <= 14,
            None => r == Err::<u8, ApplyError>(ApplyError::UnsupportedKind(code)),
        },
{
    if code <= 13 {
        Ok(code + 1)
    } else {
        Err(ApplyError::UnsupportedKind(code))
    }
}

pub fn is_promoted_kind(code: u8) -> (b: bool)
    ensures
        b == spec_is_promoted(code),
{
    8 <= code && code <= 13
}

/// Turns a move of a game record into a move of the position rules.
pub fn jkf_move_to_core_move(m: MoveData) -> (r: Result<BoardMove, ApplyError>)
    ensures
        r == spec_board_move(m),
        r is Ok ==> r->Ok_0.wf(),
{
    let to = match to_square(m.to) {
        Ok(v) => v,
        Err(e) => {
            return Err(e);
        },
    };
    match m.from {
        Some(f) => {
            let from = match to_square(f) {
                Ok(v) => v,
                Err(e) => {
                    return Err(e);
                },
            };
            let promote = match m.promote {
                Some(true) => true,
                _ => false,
            };
            Ok(BoardMove { from: Some(from), to, promote, kind: 0, white: m.white })
        },
        None => {
            if is_promoted_kind(m.piece) {
                return Err(ApplyError::PromotedDropNotAllowed(m.piece));
            }
            let kind = match to_piece_kind(m.piece) {
                Ok(v) => v,
                Err(e) => {
                    return Err(e);
                },
            };
            Ok(BoardMove { from: None, to, promote: false, kind, white: m.white })
        },
    }
}

/// Applies one node of a move tree to a position. A move by the wrong side,
/// with a square or a piece that does not exist, or that the position does
/// not admit, is an error and leaves the position as it is.
pub fn apply_node_action(pos: &mut PartialPosition, action: NodeAction) -> (r: Result<
    ApplyStatus,
    ApplyError,
>)
    ensures
        match apply_result(position_cells(*old(pos)), action) {
            Ok((status, after)) => r == Ok::<ApplyStatus, ApplyError>(status) && position_cells(
                *final(pos),
            ) == after,
            Err(e) => r == Err::<ApplyStatus, ApplyError>(e) && position_cells(*final(pos))
                == position_cells(*old(pos)),
        },
{
    match action {
        NodeAction::Move(m) => {
            let pos_white = white_to_move(pos);
            if m.white != pos_white {
                return Err(ApplyError::SideToMoveMismatch { pos_white, mv_white: m.white });
            }
            let bm = match jkf_move_to_core_move(m) {
                Ok(v) => v,
                Err(e) => {
                    return Err(e);
                },
            };
            if make_move(pos, bm) {
                Ok(ApplyStatus::Applied)
            } else {
                Err(ApplyError::ApplyFailed)
            }
        },
        NodeAction::Special => Ok(ApplyStatus::Terminal),
        NodeAction::Noop => Ok(ApplyStatus::Noop),
    }
}

/// The name of a side in messages.
pub open spec fn side_name(white: bool) -> Seq<char> {
    if white {
        "White"@
    } else {
        "Black"@
    }
}

impl ApplyError {
    /// The error in words. A piece kind is given by its code.
    pub open spec fn spec_message(self) -> Seq<char> {
        match self {
            ApplyError::InvalidSquare { x, y } => "invalid square: x="@ + spec_decimal(x as nat)
                + ", y="@ + spec_decimal(y as nat),
            ApplyError::UnsupportedKind(k) => "unsupported piece kind in JKF: "@ + spec_decimal(
                k as nat,
            ),
            ApplyError::PromotedDropNotAllowed(k) => "drop with promoted kind is not allowed: "@
                + spec_decimal(k as nat),
            ApplyError::SideToMoveMismatch { pos_white, mv_white } => "side-to-move mismatch: pos="@
                + side_name(pos_white) + ", mv="@ + side_name(mv_white),
            ApplyError::ApplyFailed => "cannot apply move"@,
        }
    }

    /// Writes the error in words at the end of `out`.
    pub fn append_message(&self, out: &mut String)
        ensures
            final(out)@ == old(out)@ + self.spec_message(),
    {
        match *self {
            ApplyError::InvalidSquare { x, y } => {
                out.append("invalid square: x=");
                append_decimal(out, x as u64);
                out.append(", y=");
                append_decimal(out, y as u64);
            },
            ApplyError::UnsupportedKind(k) => {
                out.append("unsupported piece kind in JKF: ");
                append_decimal(out, k as u64);
            },
            ApplyError::PromotedDropNotAllowed(k) => {
                out.append("drop with promoted kind is not allowed: ");
                append_decimal(out, k as u64);
            },
            ApplyError::SideToMoveMismatch { pos_white, mv_white } => {
                out.append("side-to-move mismatch: pos=");
                out.append(if pos_white { "White" } else { "Black" });
                out.append(", mv=");
                out.append(if mv_white { "White" } else { "Black" });
            },
            ApplyError::ApplyFailed => {
                out.append("cannot apply move");
            },
        }
        proof {
            assert(out@ =~= old(out)@ + self.spec_message());
        }
    }

    /// The error in words.
    pub fn message(&self) -> (s: String)
        ensures
            s@ == self.spec_message(),
    {
        let mut s = String::new();
        self.append_message(&mut s);
        proof {
            assert(s@ =~= self.spec_message());
        }
        s
    }
}

} // verus!
