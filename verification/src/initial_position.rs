use vstd::prelude::*;
use vstd::string::*;
use crate::text::{append_decimal, spec_decimal};
use shogi_core::PartialPosition;
use crate::position::{
    add_to_hand, empty_position, hand_cell, piece_code, place_piece, position_cells,
    set_side_to_move, side_code, startpos, startpos_cells, CELL_COUNT,
};
use crate::traverse::{Initial, Jkf, SquareData, StateData};

verus! {

/// Why a game record has no starting position.
#[derive(Debug, Clone, Copy, PartialEq, Eq, Structural)]
pub enum InitialPosError {
    /// A handicap is named, and the position is not given with it.
    UnsupportedPreset(u8),
    /// A square holds a code that is that of no piece kind.
    UnsupportedKind(u8),
    /// The explicit position has not 81 squares and 14 counts in hand.
    MalformedState,
}

/// The code of the piece on a square of an explicit position: 0 unless it
/// has both a colour and a kind.
pub open spec fn square_code(sq: SquareData) -> u8 {
    match (sq.white, sq.kind) {
        (Some(w), Some(k)) => piece_code((k + 1) as u8, w),
        _ => 0,
    }
}

/// Whether a square holds a piece whose kind code is that of no piece kind.
pub open spec fn bad_kind(sq: SquareData) -> bool {
    sq.white is Some && sq.kind is Some && sq.kind->Some_0 > 13
}

/// The index of the first square with a bad kind code.
pub open spec fn first_bad_square(board: Seq<SquareData>) -> int {
    choose|i: int|
        0 <= i < board.len() && bad_kind(#[trigger] board[i]) && forall|j: int|
            0 <= j < i ==> !bad_kind(#[trigger] board[j])
}

pub open spec fn has_bad_square(board: Seq<SquareData>) -> bool {
    exists|i: int| 0 <= i < board.len() && bad_kind(#[trigger] board[i])
}

/// The cells of an explicit position.
pub open spec fn state_cells(state: StateData) -> Seq<u8> {
    Seq::new(
        CELL_COUNT as nat,
        |i: int|
            if i == 0 {
                side_code(state.white_to_move)
            } else if i <= 81 {
                square_code(state.board@[i - 1])
            } else {
                state.hands@[i - 82]
            },
    )
}

/// The cells of the position an explicit state describes, or why it
/// describes none.
pub open spec fn state_result(state: StateData) -> Result<Seq<u8>, InitialPosError> {
    if state.board@.len() != 81 || state.hands@.len() != 14 {
        Err(InitialPosError::MalformedState)
    } else if has_bad_square(state.board@) {
        Err(
            InitialPosError::UnsupportedKind(
                state.board@[first_bad_square(state.board@)].kind->Some_0,
            ),
        )
    } else {
        Ok(state_cells(state))
    }
}

/// The cells of the position a game record starts from: the usual starting
/// position where the record says nothing or names the even game without
/// data, the explicit position where it gives one; a handicap without data
/// is not supported.
pub open spec fn initial_result(initial: Option<Initial>) -> Result<Seq<u8>, InitialPosError> {
    match initial {
        None => Ok(startpos_cells()),
        Some(init) => match init.data {
            Some(state) => state_result(state),
            None => if init.preset == 0 {
                Ok(startpos_cells())
            } else {
                Err(InitialPosError::UnsupportedPreset(init.preset))
            },
        },
    }
}

/// The cells while the squares up to index `n` are set and nothing is in hand.
pub open spec fn board_cells_upto(state: StateData, n: int) -> Seq<u8> {
    Seq::new(
        CELL_COUNT as nat,
        |i: int|
            if i == 0 {
                side_code(state.white_to_move)
            } else if i <= n {
                square_code(state.board@[i - 1])
            } else {
                0u8
            },
    )
}

/// The cells while the board is set and the first `n` counts in hand.
pub open spec fn hand_cells_upto(state: StateData, n: int) -> Seq<u8> {
    Seq::new(
        CELL_COUNT as nat,
        |i: int|
            if i == 0 {
                side_code(state.white_to_move)
            } else if i <= 81 {
                square_code(state.board@[i - 1])
            } else if i - 82 < n {
                state.hands@[i - 82]
            } else {
                0u8
            },
    )
}

/// Puts `n` pieces of one hand kind into a hand that holds none of it.
fn fill_hand(pos: &mut PartialPosition, white: bool, kind: u8, n: u8)
    requires
        1 <= kind <= 7,
        position_cells(*old(pos)).len() == CELL_COUNT,
        position_cells(*old(pos))[hand_cell(white, kind)] == 0,
    ensures
        position_cells(*final(pos)) == position_cells(*old(pos)).update(hand_cell(white, kind), n),
{
    let ghost start = position_cells(*pos);
    let mut j: u8 = 0;
    proof {
        assert(start.update(hand_cell(white, kind), 0) =~= start);
    }
    while j < n
        invariant
            j <= n,
            1 <= kind <= 7,
            start.len() == CELL_COUNT,
            start[hand_cell(white, kind)] == 0,
            position_cells(*pos) == start.update(hand_cell(white, kind), j),
        decreases n - j,
    {
        let ghost before = position_cells(*pos);
        let ok = add_to_hand(pos, white, kind);
        proof {
            let c = hand_cell(white, kind);
            assert(before[c] == j);
            assert(position_cells(*pos) =~= start.update(c, (j + 1) as u8));
        }
        j += 1;
    }
}

/// Builds the position that an explicit state describes.
pub fn partial_from_state(state: &StateData) -> (r: Result<PartialPosition, InitialPosError>)
    ensures
        match state_result(*state) {
            Ok(cells) => r is Ok && position_cells(r->Ok_0) == cells,
            Err(e) => r is Err && r->Err_0 == e,
        },
{
    if state.board.len() != 81 || state.hands.len() != 14 {
        return Err(InitialPosError::MalformedState);
    }
    let mut pos = empty_position();
    set_side_to_move(&mut pos, state.white_to_move);
    proof {
        assert(position_cells(pos) =~= board_cells_upto(*state, 0));
    }
    let mut sq: u8 = 1;
    while sq <= 81
        invariant
            1 <= sq <= 82,
            state.board@.len() == 81,
            state.hands@.len() == 14,
            position_cells(pos) == board_cells_upto(*state, sq - 1),
            forall|j: int| 0 <= j < sq - 1 ==> !bad_kind(#[trigger] state.board@[j]),
        decreases 82 - sq,
    {
        let cell = state.board[(sq - 1) as usize];
        match (cell.white, cell.kind) {
            (Some(w), Some(k)) => {
                if k > 13 {
                    proof {
                        let i = first_bad_square(state.board@);
                        assert(bad_kind(state.board@[sq - 1]));
                        if i < sq - 1 {
                            assert(!bad_kind(state.board@[i]));
                        }
                        if sq - 1 < i {
                            assert(!bad_kind(state.board@[sq - 1]));
                        }
                    }
                    return Err(InitialPosError::UnsupportedKind(k));
                }
                place_piece(&mut pos, sq, k + 1, w);
            },
            _ => {},
        }
        proof {
            assert(position_cells(pos) =~= board_cells_upto(*state, sq as int));
        }
        sq += 1;
    }
    proof {
        assert(position_cells(pos) =~= hand_cells_upto(*state, 0));
        if has_bad_square(state.board@) {
            let i = choose|i: int| 0 <= i < state.board@.len() && bad_kind(#[trigger] state.board@[i]);
            assert(!bad_kind(state.board@[i]));
        }
    }
    let mut h: u8 = 0;
    while h < 14
        invariant
            h <= 14,
            state.board@.len() == 81,
            state.hands@.len() == 14,
            position_cells(pos) == hand_cells_upto(*state, h as int),
        decreases 14 - h,
    {
        let white = h >= 7;
        let kind: u8 = if white { h - 6 } else { h + 1 };
        proof {
            assert(hand_cell(white, kind) == 82 + h);
        }
        fill_hand(&mut pos, white, kind, state.hands[h as usize]);
        proof {
            assert(position_cells(pos) =~= hand_cells_upto(*state, h + 1));
        }
        h += 1;
    }
    proof {
        assert(hand_cells_upto(*state, 14) =~= state_cells(*state));
    }
    Ok(pos)
}

/// The position a game record starts from.
pub fn initial_partial_position(jkf: &Jkf) -> (r: Result<PartialPosition, InitialPosError>)
    ensures
        match initial_result(jkf.initial) {
            Ok(cells) => r is Ok && position_cells(r->Ok_0) == cells,
            Err(e) => r is Err && r->Err_0 == e,
        },
{
    match &jkf.initial {
        None => Ok(startpos()),
        Some(init) => match &init.data {
            Some(state) => partial_from_state(state),
            None => {
                if init.preset == 0 {
                    Ok(startpos())
                } else {
                    Err(InitialPosError::UnsupportedPreset(init.preset))
                }
            },
        },
    }
}

impl InitialPosError {
    /// The error in words. A preset and a piece kind are given by their codes.
    pub open spec fn spec_message(self) -> Seq<char> {
        match self {
            InitialPosError::UnsupportedPreset(p) => "unsupported preset without explicit data: "@
                + spec_decimal(p as nat),
            InitialPosError::UnsupportedKind(k) => "unsupported piece kind in JKF: "@
                + spec_decimal(k as nat),
            InitialPosError::MalformedState => "malformed explicit position"@,
        }
    }

    /// Writes the error in words at the end of `out`.
    pub fn append_message(&self, out: &mut String)
        ensures
            final(out)@ == old(out)@ + self.spec_message(),
    {
        match *self {
            InitialPosError::UnsupportedPreset(p) => {
                out.append("unsupported preset without explicit data: ");
                append_decimal(out, p as u64);
            },
            InitialPosError::UnsupportedKind(k) => {
                out.append("unsupported piece kind in JKF: ");
                append_decimal(out, k as u64);
            },
            InitialPosError::MalformedState => {
                out.append("malformed explicit position");
            },
        }
        proof {
            assert(out@ =~= old(out)@ + self.spec_message());
        }
    }

    /// The error in words.
    pub fn message(&self) -> (s: String)
        ensures
            s@ == self.spec_message(),
    {
        let mut s = String::new();
        self.append_message(&mut s);
        proof {
            assert(s@ =~= self.spec_message());
        }
        s
    }
}

} // verus!
