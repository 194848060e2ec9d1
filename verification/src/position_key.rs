use vstd::prelude::*;
use vstd::arithmetic::div_mod::{lemma_add_mod_noop, lemma_small_mod};
use shogi_core::PartialPosition;
use crate::position::{hand_cell, hand_count, piece_at, position_cells, white_to_move};

verus! {

/// A 128-bit position hash held as two 64-bit halves.
#[derive(Debug, Clone, Copy, PartialEq, Eq, Structural, Hash)]
pub struct PositionKey {
    pub z0: u64,
    pub z1: u64,
}

/// The shard of a key whose first half is `z0`: its topmost byte.
pub open spec fn top_byte(z0: u64) -> u8 {
    (z0 >> 56) as u8
}

impl PositionKey {
    /// The key with no bit set, the neutral element of `spec_xor`.
    pub open spec fn spec_zero() -> PositionKey {
        PositionKey { z0: 0, z1: 0 }
    }

    pub fn zero() -> (k: Self)
        ensures
            k == Self::spec_zero(),
    {
        PositionKey { z0: 0, z1: 0 }
    }

    /// The shard a key belongs to.
    pub open spec fn spec_bucket(self) -> u8 {
        top_byte(self.z0)
    }

    /// The exclusive-or of two keys, half by half.
    pub open spec fn spec_xor(self, rhs: PositionKey) -> PositionKey {
        PositionKey { z0: self.z0 ^ rhs.z0, z1: self.z1 ^ rhs.z1 }
    }

    /// The key read as one 128-bit number, first half high. Keys are ordered
    /// by this number: by their first half, then by their second.
    pub open spec fn as_int(self) -> int {
        self.z0 * 0x1_0000_0000_0000_0000 + self.z1
    }

    pub open spec fn spec_lt(self, rhs: PositionKey) -> bool {
        self.as_int() < rhs.as_int()
    }

    pub open spec fn spec_le(self, rhs: PositionKey) -> bool {
        self.as_int() <= rhs.as_int()
    }

    pub fn bucket(self) -> (b: u8)
        ensures
            b == self.spec_bucket(),
    {
        let z: u64 = self.z0;
        let top: u64 = z >> 56;
        assert(top < 256) by (bit_vector)
            requires
                top == z >> 56,
        ;
        top as u8
    }

    pub fn xor_assign(&mut self, rhs: PositionKey)
        ensures
            *final(self) == old(self).spec_xor(rhs),
    {
        self.z0 = self.z0 ^ rhs.z0;
        self.z1 = self.z1 ^ rhs.z1;
    }

    pub fn key_lt(self, rhs: PositionKey) -> (b: bool)
        ensures
            b == self.spec_lt(rhs),
    {
        self.z0 < rhs.z0 || (self.z0 == rhs.z0 && self.z1 < rhs.z1)
    }

    pub fn key_le(self, rhs: PositionKey) -> (b: bool)
        ensures
            b == self.spec_le(rhs),
    {
        self.z0 < rhs.z0 || (self.z0 == rhs.z0 && self.z1 <= rhs.z1)
    }

    /// Two keys are the same number only if they are the same key.
    pub proof fn lemma_as_int_injective(a: PositionKey, b: PositionKey)
        ensures
            a.as_int() == b.as_int() <==> a == b,
    {
    }
}

/// The increment of the generator's state.
pub const GOLDEN: u64 = 0x9E37_79B9_7F4A_7C15;

/// The range of the generator's state.
pub open spec fn two_64() -> nat {
    0x1_0000_0000_0000_0000
}

/// The output that the generator derives from its state `x`.
pub open spec fn spec_mix(x: u64) -> u64 {
    let a = (x ^ (x >> 30)).wrapping_mul(0xBF58_476D_1CE4_E5B9);
    let b = (a ^ (a >> 27)).wrapping_mul(0x94D0_49BB_1331_11EB);
    b ^ (b >> 31)
}

/// The generator's state after `n` draws: it starts at `GOLDEN` and moves on
/// by `GOLDEN` at each draw, modulo 2^64.
pub open spec fn seed_after(n: nat) -> u64 {
    ((GOLDEN as nat * (n + 1)) % two_64()) as u64
}

/// The `n`-th number the generator yields, counting from 0.
pub open spec fn draw(n: nat) -> u64 {
    spec_mix(seed_after(n + 1))
}

/// The `i`-th constant of the table: two numbers in a row.
pub open spec fn table_key(i: nat) -> PositionKey {
    PositionKey { z0: draw(2 * i), z1: draw(2 * i + 1) }
}

/// Moving the state on by one draw.
pub proof fn lemma_seed_step(n: nat)
    ensures
        seed_after(n).wrapping_add(GOLDEN) == seed_after(n + 1),
{
    let m = two_64() as int;
    let g = GOLDEN as int;
    let a = (g * (n + 1)) % m;
    assert(g * (n + 2) == g * (n + 1) + g) by (nonlinear_arith);
    lemma_add_mod_noop(g * (n + 1), g, m);
    lemma_small_mod(GOLDEN as nat, two_64());
    assert((a + g) % m == (g * (n + 2)) % m);
    assert(0 <= a < m);
    if a + g >= m {
        assert((a + g) % m == a + g - m) by {
            lemma_small_mod((a + g - m) as nat, two_64());
            vstd::arithmetic::div_mod::lemma_mod_sub_multiples_vanish(a + g, m);
        }
    } else {
        lemma_small_mod((a + g) as nat, two_64());
    }
}

/// One step of the generator: moves the state on and yields a number.
pub fn splitmix64(x: &mut u64) -> (r: u64)
    ensures
        *final(x) == old(x).wrapping_add(GOLDEN),
        r == spec_mix(*final(x)),
{
    *x = x.wrapping_add(GOLDEN);
    let mut z: u64 = *x;
    z = (z ^ (z >> 30)).wrapping_mul(0xBF58_476D_1CE4_E5B9);
    z = (z ^ (z >> 27)).wrapping_mul(0x94D0_49BB_1331_11EB);
    z ^ (z >> 31)
}

/// Draws the two halves of one constant.
pub fn next128(seed: &mut u64) -> (k: PositionKey)
    ensures
        *final(seed) == old(seed).wrapping_add(GOLDEN).wrapping_add(GOLDEN),
        k.z0 == spec_mix(old(seed).wrapping_add(GOLDEN)),
        k.z1 == spec_mix(*final(seed)),
{
    let z0 = splitmix64(seed);
    let z1 = splitmix64(seed);
    PositionKey { z0, z1 }
}

/// The number of constants of one colour: one for the side to move, one for
/// each of 14 piece kinds on each of 81 squares, and one for each of 7 hand
/// kinds at each count from 0 to 18.
pub const PER_COLOR: u32 = 1268;

/// The highest count in hand that has a constant of its own; every higher
/// count shares it.
pub const HAND_CAP: u8 = 18;

pub open spec fn color_base(white: bool) -> nat {
    if white {
        PER_COLOR as nat
    } else {
        0
    }
}

/// The index of the constant for the side to move.
pub open spec fn side_index(white: bool) -> nat {
    color_base(white)
}

/// The index of the constant for a piece of kind `kind`, 1 to 14, on the
/// square of index `sq`, 1 to 81.
pub open spec fn board_index(white: bool, kind: u8, sq: u8) -> nat {
    (color_base(white) + 1 + (kind - 1) * 81 + (sq - 1)) as nat
}

/// The index of the constant for `count` pieces in hand of the hand kind
/// `kind`, 1 to 7; counts above `HAND_CAP` count as `HAND_CAP`.
pub open spec fn hand_index(white: bool, kind: u8, count: u8) -> nat {
    (color_base(white) + 1135 + (kind - 1) * 19 + if count > HAND_CAP {
        HAND_CAP
    } else {
        count
    }) as nat
}

/// What the square `sq` adds to a key: nothing if it is vacant, else the
/// constant of the piece on it.
pub open spec fn square_key(cells: Seq<u8>, sq: u8) -> PositionKey {
    let code = cells[sq as int];
    if code == 0 {
        PositionKey::spec_zero()
    } else if code >= 16 {
        table_key(board_index(true, (code - 16) as u8, sq))
    } else {
        table_key(board_index(false, code, sq))
    }
}

/// The exclusive-or of what the squares 1 to `n` add to a key.
pub open spec fn board_key(cells: Seq<u8>, n: nat) -> PositionKey
    decreases n,
{
    if n == 0 {
        PositionKey::spec_zero()
    } else {
        board_key(cells, (n - 1) as nat).spec_xor(square_key(cells, n as u8))
    }
}

/// The exclusive-or of the constants of a player's counts in hand of the
/// hand kinds 1 to `k`.
pub open spec fn hand_key(cells: Seq<u8>, white: bool, k: nat) -> PositionKey
    decreases k,
{
    if k == 0 {
        PositionKey::spec_zero()
    } else {
        hand_key(cells, white, (k - 1) as nat).spec_xor(
            table_key(hand_index(white, k as u8, cells[hand_cell(white, k as u8)])),
        )
    }
}

/// The key of a position that holds `cells`: the exclusive-or of the
/// constant of the side to move, that of every piece on its square, and
/// that of every count in hand.
pub open spec fn key_of_cells(cells: Seq<u8>) -> PositionKey {
    table_key(side_index(cells[0] == 2)).spec_xor(board_key(cells, 81)).spec_xor(
        hand_key(cells, false, 7),
    ).spec_xor(hand_key(cells, true, 7))
}

/// The `i`-th constant, computed from its index alone.
pub fn zobrist_constant(i: u32) -> (k: PositionKey)
    requires
        i < 2 * PER_COLOR,
    ensures
        k == table_key(i as nat),
{
    let d: u64 = 2 * (i as u64);
    let z0 = mix(GOLDEN.wrapping_mul(d + 2));
    let z1 = mix(GOLDEN.wrapping_mul(d + 3));
    PositionKey { z0, z1 }
}

fn mix(x: u64) -> (r: u64)
    ensures
        r == spec_mix(x),
{
    let a = (x ^ (x >> 30)).wrapping_mul(0xBF58_476D_1CE4_E5B9);
    let b = (a ^ (a >> 27)).wrapping_mul(0x94D0_49BB_1331_11EB);
    b ^ (b >> 31)
}

fn hand_key_of(pos: &PartialPosition, white: bool) -> (k: PositionKey)
    ensures
        k == hand_key(position_cells(*pos), white, 7),
{
    let base: u32 = if white { PER_COLOR } else { 0 };
    let mut k = PositionKey::zero();
    let mut kind: u8 = 1;
    while kind <= 7
        invariant
            1 <= kind <= 8,
            base == color_base(white),
            k == hand_key(position_cells(*pos), white, (kind - 1) as nat),
        decreases 8 - kind,
    {
        let cnt = hand_count(pos, white, kind);
        let capped: u8 = if cnt > HAND_CAP { HAND_CAP } else { cnt };
        let idx: u32 = base + 1135 + (kind as u32 - 1) * 19 + capped as u32;
        k.xor_assign(zobrist_constant(idx));
        kind += 1;
    }
    k
}

/// The key of a position, computed in full: a pure function of the side to
/// move, the pieces on the squares and the counts in hand.
pub fn key_from_partial_position(pos: &PartialPosition) -> (key: PositionKey)
    ensures
        key == key_of_cells(position_cells(*pos)),
{
    let white = white_to_move(pos);
    let mut key = zobrist_constant(if white { PER_COLOR } else { 0 });
    let mut board = PositionKey::zero();
    let mut sq: u8 = 1;
    while sq <= 81
        invariant
            1 <= sq <= 82,
            board == board_key(position_cells(*pos), (sq - 1) as nat),
        decreases 82 - sq,
    {
        let code = piece_at(pos, sq);
        if code != 0 {
            let idx: u32 = if code >= 16 {
                PER_COLOR + 1 + (code as u32 - 17) * 81 + (sq as u32 - 1)
            } else {
                1 + (code as u32 - 1) * 81 + (sq as u32 - 1)
            };
            board.xor_assign(zobrist_constant(idx));
        } else {
            proof {
                lemma_xor_zero(board);
            }
        }
        sq += 1;
    }
    key.xor_assign(board);
    key.xor_assign(hand_key_of(pos, false));
    key.xor_assign(hand_key_of(pos, true));
    key
}

/// Exclusive-or with the key of no bits changes nothing.
pub proof fn lemma_xor_zero(k: PositionKey)
    ensures
        k.spec_xor(PositionKey::spec_zero()) == k,
{
    let a = k.z0;
    let b = k.z1;
    assert(a ^ 0 == a) by (bit_vector);
    assert(b ^ 0 == b) by (bit_vector);
}

/// Determinism: the key of a position depends on nothing but its cells. Two
/// positions that agree in the side to move, on every square and in every
/// count in hand have the same key, however they were reached.
pub proof fn lemma_key_determined_by_cells(a: Seq<u8>, b: Seq<u8>)
    requires
        forall|i: int| 0 <= i < 96 ==> a[i] == b[i],
    ensures
        key_of_cells(a) == key_of_cells(b),
{
    lemma_board_key_agrees(a, b, 81);
    lemma_hand_key_agrees(a, b, false, 7);
    lemma_hand_key_agrees(a, b, true, 7);
}

proof fn lemma_board_key_agrees(a: Seq<u8>, b: Seq<u8>, n: nat)
    requires
        n <= 81,
        forall|i: int| 0 <= i < 96 ==> a[i] == b[i],
    ensures
        board_key(a, n) == board_key(b, n),
    decreases n,
{
    if n > 0 {
        lemma_board_key_agrees(a, b, (n - 1) as nat);
        assert(a[n as int] == b[n as int]);
    }
}

proof fn lemma_hand_key_agrees(a: Seq<u8>, b: Seq<u8>, white: bool, k: nat)
    requires
        k <= 7,
        forall|i: int| 0 <= i < 96 ==> a[i] == b[i],
    ensures
        hand_key(a, white, k) == hand_key(b, white, k),
    decreases k,
{
    if k > 0 {
        lemma_hand_key_agrees(a, b, white, (k - 1) as nat);
        assert(a[hand_cell(white, k as u8)] == b[hand_cell(white, k as u8)]);
    }
}

/// All constants, drawn once and kept for look-up.
#[derive(Debug, Clone)]
pub struct ZobristTable {
    /// The constant of each side to move.
    side: Vec<PositionKey>,
    /// The constant of each piece on each square: by colour, kind and square.
    board: Vec<PositionKey>,
    /// The constant of each count in hand: by colour, hand kind and count.
    hand: Vec<PositionKey>,
}

/// The index in the generator's order of the `i`-th board constant.
pub open spec fn board_slot(i: int) -> nat {
    ((i / 1134) * 1268 + 1 + i % 1134) as nat
}

/// The index in the generator's order of the `i`-th hand constant.
pub open spec fn hand_slot(i: int) -> nat {
    ((i / 133) * 1268 + 1135 + i % 133) as nat
}

/// Where the table keeps the constant of a piece on a square.
pub open spec fn board_place(white: bool, kind: u8, sq: u8) -> int {
    (if white { 1134int } else { 0int }) + (kind - 1) * 81 + (sq - 1)
}

/// Where the table keeps the constant of a count in hand.
pub open spec fn hand_place(white: bool, kind: u8, count: u8) -> int {
    (if white { 133int } else { 0int }) + (kind - 1) * 19 + if count > HAND_CAP {
        HAND_CAP as int
    } else {
        count as int
    }
}

proof fn lemma_board_slot(white: bool, kind: u8, sq: u8)
    requires
        1 <= kind <= 14,
        1 <= sq <= 81,
    ensures
        0 <= board_place(white, kind, sq) < 2268,
        board_slot(board_place(white, kind, sq)) == board_index(white, kind, sq),
{
    let r = (kind - 1) * 81 + (sq - 1);
    assert(0 <= r < 1134);
    if white {
        assert((1134 + r) / 1134 == 1);
        assert((1134 + r) % 1134 == r);
    } else {
        assert(r / 1134 == 0);
        assert(r % 1134 == r);
    }
}

proof fn lemma_hand_slot(white: bool, kind: u8, count: u8)
    requires
        1 <= kind <= 7,
    ensures
        0 <= hand_place(white, kind, count) < 266,
        hand_slot(hand_place(white, kind, count)) == hand_index(white, kind, count),
{
    let capped: int = if count > HAND_CAP { HAND_CAP as int } else { count as int };
    let r = (kind - 1) * 19 + capped;
    assert(0 <= r < 133);
    if white {
        assert((133 + r) / 133 == 1);
        assert((133 + r) % 133 == r);
    } else {
        assert(r / 133 == 0);
        assert(r % 133 == r);
    }
}

impl ZobristTable {
    /// Every entry is the constant that the generator yields at its place.
    pub closed spec fn wf(&self) -> bool {
        &&& self.side@.len() == 2
        &&& self.side@[0] == table_key(0)
        &&& self.side@[1] == table_key(PER_COLOR as nat)
        &&& self.board@.len() == 2268
        &&& forall|i: int| 0 <= i < 2268 ==> #[trigger] self.board@[i] == table_key(board_slot(i))
        &&& self.hand@.len() == 266
        &&& forall|i: int| 0 <= i < 266 ==> #[trigger] self.hand@[i] == table_key(hand_slot(i))
    }

    /// Draws all constants in the generator's order: for black and then for
    /// white the side constant, the board constants and the hand constants.
    pub fn new() -> (t: Self)
        ensures
            t.wf(),
    {
        let mut seed: u64 = GOLDEN;
        let mut side: Vec<PositionKey> = Vec::new();
        let mut board: Vec<PositionKey> = Vec::new();
        let mut hand: Vec<PositionKey> = Vec::new();
        let mut c: usize = 0;
        proof {
            lemma_small_mod(GOLDEN as nat, two_64());
        }
        while c < 2
            invariant
                c <= 2,
                seed == seed_after((2 * c * 1268) as nat),
                side@.len() == c,
                board@.len() == c * 1134,
                hand@.len() == c * 133,
                forall|i: int| 0 <= i < c ==> #[trigger] side@[i] == table_key((i * 1268) as nat),
                forall|i: int|
                    0 <= i < board@.len() ==> #[trigger] board@[i] == table_key(board_slot(i)),
                forall|i: int|
                    0 <= i < hand@.len() ==> #[trigger] hand@[i] == table_key(hand_slot(i)),
            decreases 2 - c,
        {
            proof {
                lemma_seed_step((2 * c * 1268) as nat);
                lemma_seed_step((2 * c * 1268 + 1) as nat);
            }
            side.push(next128(&mut seed));
            let mut j: usize = 0;
            while j < 1134
                invariant
                    c < 2,
                    j <= 1134,
                    seed == seed_after((2 * (c * 1268 + 1 + j)) as nat),
                    board@.len() == c * 1134 + j,
                    forall|i: int|
                        0 <= i < board@.len() ==> #[trigger] board@[i] == table_key(
                            board_slot(i),
                        ),
                decreases 1134 - j,
            {
                proof {
                    let n = c * 1268 + 1 + j;
                    lemma_seed_step((2 * n) as nat);
                    lemma_seed_step((2 * n + 1) as nat);
                    assert(board_slot(c * 1134 + j) == n);
                }
                board.push(next128(&mut seed));
                j += 1;
            }
            let mut j: usize = 0;
            while j < 133
                invariant
                    c < 2,
                    j <= 133,
                    seed == seed_after((2 * (c * 1268 + 1135 + j)) as nat),
                    hand@.len() == c * 133 + j,
                    forall|i: int|
                        0 <= i < hand@.len() ==> #[trigger] hand@[i] == table_key(hand_slot(i)),
                decreases 133 - j,
            {
                proof {
                    let n = c * 1268 + 1135 + j;
                    lemma_seed_step((2 * n) as nat);
                    lemma_seed_step((2 * n + 1) as nat);
                    assert(hand_slot(c * 133 + j) == n);
                }
                hand.push(next128(&mut seed));
                j += 1;
            }
            c += 1;
        }
        ZobristTable { side, board, hand }
    }

    /// The key of a position, by look-up in the table.
    pub fn key_of(&self, pos: &PartialPosition) -> (key: PositionKey)
        requires
            self.wf(),
        ensures
            key == key_of_cells(position_cells(*pos)),
    {
        let white = white_to_move(pos);
        let mut key = self.side[if white { 1 } else { 0 }];
        let mut board = PositionKey::zero();
        let mut sq: u8 = 1;
        while sq <= 81
            invariant
                1 <= sq <= 82,
                self.wf(),
                board == board_key(position_cells(*pos), (sq - 1) as nat),
            decreases 82 - sq,
        {
            let code = piece_at(pos, sq);
            if code != 0 {
                let idx: usize = if code >= 16 {
                    1134 + (code as usize - 17) * 81 + (sq as usize - 1)
                } else {
                    (code as usize - 1) * 81 + (sq as usize - 1)
                };
                proof {
                    let white_piece = code >= 16;
                    let kind: u8 = if white_piece { (code - 16) as u8 } else { code };
                    lemma_board_slot(white_piece, kind, sq);
                }
                board.xor_assign(self.board[idx]);
            } else {
                proof {
                    lemma_xor_zero(board);
                }
            }
            sq += 1;
        }
        key.xor_assign(board);
        key.xor_assign(self.hand_key_of(pos, false));
        key.xor_assign(self.hand_key_of(pos, true));
        key
    }

    fn hand_key_of(&self, pos: &PartialPosition, white: bool) -> (k: PositionKey)
        requires
            self.wf(),
        ensures
            k == hand_key(position_cells(*pos), white, 7),
    {
        let base: usize = if white { 133 } else { 0 };
        let mut k = PositionKey::zero();
        let mut kind: u8 = 1;
        while kind <= 7
            invariant
                1 <= kind <= 8,
                self.wf(),
                base == if white { 133int } else { 0int },
                k == hand_key(position_cells(*pos), white, (kind - 1) as nat),
            decreases 8 - kind,
        {
            let cnt = hand_count(pos, white, kind);
            let capped: u8 = if cnt > HAND_CAP { HAND_CAP } else { cnt };
            let idx: usize = base + (kind as usize - 1) * 19 + capped as usize;
            proof {
                lemma_hand_slot(white, kind, cnt);
            }
            k.xor_assign(self.hand[idx]);
            kind += 1;
        }
        k
    }
}

/// Multiplying by an odd number modulo 2^64 can be undone: where `c * inv`
/// leaves 1 modulo 2^64, multiplying the product by `inv` gives `x` back.
proof fn lemma_odd_mul_undone(x: u64, c: u64, inv: u64, k: int)
    requires
        c as int * inv as int == k * 0x1_0000_0000_0000_0000 + 1,
    ensures
        (x.wrapping_mul(c) as int * inv as int) % 0x1_0000_0000_0000_0000 == x as int,
{
    let m = 0x1_0000_0000_0000_0000int;
    let p = x as int * c as int;
    assert(x.wrapping_mul(c) as int == p % m);
    vstd::arithmetic::div_mod::lemma_mul_mod_noop_left(p, inv as int, m);
    assert(p * inv as int == m * (x as int * k) + x as int) by (nonlinear_arith)
        requires
            p == x as int * c as int,
            c as int * inv as int == k * m + 1,
    ;
    vstd::arithmetic::div_mod::lemma_mod_multiples_vanish(x as int * k, x as int, m);
    lemma_small_mod(x as nat, m as nat);
}

/// The generator's mixing step loses nothing: two states with the same
/// output are the same state.
pub proof fn lemma_mix_injective(x: u64, y: u64)
    requires
        spec_mix(x) == spec_mix(y),
    ensures
        x == y,
{
    let x1 = x ^ (x >> 30);
    let y1 = y ^ (y >> 30);
    let x2 = x1.wrapping_mul(0xBF58_476D_1CE4_E5B9);
    let y2 = y1.wrapping_mul(0xBF58_476D_1CE4_E5B9);
    let x3 = x2 ^ (x2 >> 27);
    let y3 = y2 ^ (y2 >> 27);
    let x4 = x3.wrapping_mul(0x94D0_49BB_1331_11EB);
    let y4 = y3.wrapping_mul(0x94D0_49BB_1331_11EB);
    assert((x4 ^ (x4 >> 31)) == (y4 ^ (y4 >> 31)) ==> x4 == y4) by (bit_vector);
    lemma_odd_mul_undone(x3, 0x94D0_49BB_1331_11EB, 0x3196_42b2_d24d_8ec3, 0x1cd3_36ed_a85f_1453);
    lemma_odd_mul_undone(y3, 0x94D0_49BB_1331_11EB, 0x3196_42b2_d24d_8ec3, 0x1cd3_36ed_a85f_1453);
    assert(x3 == y3);
    assert((x2 ^ (x2 >> 27)) == (y2 ^ (y2 >> 27)) ==> x2 == y2) by (bit_vector);
    lemma_odd_mul_undone(x1, 0xBF58_476D_1CE4_E5B9, 0x96de_1b17_3f11_9089, 0x70c3_bca7_8f27_f46c);
    lemma_odd_mul_undone(y1, 0xBF58_476D_1CE4_E5B9, 0x96de_1b17_3f11_9089, 0x70c3_bca7_8f27_f46c);
    assert(x1 == y1);
    assert((x ^ (x >> 30)) == (y ^ (y >> 30)) ==> x == y) by (bit_vector);
}

/// The generator's state does not come back: as long as fewer than 2^64
/// numbers were drawn, two different counts of draws leave different states.
pub proof fn lemma_seed_injective(n1: nat, n2: nat)
    requires
        n1 + 1 < two_64(),
        n2 + 1 < two_64(),
        seed_after(n1) == seed_after(n2),
    ensures
        n1 == n2,
{
    lemma_seed_undone(n1);
    lemma_seed_undone(n2);
}

proof fn lemma_seed_undone(n: nat)
    requires
        n + 1 < two_64(),
    ensures
        (seed_after(n) as int * 0xf1de_83e1_9937_733d) % 0x1_0000_0000_0000_0000 == n + 1,
{
    let m = 0x1_0000_0000_0000_0000int;
    let g = GOLDEN as int;
    let inv = 0xf1de_83e1_9937_733dint;
    let k = 0x957b_bf35_006e_d677int;
    let p = g * (n + 1);
    assert(seed_after(n) as int == p % m);
    vstd::arithmetic::div_mod::lemma_mul_mod_noop_left(p, inv, m);
    assert(g * inv == k * m + 1);
    assert(p * inv == m * ((n + 1) * k) + (n + 1)) by (nonlinear_arith)
        requires
            p == g * (n + 1),
            g * inv == k * m + 1,
    ;
    vstd::arithmetic::div_mod::lemma_mod_multiples_vanish((n + 1) * k, (n + 1) as int, m);
    lemma_small_mod((n + 1) as nat, m as nat);
}

/// The constants of the table are pairwise distinct, and none of them is
/// the key with no bit set.
pub proof fn lemma_table_keys_distinct(i: nat, j: nat)
    requires
        i < 0x1000_0000,
        j < 0x1000_0000,
    ensures
        table_key(i) == table_key(j) ==> i == j,
        table_key(i) != PositionKey::spec_zero(),
{
    if table_key(i) == table_key(j) {
        lemma_mix_injective(seed_after(2 * i + 1), seed_after(2 * j + 1));
        lemma_seed_injective(2 * i + 1, 2 * j + 1);
    }
    if table_key(i) == PositionKey::spec_zero() {
        let zero: u64 = 0;
        assert(spec_mix(zero) == 0) by {
            assert((zero ^ (zero >> 30)) == 0) by (bit_vector)
                requires
                    zero == 0,
            ;
            assert((zero ^ (zero >> 27)) == 0) by (bit_vector)
                requires
                    zero == 0,
            ;
            assert((zero ^ (zero >> 31)) == 0) by (bit_vector)
                requires
                    zero == 0,
            ;
            assert(zero.wrapping_mul(0xBF58_476D_1CE4_E5B9) == 0);
            assert(zero.wrapping_mul(0x94D0_49BB_1331_11EB) == 0);
        }
        lemma_mix_injective(seed_after(2 * i + 1), zero);
        lemma_seed_undone(2 * i + 1);
    }
}

/// What cell `i` of a position adds to its key: the constant of the side
/// to move, of the piece on a square, or of a count in hand.
pub open spec fn cell_key(cells: Seq<u8>, i: int) -> PositionKey {
    if i == 0 {
        table_key(side_index(cells[0] == 2))
    } else if i <= 81 {
        square_key(cells, i as u8)
    } else if i <= 88 {
        table_key(hand_index(false, (i - 81) as u8, cells[i]))
    } else {
        table_key(hand_index(true, (i - 88) as u8, cells[i]))
    }
}

/// The cells are those of a position: the side is black or white, and
/// every square is vacant or holds a piece.
pub open spec fn cells_wf(cells: Seq<u8>) -> bool {
    &&& cells.len() == 96
    &&& (cells[0] == 1 || cells[0] == 2)
    &&& forall|sq: int|
        1 <= sq <= 81 ==> #[trigger] cells[sq] == 0 || crate::position::is_piece_code(cells[sq])
}

proof fn lemma_xor_parts(x: u64, s: u64, t: u64)
    ensures
        (x ^ s) ^ (x ^ t) == s ^ t,
        (s ^ x) ^ (t ^ x) == s ^ t,
        (s ^ t) == 0 <==> s == t,
{
    assert((x ^ s) ^ (x ^ t) == s ^ t) by (bit_vector);
    assert((s ^ x) ^ (t ^ x) == s ^ t) by (bit_vector);
    assert((s ^ t) == 0 <==> s == t) by (bit_vector);
}

/// Exclusive-or with the same key on both sides cancels.
proof fn lemma_xor_cancel(x: PositionKey, s: PositionKey, t: PositionKey)
    ensures
        x.spec_xor(s).spec_xor(x.spec_xor(t)) == s.spec_xor(t),
        s.spec_xor(x).spec_xor(t.spec_xor(x)) == s.spec_xor(t),
        s.spec_xor(t) == PositionKey::spec_zero() <==> s == t,
{
    lemma_xor_parts(x.z0, s.z0, t.z0);
    lemma_xor_parts(x.z1, s.z1, t.z1);
}

proof fn lemma_board_key_same(a: Seq<u8>, b: Seq<u8>, n: nat)
    requires
        n <= 81,
        forall|j: int| 1 <= j <= n ==> a[j] == b[j],
    ensures
        board_key(a, n) == board_key(b, n),
    decreases n,
{
    if n > 0 {
        lemma_board_key_same(a, b, (n - 1) as nat);
        assert(a[n as int] == b[n as int]);
    }
}

proof fn lemma_board_key_apart(a: Seq<u8>, b: Seq<u8>, n: nat, i: int)
    requires
        1 <= i <= n <= 81,
        forall|j: int| 1 <= j <= n && j != i ==> a[j] == b[j],
    ensures
        board_key(a, n).spec_xor(board_key(b, n)) == cell_key(a, i).spec_xor(cell_key(b, i)),
    decreases n,
{
    let before_a = board_key(a, (n - 1) as nat);
    let before_b = board_key(b, (n - 1) as nat);
    if n == i {
        lemma_board_key_same(a, b, (n - 1) as nat);
        lemma_xor_cancel(before_a, square_key(a, n as u8), square_key(b, n as u8));
    } else {
        lemma_board_key_apart(a, b, (n - 1) as nat, i);
        assert(a[n as int] == b[n as int]);
        lemma_xor_cancel(square_key(a, n as u8), before_a, before_b);
    }
}

proof fn lemma_hand_key_same(a: Seq<u8>, b: Seq<u8>, white: bool, k: nat)
    requires
        k <= 7,
        forall|c: int| hand_cell(white, 1) <= c < hand_cell(white, 1) + k ==> a[c] == b[c],
    ensures
        hand_key(a, white, k) == hand_key(b, white, k),
    decreases k,
{
    if k > 0 {
        lemma_hand_key_same(a, b, white, (k - 1) as nat);
        assert(a[hand_cell(white, k as u8)] == b[hand_cell(white, k as u8)]);
    }
}

proof fn lemma_hand_key_apart(a: Seq<u8>, b: Seq<u8>, white: bool, k: nat, i: int)
    requires
        1 <= i <= k <= 7,
        forall|c: int|
            hand_cell(white, 1) <= c < hand_cell(white, 1) + k && c != hand_cell(white, i as u8)
                ==> a[c] == b[c],
    ensures
        hand_key(a, white, k).spec_xor(hand_key(b, white, k)) == cell_key(
            a,
            hand_cell(white, i as u8),
        ).spec_xor(cell_key(b, hand_cell(white, i as u8))),
    decreases k,
{
    let before_a = hand_key(a, white, (k - 1) as nat);
    let before_b = hand_key(b, white, (k - 1) as nat);
    let here_a = table_key(hand_index(white, k as u8, a[hand_cell(white, k as u8)]));
    let here_b = table_key(hand_index(white, k as u8, b[hand_cell(white, k as u8)]));
    if k == i {
        lemma_hand_key_same(a, b, white, (k - 1) as nat);
        lemma_xor_cancel(before_a, here_a, here_b);
    } else {
        lemma_hand_key_apart(a, b, white, (k - 1) as nat, i);
        assert(a[hand_cell(white, k as u8)] == b[hand_cell(white, k as u8)]);
        lemma_xor_cancel(here_a, before_a, before_b);
    }
}

proof fn lemma_xor_four(s: u64, p: u64, h: u64, w: u64, s2: u64, p2: u64, h2: u64, w2: u64)
    ensures
        p == p2 && h == h2 && w == w2 ==> (((s ^ p) ^ h) ^ w) ^ (((s2 ^ p2) ^ h2) ^ w2) == s ^ s2,
        s == s2 && h == h2 && w == w2 ==> (((s ^ p) ^ h) ^ w) ^ (((s2 ^ p2) ^ h2) ^ w2) == p ^ p2,
        s == s2 && p == p2 && w == w2 ==> (((s ^ p) ^ h) ^ w) ^ (((s2 ^ p2) ^ h2) ^ w2) == h ^ h2,
        s == s2 && p == p2 && h == h2 ==> (((s ^ p) ^ h) ^ w) ^ (((s2 ^ p2) ^ h2) ^ w2) == w ^ w2,
{
    assert((((s ^ p) ^ h) ^ w) ^ (((s2 ^ p) ^ h) ^ w) == s ^ s2) by (bit_vector);
    assert((((s ^ p) ^ h) ^ w) ^ (((s ^ p2) ^ h) ^ w) == p ^ p2) by (bit_vector);
    assert((((s ^ p) ^ h) ^ w) ^ (((s ^ p) ^ h2) ^ w) == h ^ h2) by (bit_vector);
    assert((((s ^ p) ^ h) ^ w) ^ (((s ^ p) ^ h) ^ w2) == w ^ w2) by (bit_vector);
}

/// The keys of two positions that differ in one cell only differ by what
/// that cell adds to each of them.
pub proof fn lemma_one_cell_apart(a: Seq<u8>, b: Seq<u8>, i: int)
    requires
        0 <= i < 96,
        forall|j: int| 0 <= j < 96 && j != i ==> a[j] == b[j],
    ensures
        key_of_cells(a).spec_xor(key_of_cells(b)) == cell_key(a, i).spec_xor(cell_key(b, i)),
{
    let sa = table_key(side_index(a[0] == 2));
    let sb = table_key(side_index(b[0] == 2));
    let pa = board_key(a, 81);
    let pb = board_key(b, 81);
    let ha = hand_key(a, false, 7);
    let hb = hand_key(b, false, 7);
    let wa = hand_key(a, true, 7);
    let wb = hand_key(b, true, 7);
    if i == 0 {
        lemma_board_key_same(a, b, 81);
        lemma_hand_key_same(a, b, false, 7);
        lemma_hand_key_same(a, b, true, 7);
    } else if i <= 81 {
        lemma_board_key_apart(a, b, 81, i);
        lemma_hand_key_same(a, b, false, 7);
        lemma_hand_key_same(a, b, true, 7);
    } else if i <= 88 {
        lemma_board_key_same(a, b, 81);
        lemma_hand_key_apart(a, b, false, 7, i - 81);
        lemma_hand_key_same(a, b, true, 7);
    } else {
        lemma_board_key_same(a, b, 81);
        lemma_hand_key_same(a, b, false, 7);
        lemma_hand_key_apart(a, b, true, 7, i - 88);
    }
    lemma_xor_four(sa.z0, pa.z0, ha.z0, wa.z0, sb.z0, pb.z0, hb.z0, wb.z0);
    lemma_xor_four(sa.z1, pa.z1, ha.z1, wa.z1, sb.z1, pb.z1, hb.z1, wb.z1);
}

/// Two positions that differ in exactly one feature have different keys:
/// in the side to move, in what one square holds, or in one count in hand,
/// where neither count is above `HAND_CAP`.
pub proof fn lemma_one_feature_apart(a: Seq<u8>, b: Seq<u8>, i: int)
    requires
        cells_wf(a),
        cells_wf(b),
        0 <= i < 96,
        a[i] != b[i],
        forall|j: int| 0 <= j < 96 && j != i ==> a[j] == b[j],
        i >= 82 ==> a[i] <= HAND_CAP && b[i] <= HAND_CAP,
    ensures
        key_of_cells(a) != key_of_cells(b),
{
    lemma_one_cell_apart(a, b, i);
    let ka = key_of_cells(a);
    let kb = key_of_cells(b);
    let ca = cell_key(a, i);
    let cb = cell_key(b, i);
    assert(ca != cb) by {
        if i == 0 {
            lemma_table_keys_distinct(side_index(a[0] == 2), side_index(b[0] == 2));
        } else if i <= 81 {
            let x = a[i];
            let y = b[i];
            let sq = i as u8;
            let ix = if x >= 16 {
                board_index(true, (x - 16) as u8, sq)
            } else {
                board_index(false, x, sq)
            };
            let iy = if y >= 16 {
                board_index(true, (y - 16) as u8, sq)
            } else {
                board_index(false, y, sq)
            };
            if x == 0 {
                lemma_table_keys_distinct(iy, iy);
            } else if y == 0 {
                lemma_table_keys_distinct(ix, ix);
            } else {
                lemma_table_keys_distinct(ix, iy);
            }
        } else if i <= 88 {
            lemma_table_keys_distinct(
                hand_index(false, (i - 81) as u8, a[i]),
                hand_index(false, (i - 81) as u8, b[i]),
            );
        } else {
            lemma_table_keys_distinct(
                hand_index(true, (i - 88) as u8, a[i]),
                hand_index(true, (i - 88) as u8, b[i]),
            );
        }
    }
    lemma_xor_cancel(PositionKey::spec_zero(), ka, kb);
    lemma_xor_cancel(PositionKey::spec_zero(), ca, cb);
}

} // verus!
