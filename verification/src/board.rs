//! The board: twelve piece bitboards, occupancy, side to move, castling
//! rights, en-passant square, move counters and the Zobrist hash, with
//! make/unmake of moves.
use vstd::prelude::*;
use std::rc::Rc;
use crate::bits::{bit, sq_bb, lemma_bit_sq_bb, lemma_bit_and_not, lemma_bit_single, lemma_bit_or, lemma_bit_zero, lemma_lowest, lemma_count_pop, lemma_test_bit, popcount};
use crate::types::{
    Bitboard, Color, Move, Piece, color_index, color_of_index, other, piece_index, piece_of_index,
    FLAG_NONE, FLAG_DOUBLE_PUSH, FLAG_KINGSIDE_CASTLE, FLAG_QUEENSIDE_CASTLE, FLAG_EP_CAPTURE,
    FLAG_PROMO,
};

verus! {

/// Castling rights bitmask
pub const CASTLE_WK: u8 = 1;

pub const CASTLE_WQ: u8 = 2;

pub const CASTLE_BK: u8 = 4;

pub const CASTLE_BQ: u8 = 8;

/// No en-passant square.
pub const NO_EP: u8 = 255;

// ── Zobrist keys ──────────────────────────────────────────────────────────────

#[derive(Clone, Copy)]
pub struct ZobristKeys {
    /// `[color][piece][square]`
    pub pieces: [[[u64; 64]; 6]; 2],
    pub side: u64,
    pub castling: [u64; 16],
    /// One key per file of the en-passant square.
    pub ep: [u64; 8],
}

/// The seed of the key generator.
pub const ZOBRIST_SEED: u64 = 0x123456789ABCDEF0;

/// One step of the xorshift generator that produces the keys.
pub open spec fn xorshift(s: u64) -> u64 {
    let a = s ^ (s << 13u64);
    let b = a ^ (a >> 7u64);
    b ^ (b << 17u64)
}

/// The generator state after `n` steps; the `n`-th key drawn is `key_stream(n)`.
pub open spec fn key_stream(n: nat) -> u64
    decreases n,
{
    if n == 0 {
        ZOBRIST_SEED
    } else {
        xorshift(key_stream((n - 1) as nat))
    }
}

/// The keys are drawn in this order: the piece keys colour by colour, piece
/// by piece, square by square; then the side key, the sixteen castling keys
/// and the eight file keys.
pub open spec fn keys_drawn(z: ZobristKeys) -> bool {
    &&& forall|c: int, p: int, s: int|
        0 <= c < 2 && 0 <= p < 6 && 0 <= s < 64 ==> #[trigger] z.pieces[c][p][s] == key_stream(
            (1 + (c * 6 + p) * 64 + s) as nat,
        )
    &&& z.side == key_stream(769)
    &&& forall|i: int| 0 <= i < 16 ==> #[trigger] z.castling[i] == key_stream((770 + i) as nat)
    &&& forall|i: int| 0 <= i < 8 ==> #[trigger] z.ep[i] == key_stream((786 + i) as nat)
}

/// One step of the generator takes a non-zero state to a non-zero state
/// (each of its three shifts-and-xors can be undone).
pub proof fn lemma_xorshift_nonzero(s: u64)
    requires
        s != 0,
    ensures
        xorshift(s) != 0,
{
    let a = s ^ (s << 13u64);
    let b = a ^ (a >> 7u64);
    assert(s != 0 ==> s ^ (s << 13u64) != 0) by (bit_vector);
    assert(a != 0 ==> a ^ (a >> 7u64) != 0) by (bit_vector);
    assert(b != 0 ==> b ^ (b << 17u64) != 0) by (bit_vector);
}

/// Every state of the generator, started from its non-zero seed, is
/// non-zero.
pub proof fn lemma_key_stream_nonzero(n: nat)
    ensures
        key_stream(n) != 0,
    decreases n,
{
    if n > 0 {
        lemma_key_stream_nonzero((n - 1) as nat);
        lemma_xorshift_nonzero(key_stream((n - 1) as nat));
    }
}

/// No Zobrist key is zero, so every piece, side, castling and file term
/// changes the hash it is XORed into.
pub proof fn lemma_keys_nonzero(z: ZobristKeys)
    requires
        keys_drawn(z),
    ensures
        forall|c: int, p: int, s: int| 0 <= c < 2 && 0 <= p < 6 && 0 <= s < 64 ==> #[trigger] z.pieces[c][p][s] != 0,
        z.side != 0,
        forall|i: int| 0 <= i < 16 ==> #[trigger] z.castling[i] != 0,
        forall|i: int| 0 <= i < 8 ==> #[trigger] z.ep[i] != 0,
{
    assert forall|c: int, p: int, s: int| 0 <= c < 2 && 0 <= p < 6 && 0 <= s < 64 implies #[trigger] z.pieces[c][p][s] != 0 by {
        lemma_key_stream_nonzero((1 + (c * 6 + p) * 64 + s) as nat);
    }
    lemma_key_stream_nonzero(769);
    assert forall|i: int| 0 <= i < 16 implies #[trigger] z.castling[i] != 0 by {
        lemma_key_stream_nonzero((770 + i) as nat);
    }
    assert forall|i: int| 0 <= i < 8 implies #[trigger] z.ep[i] != 0 by {
        lemma_key_stream_nonzero((786 + i) as nat);
    }
}

fn next_key(seed: u64) -> (r: u64)
    ensures
        r == xorshift(seed),
{
    let mut s = seed;
    s = s ^ (s << 13);
    s = s ^ (s >> 7);
    s = s ^ (s << 17);
    s
}

/// Generates the Zobrist keys from the fixed seed.
pub fn zobrist() -> (z: ZobristKeys)
    ensures
        keys_drawn(z),
{
    let mut seed: u64 = ZOBRIST_SEED;
    let ghost mut n: nat = 0;
    let mut pieces = [[[0u64; 64]; 6]; 2];
    for c in 0..2usize
        invariant
            n == c * 384,
            seed == key_stream(n),
            forall|c2: int, p: int, s: int|
                0 <= c2 < c && 0 <= p < 6 && 0 <= s < 64 ==> #[trigger] pieces[c2][p][s]
                    == key_stream((1 + (c2 * 6 + p) * 64 + s) as nat),
    {
        for p in 0..6usize
            invariant
                c < 2,
                n == c * 384 + p * 64,
                seed == key_stream(n),
                forall|c2: int, p2: int, s: int|
                    0 <= c2 < 2 && 0 <= p2 < 6 && 0 <= s < 64 && (c2 < c || (c2 == c && p2 < p))
                        ==> #[trigger] pieces[c2][p2][s] == key_stream(
                        (1 + (c2 * 6 + p2) * 64 + s) as nat,
                    ),
        {
            for s in 0..64usize
                invariant
                    c < 2,
                    p < 6,
                    n == c * 384 + p * 64 + s,
                    seed == key_stream(n),
                    forall|c2: int, p2: int, s2: int|
                        0 <= c2 < 2 && 0 <= p2 < 6 && 0 <= s2 < 64 && (c2 < c || (c2 == c && p2
                            < p) || (c2 == c && p2 == p && s2 < s)) ==> #[trigger] pieces[c2][p2][s2]
                            == key_stream((1 + (c2 * 6 + p2) * 64 + s2) as nat),
            {
                seed = next_key(seed);
                proof {
                    n = n + 1;
                }
                pieces[c][p][s] = seed;
            }
        }
    }
    seed = next_key(seed);
    proof {
        n = n + 1;
    }
    let side = seed;
    let mut castling = [0u64; 16];
    for i in 0..16usize
        invariant
            n == 769 + i,
            seed == key_stream(n),
            side == key_stream(769),
            forall|j: int| 0 <= j < i ==> #[trigger] castling[j] == key_stream((770 + j) as nat),
    {
        seed = next_key(seed);
        proof {
            n = n + 1;
        }
        castling[i] = seed;
    }
    let mut ep = [0u64; 8];
    for i in 0..8usize
        invariant
            n == 785 + i,
            seed == key_stream(n),
            forall|j: int| 0 <= j < i ==> #[trigger] ep[j] == key_stream((786 + j) as nat),
    {
        seed = next_key(seed);
        proof {
            n = n + 1;
        }
        ep[i] = seed;
    }
    ZobristKeys { pieces, side, castling, ep }
}

// ── Board ─────────────────────────────────────────────────────────────────────

pub struct Board {
    /// pieces[color][piece]
    pub pieces: [[Bitboard; 6]; 2],
    /// combined occupancy per color
    pub occ: [Bitboard; 2],
    /// all occupied
    pub all: Bitboard,
    pub side: Color,
    pub castling: u8,
    /// en passant target square (255 = none)
    pub ep_sq: u8,
    pub halfmove: u32,
    pub fullmove: u32,
    pub zobrist: u64,
    /// The Zobrist keys the hash is built from, shared between positions.
    pub keys: Rc<ZobristKeys>,
}

/// Calls `Rc::clone`: std documents that it makes another pointer to the
/// same allocation, so the value seen through it is the same.
#[verifier::external_body]
fn share_keys(k: &Rc<ZobristKeys>) -> (r: Rc<ZobristKeys>)
    ensures
        r == *k,
{
    Rc::clone(k)
}

impl Clone for Board {
    fn clone(&self) -> (r: Board)
        ensures
            r == *self,
    {
        Board {
            pieces: self.pieces,
            occ: self.occ,
            all: self.all,
            side: self.side,
            castling: self.castling,
            ep_sq: self.ep_sq,
            halfmove: self.halfmove,
            fullmove: self.fullmove,
            zobrist: self.zobrist,
            keys: share_keys(&self.keys),
        }
    }
}

/// The union of the six piece bitboards of one colour.
pub open spec fn union6(row: [u64; 6]) -> u64 {
    row[0] | row[1] | row[2] | row[3] | row[4] | row[5]
}

/// The occupancy fields agree with the piece bitboards.
pub open spec fn occ_consistent(b: Board) -> bool {
    &&& b.occ[0] == union6(b.pieces[0])
    &&& b.occ[1] == union6(b.pieces[1])
    &&& b.all == b.occ[0] | b.occ[1]
}

/// The castling rights index the castling keys, and the en-passant square
/// is a square or none: what playing and generating moves index by.
pub open spec fn well_indexed(b: Board) -> bool {
    &&& b.castling < 16
    &&& (b.ep_sq == NO_EP || b.ep_sq < 64)
}

/// A structurally sound board: occupancy agrees with the pieces, and its
/// indices are in range.
pub open spec fn valid(b: Board) -> bool {
    &&& occ_consistent(b)
    &&& well_indexed(b)
}

/// XOR of the keys of the members of `bb` below `n`.
pub open spec fn hash_bb(bb: u64, keys: [u64; 64], n: int) -> u64
    decreases n,
{
    if n <= 0 {
        0
    } else {
        hash_bb(bb, keys, n - 1) ^ (if bit(bb, n - 1) {
            keys[n - 1]
        } else {
            0u64
        })
    }
}

/// XOR of the piece hashes of the first `np` bitboards of one colour.
pub open spec fn hash_row(row: [u64; 6], zrow: [[u64; 64]; 6], np: int) -> u64
    decreases np,
{
    if np <= 0 {
        0
    } else {
        hash_row(row, zrow, np - 1) ^ hash_bb(row[np - 1], zrow[np - 1], 64)
    }
}

pub open spec fn hash_pieces(pieces: [[u64; 6]; 2], z: ZobristKeys) -> u64 {
    hash_row(pieces[0], z.pieces[0], 6) ^ hash_row(pieces[1], z.pieces[1], 6)
}

pub open spec fn side_term(side: Color, z: ZobristKeys) -> u64 {
    if side == Color::Black {
        z.side
    } else {
        0u64
    }
}

pub open spec fn ep_term(ep_sq: u8, z: ZobristKeys) -> u64 {
    if ep_sq != NO_EP {
        z.ep[(ep_sq % 8) as int]
    } else {
        0u64
    }
}

/// The Zobrist hash of a position: the keys of every piece on its square,
/// of Black to move, of the castling rights and of the en-passant file.
pub open spec fn position_hash(b: Board) -> u64 {
    hash_pieces(b.pieces, *b.keys) ^ side_term(b.side, *b.keys) ^ b.keys.castling[b.castling as int]
        ^ ep_term(b.ep_sq, *b.keys)
}

/// The hash field is the hash of the position.
pub open spec fn hash_ok(b: Board) -> bool {
    b.zobrist == position_hash(b)
}

// ── XOR algebra and hash lemmas ───────────────────────────────────────────────

pub proof fn lemma_xor(a: u64, b: u64, c: u64)
    by (bit_vector)
    ensures
        (a ^ b) ^ c == a ^ (b ^ c),
        a ^ b == b ^ a,
        a ^ a == 0,
        a ^ 0 == a,
        0 ^ a == a,
{
}

/// `b2` is `b` with square `t` toggled.
pub open spec fn toggled(b: u64, b2: u64, t: int) -> bool {
    forall|s: int| 0 <= s < 64 ==> bit(b2, s) == (if s == t { !bit(b, s) } else { bit(b, s) })
}

pub proof fn lemma_toggle_clear(b: u64, t: int)
    requires
        0 <= t < 64,
        bit(b, t),
    ensures
        toggled(b, b & !(1u64 << (t as u64)), t),
{
    assert forall|s: int| 0 <= s < 64 implies bit(b & !(1u64 << (t as u64)), s) == (if s == t {
        !bit(b, s)
    } else {
        bit(b, s)
    }) by {
        lemma_bit_and_not(b, 1u64 << (t as u64), s);
        lemma_bit_single(t, s);
    }
}

pub proof fn lemma_toggle_set(b: u64, t: int)
    requires
        0 <= t < 64,
        !bit(b, t),
    ensures
        toggled(b, b | (1u64 << (t as u64)), t),
{
    assert forall|s: int| 0 <= s < 64 implies bit(b | (1u64 << (t as u64)), s) == (if s == t {
        !bit(b, s)
    } else {
        bit(b, s)
    }) by {
        lemma_bit_or(b, 1u64 << (t as u64), s);
        lemma_bit_single(t, s);
    }
}

/// Moving and cancelling terms of a XOR.
pub proof fn lemma_xor_more(a: u64, b: u64, k: u64)
    by (bit_vector)
    ensures
        (a ^ b) ^ k == (a ^ k) ^ b,
        (a ^ k) ^ (b ^ k) == a ^ b,
        (a ^ k) ^ k == a,
        (a ^ 0) ^ k == a ^ k,
        a ^ (b ^ k) == (a ^ b) ^ k,
{
}

proof fn lemma_hash_bb_toggle(b: u64, b2: u64, keys: [u64; 64], t: int, n: int)
    requires
        0 <= t < 64,
        toggled(b, b2, t),
        0 <= n <= 64,
    ensures
        hash_bb(b2, keys, n) == hash_bb(b, keys, n) ^ (if t < n { keys[t] } else { 0u64 }),
    decreases n,
{
    if n > 0 {
        let m = n - 1;
        lemma_hash_bb_toggle(b, b2, keys, t, m);
        let h = hash_bb(b, keys, m);
        let k = keys[m];
        let x = if bit(b, m) { k } else { 0u64 };
        let y = if bit(b2, m) { k } else { 0u64 };
        let d = if t < m { keys[t] } else { 0u64 };
        assert(hash_bb(b2, keys, n) == (h ^ d) ^ y);
        assert(hash_bb(b, keys, n) == h ^ x);
        if m == t {
            assert(d == 0);
            if bit(b, m) {
                assert(x == k && y == 0);
                lemma_xor(h, 0, 0);
                lemma_xor_more(h, h, k);
            } else {
                assert(x == 0 && y == k);
                lemma_xor(h, 0, 0);
            }
        } else {
            assert(x == y);
            lemma_xor_more(h, d, x);
        }
    } else {
        lemma_xor(0, 0, 0);
    }
}

proof fn lemma_hash_row_toggle(
    row: [u64; 6],
    row2: [u64; 6],
    zrow: [[u64; 64]; 6],
    p: int,
    k: u64,
    np: int,
)
    requires
        0 <= p < 6,
        0 <= np <= 6,
        forall|q: int| 0 <= q < 6 && q != p ==> row2[q] == row[q],
        hash_bb(row2[p], zrow[p], 64) == hash_bb(row[p], zrow[p], 64) ^ k,
    ensures
        hash_row(row2, zrow, np) == hash_row(row, zrow, np) ^ (if p < np { k } else { 0u64 }),
    decreases np,
{
    if np > 0 {
        let m = np - 1;
        lemma_hash_row_toggle(row, row2, zrow, p, k, m);
        let h = hash_row(row, zrow, m);
        let d = if p < m { k } else { 0u64 };
        let x = hash_bb(row[m], zrow[m], 64);
        let x2 = hash_bb(row2[m], zrow[m], 64);
        assert(hash_row(row2, zrow, np) == (h ^ d) ^ x2);
        assert(hash_row(row, zrow, np) == h ^ x);
        if m == p {
            assert(d == 0);
            assert(x2 == x ^ k);
            lemma_xor(h, 0, 0);
            lemma_xor_more(h, x, k);
        } else {
            assert(x2 == x);
            lemma_xor_more(h, d, x);
        }
    } else {
        lemma_xor(0, 0, 0);
    }
}

/// Toggling one square of one piece bitboard changes the piece hash by the
/// key of that piece on that square.
pub proof fn lemma_hash_pieces_toggle(
    pieces: [[u64; 6]; 2],
    pieces2: [[u64; 6]; 2],
    z: ZobristKeys,
    c: int,
    p: int,
    t: int,
)
    requires
        0 <= c < 2,
        0 <= p < 6,
        0 <= t < 64,
        toggled(pieces[c][p], pieces2[c][p], t),
        forall|c2: int, q: int|
            0 <= c2 < 2 && 0 <= q < 6 && !(c2 == c && q == p) ==> pieces2[c2][q]
                == pieces[c2][q],
    ensures
        hash_pieces(pieces2, z) == hash_pieces(pieces, z) ^ z.pieces[c][p][t],
{
    let k = z.pieces[c][p][t];
    lemma_hash_bb_toggle(pieces[c][p], pieces2[c][p], z.pieces[c][p], t, 64);
    lemma_hash_row_toggle(pieces[c], pieces2[c], z.pieces[c], p, k, 6);
    let h0 = hash_row(pieces[0], z.pieces[0], 6);
    let h1 = hash_row(pieces[1], z.pieces[1], 6);
    if c == 0 {
        assert(pieces2[1] =~= pieces[1]);
        lemma_xor(h0, k, h1);
        lemma_xor(k, h1, 0);
        lemma_xor(h0, h1, k);
    } else {
        assert(pieces2[0] =~= pieces[0]);
        lemma_xor(h0, h1, k);
    }
}

// ── Helpers ───────────────────────────────────────────────────────────────────

impl Board {
    /// Recomputes the occupancy bitboards from the piece bitboards.
    pub(crate) fn update_occ(&mut self)
        ensures
            occ_consistent(*final(self)),
            final(self).pieces == old(self).pieces,
            final(self).side == old(self).side,
            final(self).castling == old(self).castling,
            final(self).ep_sq == old(self).ep_sq,
            final(self).halfmove == old(self).halfmove,
            final(self).fullmove == old(self).fullmove,
            final(self).zobrist == old(self).zobrist,
            final(self).keys == old(self).keys,
    {
        for c in 0..2usize
            invariant
                self.pieces == old(self).pieces,
                self.side == old(self).side,
                self.castling == old(self).castling,
                self.ep_sq == old(self).ep_sq,
                self.halfmove == old(self).halfmove,
                self.fullmove == old(self).fullmove,
                self.zobrist == old(self).zobrist,
                self.keys == old(self).keys,
                forall|c2: int| 0 <= c2 < c ==> #[trigger] self.occ[c2] == union6(self.pieces[c2]),
        {
            let row = self.pieces[c];
            self.occ[c] = row[0] | row[1] | row[2] | row[3] | row[4] | row[5];
        }
        self.all = self.occ[0] | self.occ[1];
    }

    /// Recomputes the Zobrist hash of the position from scratch.
    pub(crate) fn compute_zobrist(&mut self)
        requires
            old(self).castling < 16,
        ensures
            hash_ok(*final(self)),
            final(self).pieces == old(self).pieces,
            final(self).occ == old(self).occ,
            final(self).all == old(self).all,
            final(self).side == old(self).side,
            final(self).castling == old(self).castling,
            final(self).ep_sq == old(self).ep_sq,
            final(self).halfmove == old(self).halfmove,
            final(self).fullmove == old(self).fullmove,
            final(self).keys == old(self).keys,
    {
        let mut h: u64 = 0;
        for c in 0..2usize
            invariant
                h == (if c == 0 {
                    0u64
                } else if c == 1 {
                    hash_row(self.pieces[0], self.keys.pieces[0], 6)
                } else {
                    hash_pieces(self.pieces, *self.keys)
                }),
        {
            let ghost h_before_row = h;
            proof {
                lemma_xor(h, 0, 0);
            }
            for p in 0..6usize
                invariant
                    c < 2,
                    h == h_before_row ^ hash_row(self.pieces[c as int], self.keys.pieces[c as int], p as int),
            {
                let mut bb = self.pieces[c][p];
                let ghost h_before = h;
                let ghost full = self.pieces[c as int][p as int];
                let ghost zk = self.keys.pieces[c as int][p as int];
                proof {
                    lemma_xor(h_before, 0, 0);
                }
                while bb != 0
                    invariant
                        c < 2,
                        p < 6,
                        zk == self.keys.pieces[c as int][p as int],
                        h ^ hash_bb(bb, zk, 64) == h_before ^ hash_bb(full, zk, 64),
                    decreases popcount(bb),
                {
                    let sq = bb.trailing_zeros() as usize;
                    let ghost old_bb = bb;
                    let ghost old_h = h;
                    proof {
                        lemma_lowest(bb);
                        lemma_count_pop(bb);
                    }
                    h = h ^ self.keys.pieces[c][p][sq];
                    bb = bb & (bb - 1);
                    proof {
                        lemma_toggle_clear(old_bb, sq as int);
                        lemma_hash_bb_toggle(old_bb, bb, zk, sq as int, 64);
                        let k = zk[sq as int];
                        lemma_xor_more(old_h, hash_bb(old_bb, zk, 64), k);
                    }
                }
                proof {
                    lemma_hash_bb_zero(zk, 64);
                    lemma_xor(h, 0, 0);
                    let hr = hash_row(self.pieces[c as int], self.keys.pieces[c as int], p as int);
                    lemma_xor(h_before_row, hr, hash_bb(full, zk, 64));
                }
            }
            proof {
                let hr = hash_row(self.pieces[c as int], self.keys.pieces[c as int], 6);
                assert(h == h_before_row ^ hr);
                lemma_xor(hr, 0, 0);
                if c == 0 {
                    assert(h_before_row == 0);
                    assert(h == hr);
                } else {
                    assert(h_before_row == hash_row(self.pieces[0], self.keys.pieces[0], 6));
                    assert(h == hash_pieces(self.pieces, *self.keys));
                }
            }
        }
        if self.side == Color::Black {
            h = h ^ self.keys.side;
        }
        h = h ^ self.keys.castling[self.castling as usize];
        if self.ep_sq != 255 {
            h = h ^ self.keys.ep[(self.ep_sq % 8) as usize];
        } else {
            proof {
                lemma_xor(h, 0, 0);
            }
        }
        proof {
            let hp = hash_pieces(self.pieces, *self.keys);
            lemma_xor(hp, 0, 0);
        }
        self.zobrist = h;
    }
}

proof fn lemma_hash_bb_zero(keys: [u64; 64], n: int)
    requires
        0 <= n <= 64,
    ensures
        hash_bb(0u64, keys, n) == 0,
    decreases n,
{
    if n > 0 {
        lemma_hash_bb_zero(keys, n - 1);
        lemma_bit_zero(n - 1);
        lemma_xor(0, 0, 0);
    }
}


// ── Pieces on squares ─────────────────────────────────────────────────────────

/// The first index `>= k` of a bitboard of `row` holding `sq`, or 6 if none.
pub open spec fn find_piece(row: [u64; 6], sq: int, k: int) -> int
    decreases 6 - k,
{
    if k >= 6 || k < 0 {
        6
    } else if bit(row[k], sq) {
        k
    } else {
        find_piece(row, sq, k + 1)
    }
}

pub proof fn lemma_find_piece(row: [u64; 6], sq: int, k: int)
    requires
        0 <= k <= 6,
    ensures
        k <= find_piece(row, sq, k) <= 6,
        find_piece(row, sq, k) < 6 ==> bit(row[find_piece(row, sq, k)], sq),
        forall|q: int| k <= q < find_piece(row, sq, k) ==> !bit(row[q], sq),
    decreases 6 - k,
{
    if k < 6 {
        lemma_find_piece(row, sq, k + 1);
    }
}

/// Index of the first bitboard of `row` that holds `sq` (6 when none does).
pub fn find_piece_index(row: &[u64; 6], sq: usize) -> (r: usize)
    requires
        sq < 64,
    ensures
        r == find_piece(*row, sq as int, 0),
{
    let mask = 1u64 << sq;
    let mut p: usize = 0;
    while p < 6
        invariant
            p <= 6,
            sq < 64,
            mask == 1u64 << (sq as u64),
            find_piece(*row, sq as int, 0) == find_piece(*row, sq as int, p as int),
        decreases 6 - p,
    {
        proof {
            lemma_test_bit(row[p as int], sq as int);
        }
        if row[p] & mask != 0 {
            return p;
        }
        p = p + 1;
    }
    6
}

/// The piece on a square: the first colour, then the first piece kind, whose
/// bitboard holds it.
pub open spec fn piece_at(b: Board, sq: int) -> Option<(Color, Piece)> {
    if find_piece(b.pieces[0], sq, 0) < 6 {
        Some((Color::White, piece_of_index(find_piece(b.pieces[0], sq, 0))))
    } else if find_piece(b.pieces[1], sq, 0) < 6 {
        Some((Color::Black, piece_of_index(find_piece(b.pieces[1], sq, 0))))
    } else {
        None
    }
}

pub fn index_to_piece(i: usize) -> (r: Piece)
    ensures
        r == piece_of_index(i as int),
{
    match i {
        0 => Piece::Pawn,
        1 => Piece::Knight,
        2 => Piece::Bishop,
        3 => Piece::Rook,
        4 => Piece::Queen,
        5 => Piece::King,
        _ => Piece::Pawn,
    }
}

// ── Moves ─────────────────────────────────────────────────────────────────────

/// The castling rights that survive a move touching `sq`: moving from or to
/// a king or rook home square drops the rights that need it.
pub open spec fn castle_mask(sq: int) -> u8 {
    if sq == 0 {
        0xFDu8
    } else if sq == 4 {
        0xFCu8
    } else if sq == 7 {
        0xFEu8
    } else if sq == 56 {
        0xF7u8
    } else if sq == 60 {
        0xF3u8
    } else if sq == 63 {
        0xFBu8
    } else {
        0xFFu8
    }
}

/// Castling rights update mask per square
fn castling_rights_mask(sq: usize) -> (r: u8)
    ensures
        r == castle_mask(sq as int),
{
    match sq {
        // all but white queenside
        0 => 0xFD,
        // all but white's
        4 => 0xFC,
        // all but white kingside
        7 => 0xFE,
        // all but black queenside
        56 => 0xF7,
        // all but black's
        60 => 0xF3,
        // all but black kingside
        63 => 0xFB,
        _ => 0xFF,
    }
}

/// Index of the moving piece: the first piece kind of the side to move on
/// the from square, a pawn when there is none.
pub open spec fn moving_index(b: Board, mv: Move) -> int {
    let i = find_piece(b.pieces[color_index(b.side)], mv.from_sq(), 0);
    if i < 6 {
        i
    } else {
        0
    }
}

/// Index of the piece that lands on the to square.
pub open spec fn landing_index(b: Board, mv: Move) -> int {
    if mv.flag_bits() == FLAG_PROMO {
        piece_index(mv.promo_piece())
    } else {
        moving_index(b, mv)
    }
}

/// Index of the opposing piece taken on the to square (6 for none); an
/// en-passant capture takes no piece there.
pub open spec fn captured_index(b: Board, mv: Move) -> int {
    if mv.flag_bits() != FLAG_EP_CAPTURE {
        find_piece(b.pieces[1 - color_index(b.side)], mv.to_sq(), 0)
    } else {
        6
    }
}

/// The square of the pawn taken en passant.
pub open spec fn ep_victim(b: Board, mv: Move) -> int {
    if b.side == Color::White {
        mv.to_sq() - 8
    } else {
        mv.to_sq() + 8
    }
}

pub open spec fn ks_rook_from(side: Color) -> int {
    if side == Color::White { 7 } else { 63 }
}

pub open spec fn ks_rook_to(side: Color) -> int {
    if side == Color::White { 5 } else { 61 }
}

pub open spec fn qs_rook_from(side: Color) -> int {
    if side == Color::White { 0 } else { 56 }
}

pub open spec fn qs_rook_to(side: Color) -> int {
    if side == Color::White { 3 } else { 59 }
}

/// Bitboard `p` of the side to move after the piece left the from square and
/// landed on the to square.
pub open spec fn us_landed(b: Board, mv: Move, p: int) -> u64 {
    let bb = b.pieces[color_index(b.side)][p];
    let s1 = if p == moving_index(b, mv) {
        bb & !sq_bb(mv.from_sq())
    } else {
        bb
    };
    if p == landing_index(b, mv) {
        s1 | sq_bb(mv.to_sq())
    } else {
        s1
    }
}

/// Bitboard `p` of the side to move after the move, rook of a castling
/// included.
pub open spec fn us_after(b: Board, mv: Move, p: int) -> u64 {
    let s2 = us_landed(b, mv, p);
    let fl = mv.flag_bits();
    if p == 3 && fl == FLAG_KINGSIDE_CASTLE {
        (s2 & !sq_bb(ks_rook_from(b.side))) | sq_bb(ks_rook_to(b.side))
    } else if p == 3 && fl == FLAG_QUEENSIDE_CASTLE {
        (s2 & !sq_bb(qs_rook_from(b.side))) | sq_bb(qs_rook_to(b.side))
    } else {
        s2
    }
}

/// Bitboard `p` of the opponent after the move: the captured piece, or the
/// pawn taken en passant, is removed.
pub open spec fn them_after(b: Board, mv: Move, p: int) -> u64 {
    let bb = b.pieces[1 - color_index(b.side)][p];
    let t1 = if p == captured_index(b, mv) {
        bb & !sq_bb(mv.to_sq())
    } else {
        bb
    };
    if mv.flag_bits() == FLAG_EP_CAPTURE && p == 0 {
        t1 & !sq_bb(ep_victim(b, mv))
    } else {
        t1
    }
}

pub open spec fn piece_after(b: Board, mv: Move, c: int, p: int) -> u64 {
    if c == color_index(b.side) {
        us_after(b, mv, p)
    } else {
        them_after(b, mv, p)
    }
}

/// The en-passant square after a move: behind a double push, else none.
pub open spec fn ep_after(b: Board, mv: Move) -> u8 {
    if mv.flag_bits() == FLAG_DOUBLE_PUSH {
        (if b.side == Color::White {
            mv.to_sq() - 8
        } else {
            mv.to_sq() + 8
        }) as u8
    } else {
        NO_EP
    }
}

pub open spec fn castling_after(b: Board, mv: Move) -> u8 {
    b.castling & castle_mask(mv.from_sq()) & castle_mask(mv.to_sq())
}

/// The halfmove clock of the fifty-move rule: reset by a pawn move or a
/// capture (en passant included), else it counts up.
pub open spec fn halfmove_after(b: Board, mv: Move) -> u32 {
    if moving_index(b, mv) == 0 || mv.flag_bits() == FLAG_EP_CAPTURE || find_piece(
        b.pieces[1 - color_index(b.side)],
        mv.to_sq(),
        0,
    ) < 6 {
        0
    } else {
        b.halfmove.wrapping_add(1)
    }
}

pub open spec fn fullmove_after(b: Board, mv: Move) -> u32 {
    if b.side == Color::Black {
        b.fullmove.wrapping_add(1)
    } else {
        b.fullmove
    }
}

/// The hash with the en-passant and castling keys taken out.
pub open spec fn unhash_extras(b: Board) -> u64 {
    let z = *b.keys;
    let h0 = if b.ep_sq != NO_EP {
        b.zobrist ^ z.ep[(b.ep_sq % 8) as int]
    } else {
        b.zobrist
    };
    h0 ^ z.castling[b.castling as int]
}

/// `h` updated with the key of every piece that leaves or enters a square.
pub open spec fn piece_updates(b: Board, mv: Move, h: u64) -> u64 {
    let z = *b.keys;
    let us = color_index(b.side);
    let them = 1 - us;
    let fl = mv.flag_bits();
    let h1 = h ^ z.pieces[us][moving_index(b, mv)][mv.from_sq()];
    let h2 = if captured_index(b, mv) < 6 {
        h1 ^ z.pieces[them][captured_index(b, mv)][mv.to_sq()]
    } else {
        h1
    };
    let h3 = h2 ^ z.pieces[us][landing_index(b, mv)][mv.to_sq()];
    let h4 = if fl == FLAG_EP_CAPTURE {
        h3 ^ z.pieces[them][0][ep_victim(b, mv)]
    } else {
        h3
    };
    let h5 = if fl == FLAG_KINGSIDE_CASTLE {
        (h4 ^ z.pieces[us][3][ks_rook_from(b.side)]) ^ z.pieces[us][3][ks_rook_to(b.side)]
    } else {
        h4
    };
    if fl == FLAG_QUEENSIDE_CASTLE {
        (h5 ^ z.pieces[us][3][qs_rook_from(b.side)]) ^ z.pieces[us][3][qs_rook_to(b.side)]
    } else {
        h5
    }
}

/// `h` with the side key and the new en-passant and castling keys put in.
pub open spec fn rehash_extras(b: Board, mv: Move, h: u64) -> u64 {
    let z = *b.keys;
    let h7 = h ^ z.side;
    let h8 = if ep_after(b, mv) != NO_EP {
        h7 ^ z.ep[(ep_after(b, mv) % 8) as int]
    } else {
        h7
    };
    h8 ^ z.castling[castling_after(b, mv) as int]
}

/// The hash after a move, updated key by key from the hash before it.
pub open spec fn move_hash(b: Board, mv: Move) -> u64 {
    rehash_extras(b, mv, piece_updates(b, mv, unhash_extras(b)))
}

/// A move that `make_move` can play without running off the board: an
/// en-passant capture or a double push has the square behind its target on
/// the board.
pub open spec fn move_in_range(b: Board, mv: Move) -> bool {
    &&& (mv.flag_bits() == FLAG_EP_CAPTURE ==> 0 <= ep_victim(b, mv) < 64)
    &&& (mv.flag_bits() == FLAG_DOUBLE_PUSH && b.side == Color::White ==> mv.to_sq() >= 8)
    &&& (mv.flag_bits() == FLAG_DOUBLE_PUSH && b.side == Color::Black ==> mv.to_sq() < 56)
}

/// A move whose key-by-key hash update matches the position it makes: a
/// piece of the side to move stands on the from square, the landing square
/// holds no piece of the landing kind, the pawn taken en passant is there,
/// and a castling rook stands on its home square with its target free.
pub open spec fn move_consistent(b: Board, mv: Move) -> bool {
    let us = color_index(b.side);
    let fl = mv.flag_bits();
    &&& find_piece(b.pieces[us], mv.from_sq(), 0) < 6
    &&& mv.from_sq() != mv.to_sq()
    &&& !bit(b.pieces[us][landing_index(b, mv)], mv.to_sq())
    &&& (fl == FLAG_EP_CAPTURE ==> bit(b.pieces[1 - us][0], ep_victim(b, mv)))
    &&& (fl == FLAG_KINGSIDE_CASTLE ==> bit(us_landed(b, mv, 3), ks_rook_from(b.side)) && !bit(
        us_landed(b, mv, 3),
        ks_rook_to(b.side),
    ))
    &&& (fl == FLAG_QUEENSIDE_CASTLE ==> bit(us_landed(b, mv, 3), qs_rook_from(b.side)) && !bit(
        us_landed(b, mv, 3),
        qs_rook_to(b.side),
    ))
}

/// `r` is the position `make_move` makes of `b` by `m`, as its contract
/// describes it: the pieces after the move, occupancy to match, the other
/// side to move, the castling rights and en-passant square after the move.
pub open spec fn played(b: Board, m: Move, r: Board) -> bool {
    &&& forall|c: int, p: int| 0 <= c < 2 && 0 <= p < 6 ==> #[trigger] r.pieces[c][p] == piece_after(b, m, c, p)
    &&& occ_consistent(r)
    &&& r.side == other(b.side)
    &&& r.castling == castling_after(b, m)
    &&& r.castling < 16
    &&& r.ep_sq == ep_after(b, m)
}

/// Clears `sq` in bitboard `[c][p]`, returning the key to XOR into the hash
/// (the piece hash changes by that key when the square was occupied).
fn clear_square(pieces: &mut [[u64; 6]; 2], c: usize, p: usize, sq: usize)
    requires
        c < 2,
        p < 6,
        sq < 64,
    ensures
        final(pieces)[c as int][p as int] == old(pieces)[c as int][p as int] & !sq_bb(sq as int),
        forall|c2: int, q: int|
            0 <= c2 < 2 && 0 <= q < 6 && !(c2 == c && q == p) ==> final(pieces)[c2][q] == old(
                pieces,
            )[c2][q],
{
    let v = pieces[c][p] & !(1u64 << sq);
    pieces[c][p] = v;
}

fn set_square(pieces: &mut [[u64; 6]; 2], c: usize, p: usize, sq: usize)
    requires
        c < 2,
        p < 6,
        sq < 64,
    ensures
        final(pieces)[c as int][p as int] == old(pieces)[c as int][p as int] | sq_bb(sq as int),
        forall|c2: int, q: int|
            0 <= c2 < 2 && 0 <= q < 6 && !(c2 == c && q == p) ==> final(pieces)[c2][q] == old(
                pieces,
            )[c2][q],
{
    let v = pieces[c][p] | (1u64 << sq);
    pieces[c][p] = v;
}

impl Board {
    /// Returns piece (color, type) on a square, or None
    pub fn piece_on(&self, sq: usize) -> (r: Option<(Color, Piece)>)
        requires
            sq < 64,
        ensures
            r == piece_at(*self, sq as int),
    {
        let w = find_piece_index(&self.pieces[0], sq);
        if w < 6 {
            return Some((Color::White, index_to_piece(w)));
        }
        let k = find_piece_index(&self.pieces[1], sq);
        if k < 6 {
            return Some((Color::Black, index_to_piece(k)));
        }
        None
    }

    /// Pass move (null move) — flips side, clears ep. Used by null-move pruning.
    pub fn make_null_move(&self) -> (r: Board)
        ensures
            r.pieces == self.pieces,
            r.occ == self.occ,
            r.all == self.all,
            r.side == other(self.side),
            r.castling == self.castling,
            r.ep_sq == NO_EP,
            r.halfmove == self.halfmove.wrapping_add(1),
            r.fullmove == self.fullmove,
            r.keys == self.keys,
            r.zobrist == (if self.ep_sq != NO_EP {
                self.zobrist ^ self.keys.ep[(self.ep_sq % 8) as int]
            } else {
                self.zobrist
            }) ^ self.keys.side,
            self.castling < 16 ==> well_indexed(r),
            valid(*self) ==> valid(r),
            hash_ok(*self) ==> hash_ok(r),
    {
        let mut b = self.clone();
        if b.ep_sq != 255 {
            b.zobrist = b.zobrist ^ b.keys.ep[(b.ep_sq % 8) as usize];
            b.ep_sq = 255;
        }
        b.halfmove = b.halfmove.wrapping_add(1);
        b.side = b.side.flip();
        b.zobrist = b.zobrist ^ b.keys.side;
        proof {
            if hash_ok(*self) {
                let z = *self.keys;
                let hp = hash_pieces(self.pieces, z);
                let s0 = side_term(self.side, z);
                let cz = z.castling[self.castling as int];
                let e = ep_term(self.ep_sq, z);
                // self.zobrist == ((hp ^ s0) ^ cz) ^ e
                lemma_xor_more((hp ^ s0) ^ cz, (hp ^ s0) ^ cz, e);
                lemma_xor(((hp ^ s0) ^ cz), 0, 0);
                let x = (hp ^ s0) ^ cz;
                // after removing e: x; after side key: x ^ z.side
                lemma_xor_more(hp ^ s0, cz, z.side);
                lemma_xor_more(hp, s0, z.side);
                lemma_xor(z.side, 0, 0);
                lemma_xor_more(hp, z.side, z.side);
                lemma_xor(hp, 0, 0);
                lemma_xor((hp ^ side_term(b.side, z)) ^ cz, 0, 0);
            }
        }
        b
    }

    pub fn make_move(&self, mv: Move) -> (r: Board)
        requires
            self.castling < 16,
            move_in_range(*self, mv),
        ensures
            forall|c: int, p: int|
                0 <= c < 2 && 0 <= p < 6 ==> #[trigger] r.pieces[c][p] == piece_after(
                    *self,
                    mv,
                    c,
                    p,
                ),
            occ_consistent(r),
            r.side == other(self.side),
            r.castling == castling_after(*self, mv),
            r.castling < 16,
            r.ep_sq == ep_after(*self, mv),
            r.halfmove == halfmove_after(*self, mv),
            r.fullmove == fullmove_after(*self, mv),
            r.keys == self.keys,
            r.zobrist == move_hash(*self, mv),
            valid(r),
            played(*self, mv, r),
            move_consistent(*self, mv) && hash_ok(*self) ==> hash_ok(r),
    {
        let us = self.side.index();
        let them = 1 - us;
        let from = mv.from();
        let to = mv.to();
        let flags = mv.flags();
        let ghost z = *self.keys;
        let ghost good = move_consistent(*self, mv) && hash_ok(*self);
        let ghost s_old = side_term(self.side, z);
        let pieces = self.pieces;

        // Un-hash ep/castling before change
        let mut h = self.zobrist;
        if self.ep_sq != 255 {
            h = h ^ self.keys.ep[(self.ep_sq % 8) as usize];
        }
        h = h ^ self.keys.castling[self.castling as usize];
        proof {
            if good {
                let hp = hash_pieces(pieces, z);
                let cz = z.castling[self.castling as int];
                let e = ep_term(self.ep_sq, z);
                lemma_xor_more((hp ^ s_old) ^ cz, (hp ^ s_old) ^ cz, e);
                lemma_xor(((hp ^ s_old) ^ cz), 0, 0);
                lemma_xor_more(hp ^ s_old, hp ^ s_old, cz);
                assert(h == hash_pieces(pieces, z) ^ s_old);
            }
        }

        let (pieces, h) = self.move_pieces(mv, h, Ghost(good), Ghost(s_old));
        let ghost h6 = h;

        // Update castling rights
        let mask_from = castling_rights_mask(from);
        let mask_to = castling_rights_mask(to);
        let old_castling = self.castling;
        let castling = old_castling & mask_from & mask_to;
        assert(castling < 16) by (bit_vector)
            requires
                castling == old_castling & mask_from & mask_to,
                old_castling < 16,
        ;

        // Update en passant square
        let ep_sq: u8 = if flags == FLAG_DOUBLE_PUSH {
            if us == 0 {
                (to - 8) as u8
            } else {
                (to + 8) as u8
            }
        } else {
            255
        };

        // Half/full move counters
        let found = find_piece_index(&self.pieces[us], from);
        let moving = if found < 6 {
            found
        } else {
            0
        };
        let captured = find_piece_index(&self.pieces[them], to);
        let halfmove = if moving == 0 || flags == FLAG_EP_CAPTURE || captured < 6 {
            0
        } else {
            self.halfmove.wrapping_add(1)
        };
        let fullmove = if us == 1 {
            self.fullmove.wrapping_add(1)
        } else {
            self.fullmove
        };

        let side = self.side.flip();
        let mut h = h;
        h = h ^ self.keys.side;
        if ep_sq != 255 {
            h = h ^ self.keys.ep[(ep_sq % 8) as usize];
        }
        let ghost h8 = h;
        h = h ^ self.keys.castling[castling as usize];
        let mut b = Board {
            pieces,
            occ: [0, 0],
            all: 0,
            side,
            castling,
            ep_sq,
            halfmove,
            fullmove,
            zobrist: h,
            keys: share_keys(&self.keys),
        };
        b.update_occ();
        proof {
            if good {
                let hp = hash_pieces(pieces, z);
                let s_new = side_term(side, z);
                let e_new = ep_term(ep_sq, z);
                let c_new = z.castling[castling as int];
                // h6 == hp ^ s_old; h6 ^ side key == hp ^ s_new
                lemma_xor_more(hp, s_old, z.side);
                lemma_xor(z.side, 0, 0);
                lemma_xor(hp, 0, 0);
                lemma_xor_more(hp, z.side, z.side);
                assert(h6 ^ z.side == hp ^ s_new);
                lemma_xor(hp ^ s_new, 0, 0);
                assert(h8 == (hp ^ s_new) ^ e_new);
                lemma_xor_more(hp ^ s_new, e_new, c_new);
            }
        }
        b
    }


    /// Moves the pieces of a move on a copy of the bitboards, updating the
    /// hash with the key of each piece that leaves or enters a square.
    #[verifier::rlimit(40)]
    fn move_pieces(&self, mv: Move, h_in: u64, Ghost(good): Ghost<bool>, Ghost(s_old): Ghost<u64>) -> (res: ([[u64; 6]; 2], u64))
        requires
            self.castling < 16,
            move_in_range(*self, mv),
            good ==> move_consistent(*self, mv),
            good ==> h_in == hash_pieces(self.pieces, *self.keys) ^ s_old,
        ensures
            forall|c: int, p: int|
                0 <= c < 2 && 0 <= p < 6 ==> #[trigger] res.0[c][p] == piece_after(*self, mv, c, p),
            res.1 == piece_updates(*self, mv, h_in),
            good ==> res.1 == hash_pieces(res.0, *self.keys) ^ s_old,
    {
        let us = self.side.index();
        let them = 1 - us;
        let from = mv.from();
        let to = mv.to();
        let flags = mv.flags();
        let ghost z = *self.keys;
        let mut pieces = self.pieces;
        let mut h = h_in;
        // Find moving piece
        let found = find_piece_index(&self.pieces[us], from);
        let moving = if found < 6 {
            found
        } else {
            0
        };
        assert(moving == moving_index(*self, mv));
        proof {
            lemma_find_piece(self.pieces[us as int], from as int, 0);
        }

        // Remove moving piece from source
        let ghost p0 = pieces;
        clear_square(&mut pieces, us, moving, from);
        h = h ^ self.keys.pieces[us][moving][from];
        proof {
            if good {
                lemma_toggle_clear(p0[us as int][moving as int], from as int);
                lemma_hash_pieces_toggle(p0, pieces, z, us as int, moving as int, from as int);
                lemma_xor_more(hash_pieces(p0, z), s_old, z.pieces[us as int][moving as int][from as int]);
            }
        }

        // Remove captured piece (normal capture)
        let cap = if flags != FLAG_EP_CAPTURE {
            find_piece_index(&self.pieces[them], to)
        } else {
            6
        };
        assert(cap == captured_index(*self, mv));
        if cap < 6 {
            proof {
                lemma_find_piece(self.pieces[them as int], to as int, 0);
            }
            let ghost p1 = pieces;
            clear_square(&mut pieces, them, cap, to);
            h = h ^ self.keys.pieces[them][cap][to];
            proof {
                if good {
                    lemma_toggle_clear(p1[them as int][cap as int], to as int);
                    lemma_hash_pieces_toggle(p1, pieces, z, them as int, cap as int, to as int);
                    lemma_xor_more(hash_pieces(p1, z), s_old, z.pieces[them as int][cap as int][to as int]);
                }
            }
        }

        // Place piece at destination (or promo piece)
        let land = if flags == FLAG_PROMO {
            mv.promo().index()
        } else {
            moving
        };
        let ghost p2 = pieces;
        set_square(&mut pieces, us, land, to);
        h = h ^ self.keys.pieces[us][land][to];
        proof {
            if good {
                lemma_bit_and_not(self.pieces[us as int][land as int], sq_bb(from as int), to as int);
                lemma_bit_sq_bb_shift(from as int);
                lemma_bit_single(from as int, to as int);
                lemma_toggle_set(p2[us as int][land as int], to as int);
                lemma_bit_sq_bb_shift(to as int);
                lemma_hash_pieces_toggle(p2, pieces, z, us as int, land as int, to as int);
                lemma_xor_more(hash_pieces(p2, z), s_old, z.pieces[us as int][land as int][to as int]);
            }
        }

        // En passant capture
        if flags == FLAG_EP_CAPTURE {
            let ep_cap_sq = if us == 0 {
                to - 8
            } else {
                to + 8
            };
            let ghost p3 = pieces;
            clear_square(&mut pieces, them, 0, ep_cap_sq);
            h = h ^ self.keys.pieces[them][0][ep_cap_sq];
            proof {
                if good {
                    lemma_toggle_clear(p3[them as int][0], ep_cap_sq as int);
                    lemma_bit_sq_bb_shift(ep_cap_sq as int);
                    lemma_hash_pieces_toggle(p3, pieces, z, them as int, 0, ep_cap_sq as int);
                    lemma_xor_more(hash_pieces(p3, z), s_old, z.pieces[them as int][0][ep_cap_sq as int]);
                }
            }
        }

        // Castling: move rook
        if flags == FLAG_KINGSIDE_CASTLE {
            let (rook_from, rook_to): (usize, usize) = if us == 0 {
                (7, 5)
            } else {
                (63, 61)
            };
            self.move_rook(&mut pieces, &mut h, us, rook_from, rook_to, Ghost(good), Ghost(s_old));
        }
        if flags == FLAG_QUEENSIDE_CASTLE {
            let (rook_from, rook_to): (usize, usize) = if us == 0 {
                (0, 3)
            } else {
                (56, 59)
            };
            self.move_rook(&mut pieces, &mut h, us, rook_from, rook_to, Ghost(good), Ghost(s_old));
        }

        proof {
            assert forall|c: int, p: int|
                0 <= c < 2 && 0 <= p < 6 implies #[trigger] pieces[c][p] == piece_after(
                *self,
                mv,
                c,
                p,
            ) by {
                lemma_sq_bb_eq(from as int);
                lemma_sq_bb_eq(to as int);
                if flags == FLAG_EP_CAPTURE {
                    lemma_sq_bb_eq(ep_victim(*self, mv));
                }
                lemma_sq_bb_eq(ks_rook_from(self.side));
                lemma_sq_bb_eq(ks_rook_to(self.side));
                lemma_sq_bb_eq(qs_rook_from(self.side));
                lemma_sq_bb_eq(qs_rook_to(self.side));
            }
        }
        (pieces, h)
    }

    /// Moves the castling rook of bitboard `[us][3]` and updates the hash.
    fn move_rook(
        &self,
        pieces: &mut [[u64; 6]; 2],
        h: &mut u64,
        us: usize,
        rook_from: usize,
        rook_to: usize,
        Ghost(good): Ghost<bool>,
        Ghost(s_old): Ghost<u64>,
    )
        requires
            us < 2,
            rook_from < 64,
            rook_to < 64,
            rook_from != rook_to,
            good ==> bit(old(pieces)[us as int][3], rook_from as int) && !bit(
                old(pieces)[us as int][3],
                rook_to as int,
            ),
            good ==> *old(h) == hash_pieces(*old(pieces), *self.keys) ^ s_old,
        ensures
            final(pieces)[us as int][3] == (old(pieces)[us as int][3] & !sq_bb(rook_from as int))
                | sq_bb(rook_to as int),
            forall|c2: int, q: int|
                0 <= c2 < 2 && 0 <= q < 6 && !(c2 == us && q == 3) ==> final(pieces)[c2][q] == old(
                    pieces,
                )[c2][q],
            *final(h) == (*old(h) ^ self.keys.pieces[us as int][3][rook_from as int])
                ^ self.keys.pieces[us as int][3][rook_to as int],
            good ==> *final(h) == hash_pieces(*final(pieces), *self.keys) ^ s_old,
    {
        let ghost z = *self.keys;
        let ghost p0 = *pieces;
        let ghost h0 = *h;
        clear_square(pieces, us, 3, rook_from);
        let ghost p1 = *pieces;
        *h = *h ^ self.keys.pieces[us][3][rook_from];
        set_square(pieces, us, 3, rook_to);
        *h = *h ^ self.keys.pieces[us][3][rook_to];
        proof {
            if good {
                lemma_toggle_clear(p0[us as int][3], rook_from as int);
                lemma_bit_sq_bb_shift(rook_from as int);
                lemma_hash_pieces_toggle(p0, p1, z, us as int, 3, rook_from as int);
                lemma_xor_more(hash_pieces(p0, z), s_old, z.pieces[us as int][3][rook_from as int]);
                lemma_bit_and_not(p0[us as int][3], sq_bb(rook_from as int), rook_to as int);
                lemma_bit_sq_bb(rook_from as int, rook_to as int);
                lemma_toggle_set(p1[us as int][3], rook_to as int);
                lemma_bit_sq_bb_shift(rook_to as int);
                lemma_hash_pieces_toggle(p1, *pieces, z, us as int, 3, rook_to as int);
                lemma_xor_more(hash_pieces(p1, z), s_old, z.pieces[us as int][3][rook_to as int]);
            }
        }
    }
}

proof fn lemma_bit_sq_bb_shift(t: int)
    requires
        0 <= t < 64,
    ensures
        sq_bb(t) == 1u64 << (t as u64),
{
}

proof fn lemma_sq_bb_eq(t: int)
    ensures
        0 <= t < 64 ==> sq_bb(t) == 1u64 << (t as u64),
{
}

} // verus!
