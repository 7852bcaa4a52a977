//! Colours, piece kinds and the compact move encoding.
use vstd::prelude::*;
use crate::text::chars_to_string;

verus! {

/// A bitboard: bit `i` stands for square `i` (a1 = 0, h8 = 63).
pub type Bitboard = u64;

#[derive(Clone, Copy, PartialEq, Eq, Debug, Structural)]
pub enum Color {
    White,
    Black,
}

/// The index of a colour in the per-colour arrays (White 0, Black 1).
pub open spec fn color_index(c: Color) -> int {
    match c {
        Color::White => 0,
        Color::Black => 1,
    }
}

pub open spec fn other(c: Color) -> Color {
    match c {
        Color::White => Color::Black,
        Color::Black => Color::White,
    }
}

pub open spec fn color_of_index(i: int) -> Color {
    if i == 0 {
        Color::White
    } else {
        Color::Black
    }
}

impl Color {
    /// The opposite colour.
    pub fn flip(self) -> (r: Color)
        ensures
            r == other(self),
    {
        match self {
            Color::White => Color::Black,
            Color::Black => Color::White,
        }
    }

    /// The index of the colour: White 0, Black 1.
    pub fn index(self) -> (r: usize)
        ensures
            r == color_index(self),
            r < 2,
    {
        match self {
            Color::White => 0,
            Color::Black => 1,
        }
    }
}

/// Flipping a colour twice gives it back, and never gives the same colour.
pub proof fn lemma_flip_involution(c: Color)
    ensures
        other(other(c)) == c,
        other(c) != c,
        color_index(other(c)) == 1 - color_index(c),
{
}

#[derive(Clone, Copy, PartialEq, Eq, Debug, Structural)]
pub enum Piece {
    Pawn,
    Knight,
    Bishop,
    Rook,
    Queen,
    King,
}

/// The index of a piece kind in the per-piece arrays (Pawn 0 .. King 5).
pub open spec fn piece_index(p: Piece) -> int {
    match p {
        Piece::Pawn => 0,
        Piece::Knight => 1,
        Piece::Bishop => 2,
        Piece::Rook => 3,
        Piece::Queen => 4,
        Piece::King => 5,
    }
}

/// The piece kind of an index; indices past 5 read as a pawn.
pub open spec fn piece_of_index(i: int) -> Piece {
    if i == 1 {
        Piece::Knight
    } else if i == 2 {
        Piece::Bishop
    } else if i == 3 {
        Piece::Rook
    } else if i == 4 {
        Piece::Queen
    } else if i == 5 {
        Piece::King
    } else {
        Piece::Pawn
    }
}

impl Piece {
    pub fn index(self) -> (r: usize)
        ensures
            r == piece_index(self),
            r < 6,
    {
        match self {
            Piece::Pawn => 0,
            Piece::Knight => 1,
            Piece::Bishop => 2,
            Piece::Rook => 3,
            Piece::Queen => 4,
            Piece::King => 5,
        }
    }
}

pub proof fn lemma_piece_index_roundtrip(p: Piece)
    ensures
        piece_of_index(piece_index(p)) == p,
        0 <= piece_index(p) < 6,
{
}

/// Compact move: from(6) | to(6) | promo(3) | flags(3) — from square in
/// bits 0-5, to square in bits 6-11, promotion code in bits 12-14, flags in
/// bits 15-17.
#[derive(Clone, Copy, PartialEq, Eq, Debug, Structural)]
pub struct Move(pub u32);

pub const FLAG_NONE: u32 = 0;

pub const FLAG_DOUBLE_PUSH: u32 = 1;

pub const FLAG_KINGSIDE_CASTLE: u32 = 2;

pub const FLAG_QUEENSIDE_CASTLE: u32 = 3;

pub const FLAG_EP_CAPTURE: u32 = 4;

/// Promotion; the promoted piece is in bits 12-14.
pub const FLAG_PROMO: u32 = 5;

/// The move with all fields zero: "no move".
pub open spec fn null_move() -> Move {
    Move(0)
}

impl Default for Move {
    fn default() -> (r: Move)
        ensures
            r == null_move(),
    {
        Move(0)
    }
}

/// The encoding of a move.
pub open spec fn encode(from: u32, to: u32, flags: u32, promo: u32) -> Move {
    Move(from | (to << 6u32) | (promo << 12u32) | (flags << 15u32))
}

/// The promoted piece of a promotion code: 0 knight, 1 bishop, 2 rook,
/// anything else queen.
pub open spec fn promo_of_code(code: u32) -> Piece {
    if code == 0 {
        Piece::Knight
    } else if code == 1 {
        Piece::Bishop
    } else if code == 2 {
        Piece::Rook
    } else {
        Piece::Queen
    }
}

impl Move {
    pub open spec fn from_sq(self) -> int {
        (self.0 & 0x3Fu32) as int
    }

    pub open spec fn to_sq(self) -> int {
        ((self.0 >> 6u32) & 0x3Fu32) as int
    }

    pub open spec fn flag_bits(self) -> u32 {
        (self.0 >> 15u32) & 7u32
    }

    pub open spec fn promo_code(self) -> u32 {
        (self.0 >> 12u32) & 7u32
    }

    pub open spec fn promo_piece(self) -> Piece {
        promo_of_code(self.promo_code())
    }

    pub fn new(from: u32, to: u32, flags: u32, promo: u32) -> (r: Move)
        ensures
            r == encode(from, to, flags, promo),
    {
        Move(from | (to << 6) | (promo << 12) | (flags << 15))
    }

    pub fn from(self) -> (r: usize)
        ensures
            r == self.from_sq(),
            r < 64,
    {
        let x = self.0;
        assert(x & 0x3Fu32 < 64) by (bit_vector);
        (x & 0x3F) as usize
    }

    pub fn to(self) -> (r: usize)
        ensures
            r == self.to_sq(),
            r < 64,
    {
        let x = self.0;
        assert((x >> 6u32) & 0x3Fu32 < 64) by (bit_vector);
        ((x >> 6) & 0x3F) as usize
    }

    pub fn flags(self) -> (r: u32)
        ensures
            r == self.flag_bits(),
            r < 8,
    {
        let x = self.0;
        assert((x >> 15u32) & 7u32 < 8) by (bit_vector);
        (x >> 15) & 0x7
    }

    pub fn promo(self) -> (r: Piece)
        ensures
            r == self.promo_piece(),
    {
        match (self.0 >> 12) & 0x7 {
            0 => Piece::Knight,
            1 => Piece::Bishop,
            2 => Piece::Rook,
            3 => Piece::Queen,
            _ => Piece::Queen,
        }
    }

    /// UCI string, e.g. "e2e4", "e7e8q".
    pub fn to_uci(self) -> (r: String)
        ensures
            r@ == uci_chars(self),
    {
        let from = self.from();
        let to = self.to();
        let mut v: Vec<char> = Vec::new();
        v.push(file_char_of(from));
        v.push(rank_char_of(from));
        v.push(file_char_of(to));
        v.push(rank_char_of(to));
        if self.flags() == FLAG_PROMO {
            let c = match self.promo() {
                Piece::Knight => 'n',
                Piece::Bishop => 'b',
                Piece::Rook => 'r',
                Piece::Queen => 'q',
                _ => 'q',
            };
            v.push(c);
        }
        proof {
            if self.flag_bits() == FLAG_PROMO {
                assert(v@ =~= uci_chars(self));
            } else {
                assert(v@ =~= uci_chars(self));
            }
        }
        chars_to_string(&v)
    }
}

/// The file letter of a square: 'a' for file 0 .. 'h' for file 7.
pub open spec fn file_char(s: int) -> char {
    ((97 + s % 8) as u32) as char
}

/// The rank digit of a square: '1' for rank 0 .. '8' for rank 7.
pub open spec fn rank_char(s: int) -> char {
    ((49 + s / 8) as u32) as char
}

pub open spec fn promo_char(p: Piece) -> char {
    match p {
        Piece::Knight => 'n',
        Piece::Bishop => 'b',
        Piece::Rook => 'r',
        _ => 'q',
    }
}

/// The UCI text of a move: from square, to square, and for a promotion the
/// letter of the promoted piece.
pub open spec fn uci_chars(m: Move) -> Seq<char> {
    seq![file_char(m.from_sq()), rank_char(m.from_sq()), file_char(m.to_sq()), rank_char(m.to_sq())]
        + if m.flag_bits() == FLAG_PROMO {
        seq![promo_char(m.promo_piece())]
    } else {
        Seq::empty()
    }
}

fn file_char_of(s: usize) -> (c: char)
    requires
        s < 64,
    ensures
        c == file_char(s as int),
{
    let b: u8 = 97 + (s % 8) as u8;
    b as char
}

fn rank_char_of(s: usize) -> (c: char)
    requires
        s < 64,
    ensures
        c == rank_char(s as int),
{
    let b: u8 = 49 + (s / 8) as u8;
    b as char
}

/// Encoding a move and reading its fields back gives the fields, when each
/// field fits in its bits.
pub proof fn lemma_move_roundtrip(from: u32, to: u32, flags: u32, promo: u32)
    requires
        from < 64,
        to < 64,
        flags < 8,
        promo < 8,
    ensures
        encode(from, to, flags, promo).from_sq() == from,
        encode(from, to, flags, promo).to_sq() == to,
        encode(from, to, flags, promo).flag_bits() == flags,
        encode(from, to, flags, promo).promo_code() == promo,
{
    assert((from | (to << 6u32) | (promo << 12u32) | (flags << 15u32)) & 0x3Fu32 == from)
        by (bit_vector)
        requires
            from < 64,
            to < 64,
            flags < 8,
            promo < 8,
    ;
    assert(((from | (to << 6u32) | (promo << 12u32) | (flags << 15u32)) >> 6u32) & 0x3Fu32 == to)
        by (bit_vector)
        requires
            from < 64,
            to < 64,
            flags < 8,
            promo < 8,
    ;
    assert(((from | (to << 6u32) | (promo << 12u32) | (flags << 15u32)) >> 15u32) & 7u32 == flags)
        by (bit_vector)
        requires
            from < 64,
            to < 64,
            flags < 8,
            promo < 8,
    ;
    assert(((from | (to << 6u32) | (promo << 12u32) | (flags << 15u32)) >> 12u32) & 7u32 == promo)
        by (bit_vector)
        requires
            from < 64,
            to < 64,
            flags < 8,
            promo < 8,
    ;
}

} // verus!
