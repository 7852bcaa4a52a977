//! Reading positions in Forsyth-Edwards Notation.
use vstd::prelude::*;
use std::rc::Rc;
use crate::bits::{bit, lemma_bit_or, lemma_bit_single, lemma_bit_zero, lemma_bits_ext};
use crate::board::{
    Board, zobrist, keys_drawn, occ_consistent, hash_ok, valid, CASTLE_WK, CASTLE_WQ,
    CASTLE_BK, CASTLE_BQ, NO_EP,
};
use crate::movegen::has_king;
use crate::text::{
    str_chars, split_tokens, tokens, views, is_uppercase, char_is_uppercase, to_ascii_lower,
    ascii_lower, parse_u32, parse_u32_spec,
};
use crate::types::{Color, Piece, color_index, color_of_index, piece_of_index};

verus! {

/// Colour index of a piece letter: upper case is White.
pub open spec fn color_of_char(ch: char) -> int {
    if char_is_uppercase(ch) {
        0
    } else {
        1
    }
}

/// Piece index of a piece letter; unknown letters read as pawns.
pub open spec fn piece_of_char(ch: char) -> int {
    let l = ascii_lower(ch);
    if l == 'n' {
        1
    } else if l == 'b' {
        2
    } else if l == 'r' {
        3
    } else if l == 'q' {
        4
    } else if l == 'k' {
        5
    } else {
        0
    }
}

/// The pieces placed by the placement field from position `i` on, rank and
/// file being where the next piece goes: each as (colour, piece, square).
/// '/' goes down a rank to its first file, a digit skips that many files,
/// any other character places a piece and moves one file on.
pub open spec fn placements(s: Seq<char>, i: int, rank: int, file: int) -> Seq<(int, int, int)>
    decreases s.len() - i,
{
    if i < 0 || i >= s.len() {
        Seq::empty()
    } else {
        let ch = s[i];
        if ch == '/' {
            placements(s, i + 1, rank - 1, 0)
        } else if '1' <= ch && ch <= '8' {
            placements(s, i + 1, rank, file + ((ch as u32) - 48))
        } else {
            seq![(color_of_char(ch), piece_of_char(ch), rank * 8 + file)] + placements(
                s,
                i + 1,
                rank,
                file + 1,
            )
        }
    }
}

/// The placement field puts (colour, piece) on `sq`.
pub open spec fn placed(pl: Seq<(int, int, int)>, c: int, p: int, sq: int) -> bool {
    exists|k: int| 0 <= k < pl.len() && pl[k] == (c, p, sq)
}

/// Every piece of the placement field lands on the board.
pub open spec fn placement_fits(s: Seq<char>) -> bool {
    let pl = placements(s, 0, 7, 0);
    forall|k: int| 0 <= k < pl.len() ==> 0 <= (#[trigger] pl[k]).2 < 64
}

pub open spec fn is_ascii_char(c: char) -> bool {
    (c as u32) < 128
}

/// An en-passant field that can be read: one ASCII character (ignored), or
/// a letter from 'a' and a digit from '1' whose square number fits in a byte.
pub open spec fn ep_field_ok(t: Seq<char>) -> bool {
    ||| (t.len() == 1 && is_ascii_char(t[0]))
    ||| (t.len() >= 2 && is_ascii_char(t[0]) && is_ascii_char(t[1]) && (t[0] as u32) >= 97 && (
    t[1] as u32) >= 49 && ((t[1] as u32) - 49) * 8 <= 255 && ((t[1] as u32) - 49) * 8 + ((t[0] as u32) - 97)
        <= 255)
}

/// A FEN that `from_fen` reads without running off the board: the pieces
/// land on the board, the en-passant field can be read, and the placement
/// field is short enough for its rank and file counters.
pub open spec fn fen_ok(fen: Seq<char>) -> bool {
    let t = tokens(fen);
    &&& (t.len() > 0 ==> t[0].len() < 0x0800_0000 && placement_fits(t[0]))
    &&& (t.len() > 3 && t[3] != seq!['-'] ==> ep_field_ok(t[3]))
}

pub open spec fn side_of_fields(t: Seq<Seq<char>>) -> Color {
    if t.len() > 1 && t[1] == seq!['b'] {
        Color::Black
    } else {
        Color::White
    }
}

/// The castling rights named by a castling field.
pub open spec fn castling_of_field(s: Seq<char>) -> u8 {
    ((if s.contains('K') { 1int } else { 0int }) + (if s.contains('Q') { 2int } else { 0int }) + (
    if s.contains('k') {
        4int
    } else {
        0int
    }) + (if s.contains('q') { 8int } else { 0int })) as u8
}

pub open spec fn castling_of_fields(t: Seq<Seq<char>>) -> u8 {
    if t.len() > 2 {
        castling_of_field(t[2])
    } else {
        0
    }
}

pub open spec fn ep_of_fields(t: Seq<Seq<char>>) -> u8 {
    if t.len() > 3 && t[3] != seq!['-'] && t[3].len() >= 2 {
        (((t[3][1] as u32) - 49) * 8 + ((t[3][0] as u32) - 97)) as u8
    } else {
        NO_EP
    }
}

pub open spec fn number_or(t: Seq<Seq<char>>, i: int, default: u32) -> u32 {
    if t.len() > i {
        match parse_u32_spec(t[i]) {
            Some(v) => v,
            None => default,
        }
    } else {
        default
    }
}

/// Colour and piece kind of a piece letter.
pub fn char_to_piece(ch: char) -> (r: (Color, Piece))
    ensures
        r.0 == color_of_index(color_of_char(ch)),
        r.1 == piece_of_index(piece_of_char(ch)),
{
    let color = if is_uppercase(ch) {
        Color::White
    } else {
        Color::Black
    };
    let piece = match to_ascii_lower(ch) {
        'p' => Piece::Pawn,
        'n' => Piece::Knight,
        'b' => Piece::Bishop,
        'r' => Piece::Rook,
        'q' => Piece::Queen,
        'k' => Piece::King,
        _ => Piece::Pawn,
    };
    (color, piece)
}

/// Places the pieces of a placement field.
fn place_pieces(s: &Vec<char>) -> (pieces: [[u64; 6]; 2])
    requires
        s@.len() < 0x0800_0000,
        placement_fits(s@),
    ensures
        forall|c: int, p: int, sq: int|
            0 <= c < 2 && 0 <= p < 6 ==> (#[trigger] bit(pieces[c][p], sq) <==> placed(
                placements(s@, 0, 7, 0),
                c,
                p,
                sq,
            )),
{
    let mut pieces = [[0u64; 6]; 2];
    let mut rank: i32 = 7;
    let mut file: i32 = 0;
    let ghost total = placements(s@, 0, 7, 0);
    let ghost mut done: Seq<(int, int, int)> = Seq::empty();
    let mut i: usize = 0;
    proof {
        assert forall|c: int, p: int, sq: int|
            0 <= c < 2 && 0 <= p < 6 implies (#[trigger] bit(pieces[c][p], sq) <==> placed(
            done,
            c,
            p,
            sq,
        )) by {
            lemma_bit_zero(sq);
        }
    }
    while i < s.len()
        invariant
            i <= s.len(),
            s@.len() < 0x0800_0000,
            total == placements(s@, 0, 7, 0),
            forall|k: int| 0 <= k < total.len() ==> 0 <= (#[trigger] total[k]).2 < 64,
            total == done + placements(s@, i as int, rank as int, file as int),
            7 - i <= rank <= 7,
            0 <= file <= 8 * i,
            forall|c: int, p: int, sq: int|
                0 <= c < 2 && 0 <= p < 6 ==> (#[trigger] bit(pieces[c][p], sq) <==> placed(
                    done,
                    c,
                    p,
                    sq,
                )),
        decreases s.len() - i,
    {
        let ch = s[i];
        if ch == '/' {
            rank = rank - 1;
            file = 0;
        } else if '1' <= ch && ch <= '8' {
            file = file + ((ch as u32) - 48) as i32;
        } else {
            let (color, piece) = char_to_piece(ch);
            let c = color.index();
            let p = piece.index();
            let ghost entry = (color_of_char(ch), piece_of_char(ch), rank * 8 + file);
            proof {
                let rest = placements(s@, i as int + 1, rank as int, file as int + 1);
                assert(placements(s@, i as int, rank as int, file as int) == seq![entry] + rest);
                assert(total[done.len() as int] == entry);
            }
            let sq = (rank * 8 + file) as usize;
            let old_pieces = pieces;
            pieces[c][p] = pieces[c][p] | (1u64 << sq);
            proof {
                assert(seq![entry] + placements(s@, i as int + 1, rank as int, file as int + 1)
                    =~= seq![entry] + placements(s@, i as int + 1, rank as int, file as int + 1));
                let nd = done.push(entry);
                assert(done + (seq![entry] + placements(s@, i as int + 1, rank as int, file as int + 1))
                    =~= nd + placements(s@, i as int + 1, rank as int, file as int + 1));
                assert forall|c2: int, p2: int, x: int|
                    0 <= c2 < 2 && 0 <= p2 < 6 implies (#[trigger] bit(pieces[c2][p2], x)
                    <==> placed(nd, c2, p2, x)) by {
                    if c2 == c && p2 == p {
                        lemma_bit_or(old_pieces[c2][p2], 1u64 << (sq as u64), x);
                        lemma_bit_single(sq as int, x);
                    }
                    if placed(nd, c2, p2, x) {
                        let k = choose|k: int| 0 <= k < nd.len() && nd[k] == (c2, p2, x);
                        if k < done.len() {
                            assert(done[k] == nd[k]);
                        }
                    }
                    if placed(done, c2, p2, x) {
                        let k = choose|k: int| 0 <= k < done.len() && done[k] == (c2, p2, x);
                        assert(nd[k] == done[k]);
                    }
                    if c2 == c && p2 == p && x == sq {
                        assert(nd[done.len() as int] == entry);
                    }
                }
                done = nd;
            }
            file = file + 1;
        }
        i = i + 1;
    }
    proof {
        assert(done =~= total);
    }
    pieces
}

/// Checks that every piece of a placement field lands on the board.
fn placement_fits_check(s: &Vec<char>) -> (r: bool)
    requires
        s@.len() < 0x0800_0000,
    ensures
        r == placement_fits(s@),
{
    let mut rank: i32 = 7;
    let mut file: i32 = 0;
    let mut ok = true;
    let ghost total = placements(s@, 0, 7, 0);
    let ghost mut done: Seq<(int, int, int)> = Seq::empty();
    let mut i: usize = 0;
    while i < s.len()
        invariant
            i <= s.len(),
            s@.len() < 0x0800_0000,
            total == placements(s@, 0, 7, 0),
            total == done + placements(s@, i as int, rank as int, file as int),
            7 - i <= rank <= 7,
            0 <= file <= 8 * i,
            ok <==> forall|k: int| 0 <= k < done.len() ==> 0 <= (#[trigger] done[k]).2 < 64,
        decreases s.len() - i,
    {
        let ch = s[i];
        if ch == '/' {
            rank = rank - 1;
            file = 0;
        } else if '1' <= ch && ch <= '8' {
            file = file + ((ch as u32) - 48) as i32;
        } else {
            let ghost entry = (color_of_char(ch), piece_of_char(ch), rank * 8 + file);
            let sq = rank * 8 + file;
            if sq < 0 || sq >= 64 {
                ok = false;
            }
            proof {
                let rest = placements(s@, i as int + 1, rank as int, file as int + 1);
                assert(placements(s@, i as int, rank as int, file as int) == seq![entry] + rest);
                let nd = done.push(entry);
                assert(done + (seq![entry] + rest) =~= nd + rest);
                assert(nd[done.len() as int] == entry);
                assert forall|k: int| 0 <= k < done.len() implies nd[k] == done[k] by {}
                done = nd;
            }
            file = file + 1;
        }
        i = i + 1;
    }
    proof {
        assert(done =~= total);
    }
    ok
}

/// Checks `ep_field_ok`.
fn ep_field_check(t: &Vec<char>) -> (r: bool)
    ensures
        r == ep_field_ok(t@),
{
    if t.len() == 1 {
        return (t[0] as u32) < 128;
    }
    if t.len() < 2 {
        return false;
    }
    let a = t[0] as u32;
    let b = t[1] as u32;
    a < 128 && b < 128 && a >= 97 && b >= 49 && (b - 49) * 8 <= 255 && (b - 49) * 8 + (a - 97)
        <= 255
}

/// Checks that `from_fen` can read a FEN (see `fen_ok`).
pub fn fen_is_readable(fen: &str) -> (r: bool)
    ensures
        r == fen_ok(fen@),
{
    let chars = str_chars(fen);
    let parts = split_tokens(&chars);
    proof {
        assert(views(parts@) == tokens(fen@));
    }
    if parts.len() > 0 {
        if parts[0].len() >= 0x0800_0000 {
            return false;
        }
        if !placement_fits_check(&parts[0]) {
            return false;
        }
    }
    if parts.len() > 3 {
        let dash = vec!['-'];
        let is_dash = crate::text::chars_eq(&parts[3], &dash);
        assert(dash@ =~= seq!['-']);
        if !is_dash && !ep_field_check(&parts[3]) {
            return false;
        }
    }
    true
}

/// `b` is the position a FEN describes, as `from_fen` reads it: the pieces
/// the placement field puts down, the side, castling rights, en-passant
/// square and counters of the other fields, and the hash of all that (0 for
/// an empty FEN).
pub open spec fn fen_board(fen: Seq<char>, b: Board) -> bool {
    let t = tokens(fen);
    &&& forall|c: int, p: int, sq: int|
        0 <= c < 2 && 0 <= p < 6 ==> (#[trigger] bit(b.pieces[c][p], sq) <==> (t.len() > 0 && placed(
            placements(t[0], 0, 7, 0),
            c,
            p,
            sq,
        )))
    &&& b.side == side_of_fields(t)
    &&& b.castling == castling_of_fields(t)
    &&& b.ep_sq == ep_of_fields(t)
    &&& b.halfmove == number_or(t, 4, 0)
    &&& b.fullmove == number_or(t, 5, 1)
    &&& (t.len() > 0 ==> hash_ok(b))
    &&& (t.len() == 0 ==> b.zobrist == 0)
    &&& occ_consistent(b)
    &&& b.castling < 16
    &&& keys_drawn(*b.keys)
}

/// The en-passant field of a FEN names a square by a file letter and a rank
/// digit: the square read is the one on that file and that rank.
pub proof fn lemma_fen_ep_square(fen: Seq<char>, b: Board)
    requires
        fen_board(fen, b),
        tokens(fen).len() > 3,
        tokens(fen)[3].len() == 2,
        97 <= (tokens(fen)[3][0] as u32) <= 104,
        49 <= (tokens(fen)[3][1] as u32) <= 56,
    ensures
        0 <= b.ep_sq < 64,
        crate::attacks::file_of(b.ep_sq as int) == (tokens(fen)[3][0] as u32) - 97,
        crate::attacks::rank_of(b.ep_sq as int) == (tokens(fen)[3][1] as u32) - 49,
{
    let t = tokens(fen);
    assert(t[3] != seq!['-']) by {
        if t[3] == seq!['-'] {
            assert(t[3].len() == 1);
        }
    }
    let f = (t[3][0] as u32) - 97;
    let r = (t[3][1] as u32) - 49;
    assert(0 <= f < 8 && 0 <= r < 8);
    assert(b.ep_sq == ((r * 8 + f) as u32) as u8);
    assert(b.ep_sq as int == r * 8 + f);
}

/// A FEN that reads into a sound position: readable, with an en-passant
/// square on the board or none.
pub open spec fn fen_valid(fen: Seq<char>) -> bool {
    &&& fen_ok(fen)
    &&& (ep_of_fields(tokens(fen)) == NO_EP || ep_of_fields(tokens(fen)) < 64)
}

/// A FEN that a search can start from: sound, and the side to move has a
/// king on the board.
pub open spec fn fen_playable(fen: Seq<char>) -> bool {
    let t = tokens(fen);
    &&& fen_valid(fen)
    &&& t.len() > 0
    &&& exists|sq: int| 0 <= sq < 64 && placed(placements(t[0], 0, 7, 0), color_index(side_of_fields(t)), 5, sq)
}

/// The position of a playable FEN is sound and has a king for the side to
/// move.
pub proof fn lemma_fen_playable(fen: Seq<char>, b: Board)
    requires
        fen_board(fen, b),
    ensures
        fen_valid(fen) ==> valid(b),
        fen_playable(fen) <==> fen_valid(fen) && has_king(b),
{
    let t = tokens(fen);
    let us = color_index(b.side);
    if fen_valid(fen) {
        if t.len() > 0 && exists|sq: int| 0 <= sq < 64 && placed(placements(t[0], 0, 7, 0), us, 5, sq) {
            let sq = choose|sq: int| 0 <= sq < 64 && placed(placements(t[0], 0, 7, 0), us, 5, sq);
            assert(bit(b.pieces[us][5], sq));
            lemma_bit_zero(sq);
        }
        if has_king(b) {
            if !(exists|sq: int| 0 <= sq < 64 && bit(b.pieces[us][5], sq)) {
                assert forall|sq: int| 0 <= sq < 64 implies bit(b.pieces[us][5], sq) == bit(0u64, sq) by {
                    lemma_bit_zero(sq);
                }
                lemma_bits_ext(b.pieces[us][5], 0u64);
            }
            let sq = choose|sq: int| 0 <= sq < 64 && bit(b.pieces[us][5], sq);
            assert(t.len() > 0 && placed(placements(t[0], 0, 7, 0), us, 5, sq));
        }
    }
}

/// Checks that a FEN reads into a sound position (see `fen_valid`).
pub fn fen_is_valid(fen: &str) -> (r: bool)
    ensures
        r == fen_valid(fen@),
{
    if !fen_is_readable(fen) {
        return false;
    }
    let b = Board::from_fen(fen);
    b.ep_sq == 255 || b.ep_sq < 64
}

/// Checks that a FEN is one a search can start from (see `fen_playable`).
pub fn fen_is_playable(fen: &str) -> (r: bool)
    ensures
        r == fen_playable(fen@),
{
    if !fen_is_readable(fen) {
        return false;
    }
    let b = Board::from_fen(fen);
    proof {
        lemma_fen_playable(fen@, b);
    }
    (b.ep_sq == 255 || b.ep_sq < 64) && b.pieces[b.side.index()][5] != 0
}

impl Board {
    pub fn from_fen(fen: &str) -> (b: Board)
        requires
            fen_ok(fen@),
        ensures
            fen_board(fen@, b),
    {
        let keys = Rc::new(zobrist());
        let chars = str_chars(fen);
        let parts = split_tokens(&chars);
        let ghost t = tokens(fen@);
        assert(views(parts@) == t);
        assert forall|i: int| 0 <= i < parts.len() implies parts@[i]@ == t[i] by {}
        if parts.len() == 0 {
            let b = Board {
                pieces: [[0; 6]; 2],
                occ: [0; 2],
                all: 0,
                side: Color::White,
                castling: 0,
                ep_sq: 255,
                halfmove: 0,
                fullmove: 1,
                zobrist: 0,
                keys,
            };
            proof {
                assert forall|c: int, p: int, sq: int|
                    0 <= c < 2 && 0 <= p < 6 implies !#[trigger] bit(b.pieces[c][p], sq) by {
                    assert(b.pieces[c][p] == 0);
                    lemma_bit_zero(sq);
                }
                assert(0u64 | 0u64 | 0u64 | 0u64 | 0u64 | 0u64 == 0u64) by (bit_vector);
                assert(b.pieces[0][0] == 0 && b.pieces[0][1] == 0 && b.pieces[0][2] == 0);
                assert(b.pieces[0][3] == 0 && b.pieces[0][4] == 0 && b.pieces[0][5] == 0);
                assert(b.pieces[1][0] == 0 && b.pieces[1][1] == 0 && b.pieces[1][2] == 0);
                assert(b.pieces[1][3] == 0 && b.pieces[1][4] == 0 && b.pieces[1][5] == 0);
                assert(b.occ[0] == 0 && b.occ[1] == 0);
                assert(0u64 | 0u64 == 0u64) by (bit_vector);
            }
            return b;
        }

        // Piece placement
        let pieces = place_pieces(&parts[0]);

        // Side to move
        let mut side = Color::White;
        if parts.len() > 1 {
            let b_field = vec!['b'];
            assert(b_field@ =~= seq!['b']);
            side = if crate::text::chars_eq(&parts[1], &b_field) {
                Color::Black
            } else {
                Color::White
            };
        }

        // Castling
        let mut castling: u8 = 0;
        if parts.len() > 2 {
            castling = castling_field(&parts[2]);
        }

        // En passant
        let mut ep_sq: u8 = 255;
        if parts.len() > 3 {
            let dash = vec!['-'];
            assert(dash@ =~= seq!['-']);
            if !crate::text::chars_eq(&parts[3], &dash) {
                let ep = &parts[3];
                if ep.len() >= 2 {
                    let f = ((ep[0] as u32) - 97) as u8;
                    let r = ((ep[1] as u32) - 49) as u8;
                    ep_sq = r * 8 + f;
                }
            }
        }

        let mut halfmove: u32 = 0;
        if parts.len() > 4 {
            halfmove = match parse_u32(&parts[4]) {
                Some(v) => v,
                None => 0,
            };
        }
        let mut fullmove: u32 = 1;
        if parts.len() > 5 {
            fullmove = match parse_u32(&parts[5]) {
                Some(v) => v,
                None => 1,
            };
        }
        let mut b = Board {
            pieces,
            occ: [0; 2],
            all: 0,
            side,
            castling,
            ep_sq,
            halfmove,
            fullmove,
            zobrist: 0,
            keys,
        };
        b.update_occ();
        b.compute_zobrist();
        b
    }
}

/// The castling rights named by a castling field.
fn castling_field(s: &Vec<char>) -> (r: u8)
    ensures
        r == castling_of_field(s@),
        r < 16,
{
    let mut wk = false;
    let mut wq = false;
    let mut bk = false;
    let mut bq = false;
    let mut i: usize = 0;
    while i < s.len()
        invariant
            i <= s.len(),
            wk == (exists|j: int| 0 <= j < i && s@[j] == 'K'),
            wq == (exists|j: int| 0 <= j < i && s@[j] == 'Q'),
            bk == (exists|j: int| 0 <= j < i && s@[j] == 'k'),
            bq == (exists|j: int| 0 <= j < i && s@[j] == 'q'),
        decreases s.len() - i,
    {
        let ch = s[i];
        if ch == 'K' {
            wk = true;
        } else if ch == 'Q' {
            wq = true;
        } else if ch == 'k' {
            bk = true;
        } else if ch == 'q' {
            bq = true;
        }
        i = i + 1;
    }
    let mut castling: u8 = 0;
    if wk {
        castling = castling + CASTLE_WK;
    }
    if wq {
        castling = castling + CASTLE_WQ;
    }
    if bk {
        castling = castling + CASTLE_BK;
    }
    if bq {
        castling = castling + CASTLE_BQ;
    }
    castling
}


/// The piece bitboards of the starting position, `[color][piece]`.
pub open spec fn start_pieces(c: int, p: int) -> u64 {
    if c == 0 {
        if p == 0 {
            0x000000000000FF00u64
        } else if p == 1 {
            0x0000000000000042u64
        } else if p == 2 {
            0x0000000000000024u64
        } else if p == 3 {
            0x0000000000000081u64
        } else if p == 4 {
            0x0000000000000008u64
        } else {
            0x0000000000000010u64
        }
    } else {
        if p == 0 {
            0x00FF000000000000u64
        } else if p == 1 {
            0x4200000000000000u64
        } else if p == 2 {
            0x2400000000000000u64
        } else if p == 3 {
            0x8100000000000000u64
        } else if p == 4 {
            0x0800000000000000u64
        } else {
            0x1000000000000000u64
        }
    }
}

/// `b` is the standard starting position.
pub open spec fn start_board(b: Board) -> bool {
    &&& forall|c: int, p: int| 0 <= c < 2 && 0 <= p < 6 ==> #[trigger] b.pieces[c][p] == start_pieces(c, p)
    &&& b.side == Color::White
    &&& b.castling == 15
    &&& b.ep_sq == NO_EP
    &&& b.halfmove == 0
    &&& b.fullmove == 1
    &&& occ_consistent(b)
    &&& hash_ok(b)
    &&& keys_drawn(*b.keys)
}

/// The starting position is sound and White has a king.
pub proof fn lemma_start_board(b: Board)
    requires
        start_board(b),
    ensures
        valid(b),
        has_king(b),
{
    assert(b.pieces[0][5] == start_pieces(0, 5));
}

impl Board {
    /// The standard starting position,
    /// "rnbqkbnr/pppppppp/8/8/8/8/PPPPPPPP/RNBQKBNR w KQkq - 0 1".
    pub fn startpos() -> (b: Board)
        ensures
            start_board(b),
    {
        let pieces: [[u64; 6]; 2] = [
            [
                0x000000000000FF00,
                0x0000000000000042,
                0x0000000000000024,
                0x0000000000000081,
                0x0000000000000008,
                0x0000000000000010,
            ],
            [
                0x00FF000000000000,
                0x4200000000000000,
                0x2400000000000000,
                0x8100000000000000,
                0x0800000000000000,
                0x1000000000000000,
            ],
        ];
        let mut b = Board {
            pieces,
            occ: [0; 2],
            all: 0,
            side: Color::White,
            // CASTLE_WK | CASTLE_WQ | CASTLE_BK | CASTLE_BQ
            castling: 15,
            ep_sq: 255,
            halfmove: 0,
            fullmove: 1,
            zobrist: 0,
            keys: Rc::new(zobrist()),
        };
        b.update_occ();
        b.compute_zobrist();
        b
    }
}

} // verus!
