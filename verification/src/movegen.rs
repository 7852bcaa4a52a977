//! Attack detection and move generation.
use vstd::prelude::*;
use vstd::std_specs::bits::u64_trailing_zeros;
use vstd::string::StringSliceAdditionalSpecFns;
use crate::text::{utf8, utf8_char};
use crate::attacks::{
    lemma_pawn_bb,
    knight_attacks, king_attacks, pawn_attacks, bishop_attacks, rook_attacks, knight_bb, king_bb,
    pawn_bb, bishop_bb, rook_bb,
};
use crate::bits::{
    bit, squares, lemma_lowest, lemma_test_bit, lemma_bit_and, lemma_bit_and_not, lemma_bit_shl8,
    lemma_bit_shr8, lemma_bit_rank_mask, lemma_squares_pop, lemma_count_pop, popcount,
    lemma_squares_from_members, lemma_squares_zero,
};
use crate::board::{Board, well_indexed, move_in_range, piece_after, CASTLE_WK, CASTLE_WQ, CASTLE_BK, CASTLE_BQ};
use crate::types::{
    Bitboard, Color, Move, Piece, color_index, other, encode, lemma_move_roundtrip, uci_chars, promo_char, FLAG_NONE, FLAG_KINGSIDE_CASTLE,
    FLAG_QUEENSIDE_CASTLE, FLAG_PROMO, FLAG_DOUBLE_PUSH, FLAG_EP_CAPTURE,
};

verus! {

// ── Attack detection ──────────────────────────────────────────────────────────

/// Square `sq` is attacked by a piece of colour index `c`, the pieces being
/// `pc(colour, piece)` and `all` the occupied squares.
pub open spec fn attacked_in(pc: spec_fn(int, int) -> u64, all: u64, sq: int, c: int) -> bool {
    ||| pawn_bb(1 - c, sq) & pc(c, 0) != 0
    ||| knight_bb(sq) & pc(c, 1) != 0
    ||| king_bb(sq) & pc(c, 5) != 0
    ||| bishop_bb(sq, all) & (pc(c, 2) | pc(c, 4)) != 0
    ||| rook_bb(sq, all) & (pc(c, 3) | pc(c, 4)) != 0
}

/// The piece bitboards of a board, as a function.
pub open spec fn board_pc(b: Board) -> spec_fn(int, int) -> u64 {
    |c: int, p: int| b.pieces[c][p]
}

pub open spec fn attacked(b: Board, sq: int, c: int) -> bool {
    attacked_in(board_pc(b), b.all, sq, c)
}

pub fn square_attacked(board: &Board, sq: usize, by: Color) -> (r: bool)
    requires
        sq < 64,
    ensures
        r == attacked(*board, sq as int, color_index(by)),
{
    let c = by.index();
    let occ = board.all;
    if pawn_attacks(by.flip(), sq) & board.pieces[c][0] != 0 {
        return true;
    }
    if knight_attacks(sq) & board.pieces[c][1] != 0 {
        return true;
    }
    if king_attacks(sq) & board.pieces[c][5] != 0 {
        return true;
    }
    if bishop_attacks(sq, occ) & (board.pieces[c][2] | board.pieces[c][4]) != 0 {
        return true;
    }
    if rook_attacks(sq, occ) & (board.pieces[c][3] | board.pieces[c][4]) != 0 {
        return true;
    }
    false
}

/// The side to move has a king and it is attacked; with several kings, the
/// one on the lowest square counts.
pub open spec fn checked(b: Board) -> bool {
    let kb = b.pieces[color_index(b.side)][5];
    kb != 0 && attacked(b, u64_trailing_zeros(kb) as int, 1 - color_index(b.side))
}

pub fn in_check(board: &Board) -> (r: bool)
    ensures
        r == checked(*board),
{
    let us = board.side.index();
    let king_bb = board.pieces[us][5];
    if king_bb == 0 {
        return false;
    }
    proof {
        lemma_lowest(king_bb);
    }
    let king_sq = king_bb.trailing_zeros() as usize;
    square_attacked(board, king_sq, board.side.flip())
}

// ── Move lists ────────────────────────────────────────────────────────────────

/// Moves from `from` to each of `tos`, in order, with the given flags.
pub open spec fn targets_moves(from: int, tos: Seq<int>, flags: u32) -> Seq<Move> {
    Seq::new(tos.len(), |i: int| encode(from as u32, tos[i] as u32, flags, 0))
}

proof fn lemma_targets_moves_pop(from: int, t: int, rest: Seq<int>, flags: u32)
    ensures
        targets_moves(from, seq![t] + rest, flags) =~= seq![encode(from as u32, t as u32, flags, 0)]
            + targets_moves(from, rest, flags),
{
}

/// Pushes a move from `from` to each member of `targets`, lowest first.
fn push_targets(moves: &mut Vec<Move>, from: usize, targets: u64, flags: u32)
    requires
        from < 64,
    ensures
        final(moves)@ == old(moves)@ + targets_moves(from as int, squares(targets), flags),
{
    let mut rem = targets;
    let ghost base = moves@;
    proof {
        assert(base + targets_moves(from as int, squares(targets), flags) =~= base
            + targets_moves(from as int, squares(targets), flags));
    }
    while rem != 0
        invariant
            from < 64,
            moves@ + targets_moves(from as int, squares(rem), flags) == base + targets_moves(
                from as int,
                squares(targets),
                flags,
            ),
        decreases popcount(rem),
    {
        proof {
            lemma_lowest(rem);
            lemma_squares_pop(rem);
            lemma_count_pop(rem);
        }
        let to = rem.trailing_zeros() as usize;
        let ghost before = moves@;
        let ghost rest = squares(rem & ((rem - 1) as u64));
        moves.push(Move::new(from as u32, to as u32, flags, 0));
        proof {
            lemma_targets_moves_pop(from as int, to as int, rest, flags);
            assert(before + (seq![encode(from as u32, to as u32, flags, 0)] + targets_moves(
                from as int,
                rest,
                flags,
            )) =~= moves@ + targets_moves(from as int, rest, flags));
        }
        rem = rem & (rem - 1);
    }
    proof {
        lemma_squares_zero(0);
        assert(moves@ + targets_moves(from as int, squares(0u64), flags) =~= moves@);
    }
}


/// The attacks of a piece kind (1 knight, 2 bishop, 3 rook, 4 queen) from
/// `from` with occupancy `occ`.
pub open spec fn attacks_of(kind: int, from: int, occ: u64) -> u64 {
    if kind == 1 {
        knight_bb(from)
    } else if kind == 2 {
        bishop_bb(from, occ)
    } else if kind == 3 {
        rook_bb(from, occ)
    } else {
        bishop_bb(from, occ) | rook_bb(from, occ)
    }
}

fn piece_attacks(kind: usize, from: usize, occ: u64) -> (r: u64)
    requires
        from < 64,
    ensures
        r == attacks_of(kind as int, from as int, occ),
{
    if kind == 1 {
        knight_attacks(from)
    } else if kind == 2 {
        bishop_attacks(from, occ)
    } else if kind == 3 {
        rook_attacks(from, occ)
    } else {
        bishop_attacks(from, occ) | rook_attacks(from, occ)
    }
}

/// The quiet-or-capture moves of pieces of a kind standing on `froms`: to
/// every attacked square not holding a piece of their own side.
pub open spec fn piece_moves(froms: Seq<int>, kind: int, occ: u64, own: u64) -> Seq<Move>
    decreases froms.len(),
{
    if froms.len() == 0 {
        Seq::empty()
    } else {
        targets_moves(froms[0], squares(attacks_of(kind, froms[0], occ) & !own), FLAG_NONE)
            + piece_moves(froms.drop_first(), kind, occ, own)
    }
}

fn push_piece_moves(moves: &mut Vec<Move>, pieces: u64, kind: usize, occ: u64, own: u64)
    ensures
        final(moves)@ == old(moves)@ + piece_moves(squares(pieces), kind as int, occ, own),
{
    let mut rem = pieces;
    let ghost base = moves@;
    while rem != 0
        invariant
            moves@ + piece_moves(squares(rem), kind as int, occ, own) == base + piece_moves(
                squares(pieces),
                kind as int,
                occ,
                own,
            ),
        decreases popcount(rem),
    {
        proof {
            lemma_lowest(rem);
            lemma_squares_pop(rem);
            lemma_count_pop(rem);
        }
        let from = rem.trailing_zeros() as usize;
        let ghost before = moves@;
        let ghost rest = squares(rem & ((rem - 1) as u64));
        let attacks = piece_attacks(kind, from, occ) & !own;
        push_targets(moves, from, attacks, FLAG_NONE);
        proof {
            assert((seq![from as int] + rest).drop_first() =~= rest);
            assert(before + (targets_moves(from as int, squares(attacks), FLAG_NONE) + piece_moves(
                rest,
                kind as int,
                occ,
                own,
            )) =~= moves@ + piece_moves(rest, kind as int, occ, own));
        }
        rem = rem & (rem - 1);
    }
    proof {
        lemma_squares_zero(0);
        assert(moves@ + piece_moves(squares(0u64), kind as int, occ, own) =~= moves@);
    }
}

// ── Castling ──────────────────────────────────────────────────────────────────

/// Castling on one wing is allowed: the right is held, the squares between
/// king and rook are empty, and neither the king's square nor the squares it
/// crosses or lands on are attacked.
pub open spec fn can_castle(b: Board, right: u8, between: u64, s1: int, s2: int, s3: int) -> bool {
    let them = 1 - color_index(b.side);
    &&& b.castling & right != 0
    &&& b.all & between == 0
    &&& !attacked(b, s1, them)
    &&& !attacked(b, s2, them)
    &&& !attacked(b, s3, them)
}

pub open spec fn castle_moves(b: Board) -> Seq<Move> {
    if b.side == Color::White {
        (if can_castle(b, CASTLE_WK, 0x60, 4, 5, 6) {
            seq![encode(4, 6, FLAG_KINGSIDE_CASTLE, 0)]
        } else {
            Seq::empty()
        }) + (if can_castle(b, CASTLE_WQ, 0xE, 4, 3, 2) {
            seq![encode(4, 2, FLAG_QUEENSIDE_CASTLE, 0)]
        } else {
            Seq::empty()
        })
    } else {
        (if can_castle(b, CASTLE_BK, 0x6000000000000000, 60, 61, 62) {
            seq![encode(60, 62, FLAG_KINGSIDE_CASTLE, 0)]
        } else {
            Seq::empty()
        }) + (if can_castle(b, CASTLE_BQ, 0x0E00000000000000, 60, 59, 58) {
            seq![encode(60, 58, FLAG_QUEENSIDE_CASTLE, 0)]
        } else {
            Seq::empty()
        })
    }
}

fn gen_castling(board: &Board, moves: &mut Vec<Move>)
    ensures
        final(moves)@ == old(moves)@ + castle_moves(*board),
{
    let us = board.side.index();
    let occ = board.all;
    let them = board.side.flip();
    let ghost base = moves@;

    if us == 0 {
        // White kingside
        if board.castling & CASTLE_WK != 0 && occ & 0x60 == 0 && !square_attacked(board, 4, them)
            && !square_attacked(board, 5, them) && !square_attacked(board, 6, them) {
            moves.push(Move::new(4, 6, FLAG_KINGSIDE_CASTLE, 0));
        }
        let ghost mid = moves@;
        // White queenside
        if board.castling & CASTLE_WQ != 0 && occ & 0xE == 0 && !square_attacked(board, 4, them)
            && !square_attacked(board, 3, them) && !square_attacked(board, 2, them) {
            moves.push(Move::new(4, 2, FLAG_QUEENSIDE_CASTLE, 0));
        }
        assert(moves@ =~= base + castle_moves(*board));
    } else {
        // Black kingside
        if board.castling & CASTLE_BK != 0 && occ & 0x6000000000000000 == 0 && !square_attacked(
            board,
            60,
            them,
        ) && !square_attacked(board, 61, them) && !square_attacked(board, 62, them) {
            moves.push(Move::new(60, 62, FLAG_KINGSIDE_CASTLE, 0));
        }
        // Black queenside
        if board.castling & CASTLE_BQ != 0 && occ & 0x0E00000000000000 == 0 && !square_attacked(
            board,
            60,
            them,
        ) && !square_attacked(board, 59, them) && !square_attacked(board, 58, them) {
            moves.push(Move::new(60, 58, FLAG_QUEENSIDE_CASTLE, 0));
        }
        assert(moves@ =~= base + castle_moves(*board));
    }
}


// ── Pawns ─────────────────────────────────────────────────────────────────────

/// The square `dist` behind `to`, seen from the side with colour index `us`.
pub open spec fn behind(us: int, to: int, dist: int) -> int {
    if us == 0 {
        to - dist
    } else {
        to + dist
    }
}

/// A pawn move from `from` to `to`: the four promotions (codes 0 to 3) when
/// `to` is on the promotion rank, else the plain move.
pub open spec fn promo_or_quiet(from: int, to: int, promo_rank: u64) -> Seq<Move> {
    if bit(promo_rank, to) {
        seq![
            encode(from as u32, to as u32, FLAG_PROMO, 0),
            encode(from as u32, to as u32, FLAG_PROMO, 1),
            encode(from as u32, to as u32, FLAG_PROMO, 2),
            encode(from as u32, to as u32, FLAG_PROMO, 3),
        ]
    } else {
        seq![encode(from as u32, to as u32, FLAG_NONE, 0)]
    }
}

/// Single pushes onto each of `tos`.
pub open spec fn push_list(us: int, tos: Seq<int>, promo_rank: u64) -> Seq<Move>
    decreases tos.len(),
{
    if tos.len() == 0 {
        Seq::empty()
    } else {
        promo_or_quiet(behind(us, tos[0], 8), tos[0], promo_rank) + push_list(
            us,
            tos.drop_first(),
            promo_rank,
        )
    }
}

/// Double pushes onto each of `tos`.
pub open spec fn double_list(us: int, tos: Seq<int>) -> Seq<Move>
    decreases tos.len(),
{
    if tos.len() == 0 {
        Seq::empty()
    } else {
        seq![encode(behind(us, tos[0], 16) as u32, tos[0] as u32, FLAG_DOUBLE_PUSH, 0)]
            + double_list(us, tos.drop_first())
    }
}

/// Captures from `from` onto each of `tos`.
pub open spec fn capture_targets(from: int, tos: Seq<int>, promo_rank: u64) -> Seq<Move>
    decreases tos.len(),
{
    if tos.len() == 0 {
        Seq::empty()
    } else {
        promo_or_quiet(from, tos[0], promo_rank) + capture_targets(from, tos.drop_first(), promo_rank)
    }
}

/// The en-passant capture of the pawn on `from`, if it attacks the
/// en-passant square.
pub open spec fn ep_part(us: int, from: int, ep: u8) -> Seq<Move> {
    if ep != 255 && bit(pawn_bb(us, from), ep as int) {
        seq![encode(from as u32, ep as u32, FLAG_EP_CAPTURE, 0)]
    } else {
        Seq::empty()
    }
}

/// The captures of the pawns on `froms`, pawn by pawn: ordinary captures,
/// then the en-passant capture.
pub open spec fn capture_list(us: int, froms: Seq<int>, their: u64, ep: u8, promo_rank: u64) -> Seq<
    Move,
>
    decreases froms.len(),
{
    if froms.len() == 0 {
        Seq::empty()
    } else {
        capture_targets(froms[0], squares(pawn_bb(us, froms[0]) & their), promo_rank) + ep_part(
            us,
            froms[0],
            ep,
        ) + capture_list(us, froms.drop_first(), their, ep, promo_rank)
    }
}

pub open spec fn promo_rank_of(us: int) -> u64 {
    if us == 0 {
        0xFF00000000000000u64
    } else {
        0xFFu64
    }
}

/// Squares a pawn of the side to move can step onto.
pub open spec fn single_pushes(b: Board) -> u64 {
    let us = color_index(b.side);
    let pawns = b.pieces[us][0];
    (if us == 0 {
        pawns << 8u64
    } else {
        pawns >> 8u64
    }) & !b.all
}

/// Squares a pawn of the side to move can reach with a double step.
pub open spec fn double_pushes(b: Board) -> u64 {
    let us = color_index(b.side);
    let s = single_pushes(b);
    (if us == 0 {
        (s & 0x0000000000FF0000u64) << 8u64
    } else {
        (s & 0x0000FF0000000000u64) >> 8u64
    }) & !b.all
}

pub open spec fn pawn_moves(b: Board) -> Seq<Move> {
    let us = color_index(b.side);
    let pr = promo_rank_of(us);
    push_list(us, squares(single_pushes(b)), pr) + double_list(us, squares(double_pushes(b)))
        + capture_list(us, squares(b.pieces[us][0]), b.occ[1 - us], b.ep_sq, pr)
}

fn push_promo_or_quiet(moves: &mut Vec<Move>, from: usize, to: usize, promo_rank: u64)
    requires
        from < 64,
        to < 64,
    ensures
        final(moves)@ == old(moves)@ + promo_or_quiet(from as int, to as int, promo_rank),
{
    proof {
        lemma_test_bit(promo_rank, to as int);
    }
    if promo_rank & (1u64 << to) != 0 {
        let mut p: u32 = 0;
        let ghost base = moves@;
        while p < 4
            invariant
                p <= 4,
                moves@ == base + Seq::new(
                    p as nat,
                    |i: int| encode(from as u32, to as u32, FLAG_PROMO, i as u32),
                ),
            decreases 4 - p,
        {
            moves.push(Move::new(from as u32, to as u32, FLAG_PROMO, p));
            p = p + 1;
            assert(moves@ =~= base + Seq::new(
                p as nat,
                |i: int| encode(from as u32, to as u32, FLAG_PROMO, i as u32),
            ));
        }
        assert(moves@ =~= old(moves)@ + promo_or_quiet(from as int, to as int, promo_rank));
    } else {
        moves.push(Move::new(from as u32, to as u32, FLAG_NONE, 0));
    }
}

fn gen_pawn_moves(board: &Board, moves: &mut Vec<Move>)
    requires
        well_indexed(*board),
    ensures
        final(moves)@ == old(moves)@ + pawn_moves(*board),
{
    let us = board.side.index();
    let them = 1 - us;
    let occ = board.all;
    let their_occ = board.occ[them];
    let pawns = board.pieces[us][0];
    let promo_rank: u64 = if us == 0 {
        0xFF00000000000000
    } else {
        0x00000000000000FF
    };
    let ghost base = moves@;

    let single2 = (if us == 0 {
        pawns << 8
    } else {
        pawns >> 8
    }) & !occ;
    let double2 = (if us == 0 {
        (single2 & 0x0000000000FF0000u64) << 8
    } else {
        (single2 & 0x0000FF0000000000u64) >> 8
    }) & !occ;
    assert(single2 == single_pushes(*board));
    assert(double2 == double_pushes(*board));

    // Single pushes
    let mut s = single2;
    while s != 0
        invariant
            us == color_index(board.side),
            promo_rank == promo_rank_of(us as int),
            single2 == single_pushes(*board),
            forall|t: int| #[trigger] bit(s, t) ==> bit(single2, t),
            moves@ + push_list(us as int, squares(s), promo_rank) == base + push_list(
                us as int,
                squares(single2),
                promo_rank,
            ),
        decreases popcount(s),
    {
        proof {
            lemma_lowest(s);
            lemma_squares_pop(s);
            lemma_count_pop(s);
        }
        let to = s.trailing_zeros() as usize;
        proof {
            pawn_push_lemma(*board, to as int);
        }
        let from = if us == 0 {
            to - 8
        } else {
            to + 8
        };
        let ghost before = moves@;
        let ghost rest = squares(s & ((s - 1) as u64));
        push_promo_or_quiet(moves, from, to, promo_rank);
        proof {
            assert((seq![to as int] + rest).drop_first() =~= rest);
            assert(before + (promo_or_quiet(from as int, to as int, promo_rank) + push_list(
                us as int,
                rest,
                promo_rank,
            )) =~= moves@ + push_list(us as int, rest, promo_rank));
        }
        let ghost old_s = s;
        s = s & (s - 1);
        proof {
            assert forall|t: int| #[trigger] bit(s, t) implies bit(single2, t) by {
                assert(bit(old_s & ((old_s - 1) as u64), t) ==> bit(old_s, t));
            }
        }
    }
    proof {
        lemma_squares_zero(0);
        assert(moves@ + push_list(us as int, squares(0u64), promo_rank) =~= moves@);
    }
    let ghost after_single = moves@;

    // Double pushes
    let mut d = double2;
    while d != 0
        invariant
            us == color_index(board.side),
            double2 == double_pushes(*board),
            forall|t: int| #[trigger] bit(d, t) ==> bit(double2, t),
            moves@ + double_list(us as int, squares(d)) == after_single + double_list(
                us as int,
                squares(double2),
            ),
        decreases popcount(d),
    {
        proof {
            lemma_lowest(d);
            lemma_squares_pop(d);
            lemma_count_pop(d);
        }
        let to = d.trailing_zeros() as usize;
        proof {
            pawn_double_lemma(*board, to as int);
        }
        let from = if us == 0 {
            to - 16
        } else {
            to + 16
        };
        let ghost before = moves@;
        let ghost rest = squares(d & ((d - 1) as u64));
        moves.push(Move::new(from as u32, to as u32, FLAG_DOUBLE_PUSH, 0));
        proof {
            assert((seq![to as int] + rest).drop_first() =~= rest);
            assert(before + (seq![encode(from as u32, to as u32, FLAG_DOUBLE_PUSH, 0)]
                + double_list(us as int, rest)) =~= moves@ + double_list(us as int, rest));
        }
        let ghost old_d = d;
        d = d & (d - 1);
        proof {
            assert forall|t: int| #[trigger] bit(d, t) implies bit(double2, t) by {
                assert(bit(old_d & ((old_d - 1) as u64), t) ==> bit(old_d, t));
            }
        }
    }
    proof {
        lemma_squares_zero(0);
        assert(moves@ + double_list(us as int, squares(0u64)) =~= moves@);
    }
    let ghost after_double = moves@;

    // Captures
    let mut p = pawns;
    while p != 0
        invariant
            us == color_index(board.side),
            well_indexed(*board),
            promo_rank == promo_rank_of(us as int),
            their_occ == board.occ[1 - us as int],
            moves@ + capture_list(us as int, squares(p), their_occ, board.ep_sq, promo_rank)
                == after_double + capture_list(
                us as int,
                squares(pawns),
                their_occ,
                board.ep_sq,
                promo_rank,
            ),
        decreases popcount(p),
    {
        proof {
            lemma_lowest(p);
            lemma_squares_pop(p);
            lemma_count_pop(p);
        }
        let from = p.trailing_zeros() as usize;
        let ghost before = moves@;
        let ghost rest = squares(p & ((p - 1) as u64));
        let attacks = pawn_attacks(board.side, from);
        let caps = attacks & their_occ;
        push_captures(moves, from, caps, promo_rank);
        let ghost mid = moves@;
        // En passant
        if board.ep_sq != 255 {
            let ep = board.ep_sq as usize;
            proof {
                lemma_test_bit(attacks, ep as int);
            }
            if attacks & (1u64 << ep) != 0 {
                moves.push(Move::new(from as u32, ep as u32, FLAG_EP_CAPTURE, 0));
            }
        }
        proof {
            assert(moves@ =~= mid + ep_part(us as int, from as int, board.ep_sq));
            assert((seq![from as int] + rest).drop_first() =~= rest);
            assert(before + (capture_targets(from as int, squares(caps), promo_rank) + ep_part(
                us as int,
                from as int,
                board.ep_sq,
            ) + capture_list(us as int, rest, their_occ, board.ep_sq, promo_rank)) =~= moves@
                + capture_list(us as int, rest, their_occ, board.ep_sq, promo_rank));
        }
        p = p & (p - 1);
    }
    proof {
        lemma_squares_zero(0);
        assert(moves@ + capture_list(us as int, squares(0u64), their_occ, board.ep_sq, promo_rank)
            =~= moves@);
        assert(moves@ =~= base + pawn_moves(*board));
    }
}

fn push_captures(moves: &mut Vec<Move>, from: usize, caps: u64, promo_rank: u64)
    requires
        from < 64,
    ensures
        final(moves)@ == old(moves)@ + capture_targets(from as int, squares(caps), promo_rank),
{
    let mut c = caps;
    let ghost base = moves@;
    while c != 0
        invariant
            from < 64,
            moves@ + capture_targets(from as int, squares(c), promo_rank) == base
                + capture_targets(from as int, squares(caps), promo_rank),
        decreases popcount(c),
    {
        proof {
            lemma_lowest(c);
            lemma_squares_pop(c);
            lemma_count_pop(c);
        }
        let to = c.trailing_zeros() as usize;
        let ghost before = moves@;
        let ghost rest = squares(c & ((c - 1) as u64));
        push_promo_or_quiet(moves, from, to, promo_rank);
        proof {
            assert((seq![to as int] + rest).drop_first() =~= rest);
            assert(before + (promo_or_quiet(from as int, to as int, promo_rank) + capture_targets(
                from as int,
                rest,
                promo_rank,
            )) =~= moves@ + capture_targets(from as int, rest, promo_rank));
        }
        c = c & (c - 1);
    }
    proof {
        lemma_squares_zero(0);
        assert(moves@ + capture_targets(from as int, squares(0u64), promo_rank) =~= moves@);
    }
}

/// A single-push target has its pawn one rank behind it on the board.
proof fn pawn_push_lemma(b: Board, to: int)
    requires
        bit(single_pushes(b), to),
    ensures
        color_index(b.side) == 0 ==> 8 <= to < 64,
        color_index(b.side) == 1 ==> 0 <= to < 56,
{
    let us = color_index(b.side);
    let pawns = b.pieces[us][0];
    if us == 0 {
        lemma_bit_and_not(pawns << 8u64, b.all, to);
        lemma_bit_shl8(pawns, to);
    } else {
        lemma_bit_and_not(pawns >> 8u64, b.all, to);
        lemma_bit_shr8(pawns, to);
    }
}

/// A double-push target has its pawn two ranks behind it on the board.
proof fn pawn_double_lemma(b: Board, to: int)
    requires
        bit(double_pushes(b), to),
    ensures
        color_index(b.side) == 0 ==> 24 <= to < 32,
        color_index(b.side) == 1 ==> 32 <= to < 40,
{
    let us = color_index(b.side);
    let s = single_pushes(b);
    if us == 0 {
        lemma_bit_and_not((s & 0x0000000000FF0000u64) << 8u64, b.all, to);
        lemma_bit_shl8(s & 0x0000000000FF0000u64, to);
        lemma_bit_and(s, 0x0000000000FF0000u64, to - 8);
        lemma_bit_rank_mask(2, to - 8);
        assert(0xFFu64 << ((8 * 2) as u64) == 0x0000000000FF0000u64) by (bit_vector);
    } else {
        lemma_bit_and_not((s & 0x0000FF0000000000u64) >> 8u64, b.all, to);
        lemma_bit_shr8(s & 0x0000FF0000000000u64, to);
        lemma_bit_and(s, 0x0000FF0000000000u64, to + 8);
        lemma_bit_rank_mask(5, to + 8);
        assert(0xFFu64 << ((8 * 5) as u64) == 0x0000FF0000000000u64) by (bit_vector);
    }
}


// ── Move generation ───────────────────────────────────────────────────────────

/// The pseudo-legal moves, in generation order: pawn moves, then knight,
/// bishop, rook and queen moves, then king steps and castling. The king that
/// moves is the one on the lowest square.
pub open spec fn pseudo_moves(b: Board) -> Seq<Move> {
    let us = color_index(b.side);
    let occ = b.all;
    let own = b.occ[us];
    let ksq = u64_trailing_zeros(b.pieces[us][5]) as int;
    pawn_moves(b) + piece_moves(squares(b.pieces[us][1]), 1, occ, own) + piece_moves(
        squares(b.pieces[us][2]),
        2,
        occ,
        own,
    ) + piece_moves(squares(b.pieces[us][3]), 3, occ, own) + piece_moves(
        squares(b.pieces[us][4]),
        4,
        occ,
        own,
    ) + targets_moves(ksq, squares(king_bb(ksq) & !own), FLAG_NONE) + castle_moves(b)
}

/// The side to move has a king.
pub open spec fn has_king(b: Board) -> bool {
    b.pieces[color_index(b.side)][5] != 0
}

pub fn generate_moves(board: &Board) -> (moves: Vec<Move>)
    requires
        well_indexed(*board),
        has_king(*board),
    ensures
        moves@ == pseudo_moves(*board),
{
    let mut moves: Vec<Move> = Vec::with_capacity(64);
    let us = board.side.index();
    let occ = board.all;
    let our_occ = board.occ[us];

    // Pawns
    gen_pawn_moves(board, &mut moves);
    // Knights, bishops, rooks, queens
    push_piece_moves(&mut moves, board.pieces[us][1], 1, occ, our_occ);
    push_piece_moves(&mut moves, board.pieces[us][2], 2, occ, our_occ);
    push_piece_moves(&mut moves, board.pieces[us][3], 3, occ, our_occ);
    push_piece_moves(&mut moves, board.pieces[us][4], 4, occ, our_occ);

    // King
    let king_bb = board.pieces[us][5];
    proof {
        lemma_lowest(king_bb);
    }
    let king_sq = king_bb.trailing_zeros() as usize;
    let attacks = king_attacks(king_sq) & !our_occ;
    push_targets(&mut moves, king_sq, attacks, FLAG_NONE);

    // Castling
    gen_castling(board, &mut moves);
    proof {
        assert(moves@ =~= pseudo_moves(*board));
    }
    moves
}

// ── Legality ──────────────────────────────────────────────────────────────────

/// The piece bitboards after a move, as a function.
pub open spec fn after_pc(b: Board, mv: Move) -> spec_fn(int, int) -> u64 {
    |c: int, p: int| piece_after(b, mv, c, p)
}

pub open spec fn union_of(pc: spec_fn(int, int) -> u64, c: int) -> u64 {
    pc(c, 0) | pc(c, 1) | pc(c, 2) | pc(c, 3) | pc(c, 4) | pc(c, 5)
}

pub open spec fn all_after(b: Board, mv: Move) -> u64 {
    union_of(after_pc(b, mv), 0) | union_of(after_pc(b, mv), 1)
}

/// After the move the mover still has a king, and the one on the lowest
/// square is not attacked.
pub open spec fn legal_after(b: Board, mv: Move) -> bool {
    let us = color_index(b.side);
    let kb = piece_after(b, mv, us, 5);
    kb != 0 && !attacked_in(after_pc(b, mv), all_after(b, mv), u64_trailing_zeros(kb) as int, 1 - us)
}

/// The moves of `s` that are legal, in order.
pub open spec fn legal_filter(b: Board, s: Seq<Move>) -> Seq<Move>
    decreases s.len(),
{
    if s.len() == 0 {
        Seq::empty()
    } else {
        let rest = legal_filter(b, s.drop_last());
        if legal_after(b, s.last()) {
            rest.push(s.last())
        } else {
            rest
        }
    }
}

/// The legal moves of a position, in generation order.
pub open spec fn legal_list(b: Board) -> Seq<Move> {
    legal_filter(b, pseudo_moves(b))
}

pub open spec fn all_in_range(b: Board, s: Seq<Move>) -> bool {
    forall|i: int| 0 <= i < s.len() ==> move_in_range(b, #[trigger] s[i])
}

/// Every move kept by the legality filter is one of the moves it was given,
/// and leaves the mover's king unattacked.
pub proof fn lemma_legal_filter_sub(b: Board, s: Seq<Move>)
    ensures
        forall|i: int|
            0 <= i < legal_filter(b, s).len() ==> s.contains(#[trigger] legal_filter(b, s)[i])
                && legal_after(b, legal_filter(b, s)[i]),
    decreases s.len(),
{
    if s.len() > 0 {
        let rest = legal_filter(b, s.drop_last());
        lemma_legal_filter_sub(b, s.drop_last());
        assert forall|i: int| 0 <= i < legal_filter(b, s).len() implies s.contains(
            #[trigger] legal_filter(b, s)[i],
        ) && legal_after(b, legal_filter(b, s)[i]) by {
            if i < rest.len() {
                let m = rest[i];
                assert(legal_filter(b, s)[i] == m);
                let j = choose|j: int| 0 <= j < s.drop_last().len() && s.drop_last()[j] == m;
                assert(s[j] == m);
            } else {
                assert(legal_filter(b, s)[i] == s.last());
                assert(s[s.len() - 1] == s.last());
            }
        }
    }
}

/// Every legal move is in range for `make_move`.
pub proof fn lemma_legal_in_range(b: Board)
    requires
        well_indexed(b),
        has_king(b),
    ensures
        all_in_range(b, legal_list(b)),
{
    lemma_pseudo_in_range(b);
    lemma_legal_filter_sub(b, pseudo_moves(b));
    assert forall|i: int| 0 <= i < legal_list(b).len() implies move_in_range(b, #[trigger] legal_list(b)[i]) by {
        let s = pseudo_moves(b);
        let j = choose|j: int| 0 <= j < s.len() && s[j] == legal_list(b)[i];
        assert(move_in_range(b, s[j]));
    }
}

/// Filter pseudolegal moves to only legal ones
pub fn legal_moves(board: &Board) -> (r: Vec<Move>)
    requires
        well_indexed(*board),
        has_king(*board),
    ensures
        r@ == legal_list(*board),
        all_in_range(*board, r@),
{
    let gen = generate_moves(board);
    proof {
        lemma_pseudo_in_range(*board);
    }
    let mut out: Vec<Move> = Vec::new();
    let us = board.side.index();
    let them = board.side.flip();
    let mut i: usize = 0;
    while i < gen.len()
        invariant
            i <= gen@.len(),
            gen@ == pseudo_moves(*board),
            all_in_range(*board, gen@),
            well_indexed(*board),
            us == color_index(board.side),
            them == other(board.side),
            out@ == legal_filter(*board, gen@.take(i as int)),
        decreases gen@.len() - i,
    {
        let mv = gen[i];
        assert(move_in_range(*board, gen@[i as int]));
        let after = board.make_move(mv);
        let king_bb = after.pieces[us][5];
        let mut legal = false;
        if king_bb != 0 {
            proof {
                lemma_lowest(king_bb);
            }
            let king_sq = king_bb.trailing_zeros() as usize;
            legal = !square_attacked(&after, king_sq, them);
        }
        proof {
            let pc = after_pc(*board, mv);
            assert(after.all == all_after(*board, mv));
            assert(legal == legal_after(*board, mv));
            assert(gen@.take(i + 1).drop_last() =~= gen@.take(i as int));
        }
        if legal {
            out.push(mv);
        }
        i = i + 1;
    }
    assert(gen@.take(gen@.len() as int) =~= gen@);
    proof {
        lemma_legal_filter_sub(*board, gen@);
        assert forall|i: int| 0 <= i < out@.len() implies move_in_range(*board, #[trigger] out@[i]) by {
            let j = choose|j: int| 0 <= j < gen@.len() && gen@[j] == out@[i];
            assert(move_in_range(*board, gen@[j]));
        }
    }
    out
}


// ── Every generated move is in range for `make_move` ──────────────────────────

proof fn lemma_concat_in_range(b: Board, s1: Seq<Move>, s2: Seq<Move>)
    requires
        all_in_range(b, s1),
        all_in_range(b, s2),
    ensures
        all_in_range(b, s1 + s2),
{
    assert forall|i: int| 0 <= i < (s1 + s2).len() implies move_in_range(b, #[trigger] (s1 + s2)[i]) by {
        if i < s1.len() {
            assert((s1 + s2)[i] == s1[i]);
        } else {
            assert((s1 + s2)[i] == s2[i - s1.len()]);
        }
    }
}

/// A move that is neither an en-passant capture nor a double push, between
/// squares of the board, is in range.
proof fn lemma_plain_in_range(b: Board, from: int, to: int, flags: u32, promo: u32)
    requires
        0 <= from < 64,
        0 <= to < 64,
        flags < 8,
        promo < 8,
        flags != FLAG_EP_CAPTURE,
        flags != FLAG_DOUBLE_PUSH,
    ensures
        move_in_range(b, encode(from as u32, to as u32, flags, promo)),
{
    lemma_move_roundtrip(from as u32, to as u32, flags, promo);
}

proof fn lemma_targets_in_range(b: Board, from: int, tos: Seq<int>, flags: u32)
    requires
        0 <= from < 64,
        forall|k: int| 0 <= k < tos.len() ==> 0 <= #[trigger] tos[k] < 64,
        flags < 8,
        flags != FLAG_EP_CAPTURE,
        flags != FLAG_DOUBLE_PUSH,
    ensures
        all_in_range(b, targets_moves(from, tos, flags)),
{
    assert forall|i: int| 0 <= i < targets_moves(from, tos, flags).len() implies move_in_range(
        b,
        #[trigger] targets_moves(from, tos, flags)[i],
    ) by {
        lemma_plain_in_range(b, from, tos[i], flags, 0);
    }
}

proof fn lemma_squares_bounded(bb: u64)
    ensures
        forall|k: int| 0 <= k < squares(bb).len() ==> 0 <= #[trigger] squares(bb)[k] < 64 && bit(
            bb,
            squares(bb)[k],
        ),
{
    lemma_squares_from_members(bb, 0);
}

proof fn lemma_piece_moves_in_range(b: Board, froms: Seq<int>, kind: int, occ: u64, own: u64)
    requires
        forall|k: int| 0 <= k < froms.len() ==> 0 <= #[trigger] froms[k] < 64,
    ensures
        all_in_range(b, piece_moves(froms, kind, occ, own)),
    decreases froms.len(),
{
    if froms.len() > 0 {
        let tg = squares(attacks_of(kind, froms[0], occ) & !own);
        lemma_squares_bounded(attacks_of(kind, froms[0], occ) & !own);
        lemma_targets_in_range(b, froms[0], tg, FLAG_NONE);
        let rest = froms.drop_first();
        assert forall|k: int| 0 <= k < rest.len() implies 0 <= #[trigger] rest[k] < 64 by {
            assert(rest[k] == froms[k + 1]);
        }
        lemma_piece_moves_in_range(b, rest, kind, occ, own);
        lemma_concat_in_range(b, targets_moves(froms[0], tg, FLAG_NONE), piece_moves(rest, kind, occ, own));
    }
}

proof fn lemma_promo_or_quiet_in_range(b: Board, from: int, to: int, pr: u64)
    requires
        0 <= from < 64,
        0 <= to < 64,
    ensures
        all_in_range(b, promo_or_quiet(from, to, pr)),
{
    lemma_plain_in_range(b, from, to, FLAG_PROMO, 0);
    lemma_plain_in_range(b, from, to, FLAG_PROMO, 1);
    lemma_plain_in_range(b, from, to, FLAG_PROMO, 2);
    lemma_plain_in_range(b, from, to, FLAG_PROMO, 3);
    lemma_plain_in_range(b, from, to, FLAG_NONE, 0);
}

proof fn lemma_push_list_in_range(b: Board, tos: Seq<int>)
    requires
        forall|k: int| 0 <= k < tos.len() ==> bit(single_pushes(b), #[trigger] tos[k]),
    ensures
        all_in_range(b, push_list(color_index(b.side), tos, promo_rank_of(color_index(b.side)))),
    decreases tos.len(),
{
    let us = color_index(b.side);
    let pr = promo_rank_of(us);
    if tos.len() > 0 {
        pawn_push_lemma(b, tos[0]);
        lemma_promo_or_quiet_in_range(b, behind(us, tos[0], 8), tos[0], pr);
        let rest = tos.drop_first();
        assert forall|k: int| 0 <= k < rest.len() implies bit(single_pushes(b), #[trigger] rest[k]) by {
            assert(rest[k] == tos[k + 1]);
        }
        lemma_push_list_in_range(b, rest);
        lemma_concat_in_range(b, promo_or_quiet(behind(us, tos[0], 8), tos[0], pr), push_list(us, rest, pr));
    }
}

proof fn lemma_double_list_in_range(b: Board, tos: Seq<int>)
    requires
        forall|k: int| 0 <= k < tos.len() ==> bit(double_pushes(b), #[trigger] tos[k]),
    ensures
        all_in_range(b, double_list(color_index(b.side), tos)),
    decreases tos.len(),
{
    let us = color_index(b.side);
    if tos.len() > 0 {
        let to = tos[0];
        pawn_double_lemma(b, to);
        let from = behind(us, to, 16);
        lemma_move_roundtrip(from as u32, to as u32, FLAG_DOUBLE_PUSH, 0);
        let m = encode(from as u32, to as u32, FLAG_DOUBLE_PUSH, 0);
        assert(move_in_range(b, m));
        let rest = tos.drop_first();
        assert forall|k: int| 0 <= k < rest.len() implies bit(double_pushes(b), #[trigger] rest[k]) by {
            assert(rest[k] == tos[k + 1]);
        }
        lemma_double_list_in_range(b, rest);
        assert(all_in_range(b, seq![m]));
        lemma_concat_in_range(b, seq![m], double_list(us, rest));
    }
}

proof fn lemma_capture_targets_in_range(b: Board, from: int, tos: Seq<int>, pr: u64)
    requires
        0 <= from < 64,
        forall|k: int| 0 <= k < tos.len() ==> 0 <= #[trigger] tos[k] < 64,
    ensures
        all_in_range(b, capture_targets(from, tos, pr)),
    decreases tos.len(),
{
    if tos.len() > 0 {
        lemma_promo_or_quiet_in_range(b, from, tos[0], pr);
        let rest = tos.drop_first();
        assert forall|k: int| 0 <= k < rest.len() implies 0 <= #[trigger] rest[k] < 64 by {
            assert(rest[k] == tos[k + 1]);
        }
        lemma_capture_targets_in_range(b, from, rest, pr);
        lemma_concat_in_range(b, promo_or_quiet(from, tos[0], pr), capture_targets(from, rest, pr));
    }
}

proof fn lemma_capture_list_in_range(b: Board, froms: Seq<int>, their: u64)
    requires
        well_indexed(b),
        forall|k: int| 0 <= k < froms.len() ==> 0 <= #[trigger] froms[k] < 64,
    ensures
        all_in_range(
            b,
            capture_list(color_index(b.side), froms, their, b.ep_sq, promo_rank_of(color_index(b.side))),
        ),
    decreases froms.len(),
{
    let us = color_index(b.side);
    let pr = promo_rank_of(us);
    if froms.len() > 0 {
        let from = froms[0];
        let caps = pawn_bb(us, from) & their;
        lemma_squares_bounded(caps);
        lemma_capture_targets_in_range(b, from, squares(caps), pr);
        let ep = ep_part(us, from, b.ep_sq);
        if b.ep_sq != 255 && bit(pawn_bb(us, from), b.ep_sq as int) {
            lemma_pawn_bb(us, from, b.ep_sq as int);
            lemma_move_roundtrip(from as u32, b.ep_sq as u32, FLAG_EP_CAPTURE, 0);
            assert(move_in_range(b, ep[0]));
        }
        assert(all_in_range(b, ep));
        let rest = froms.drop_first();
        assert forall|k: int| 0 <= k < rest.len() implies 0 <= #[trigger] rest[k] < 64 by {
            assert(rest[k] == froms[k + 1]);
        }
        lemma_capture_list_in_range(b, rest, their);
        lemma_concat_in_range(b, capture_targets(from, squares(caps), pr), ep);
        lemma_concat_in_range(b, capture_targets(from, squares(caps), pr) + ep, capture_list(us, rest, their, b.ep_sq, pr));
    }
}

proof fn lemma_pseudo_in_range(b: Board)
    requires
        well_indexed(b),
        has_king(b),
    ensures
        all_in_range(b, pseudo_moves(b)),
{
    let us = color_index(b.side);
    let occ = b.all;
    let own = b.occ[us];
    let pr = promo_rank_of(us);
    lemma_squares_bounded(single_pushes(b));
    lemma_push_list_in_range(b, squares(single_pushes(b)));
    lemma_squares_bounded(double_pushes(b));
    lemma_double_list_in_range(b, squares(double_pushes(b)));
    lemma_squares_bounded(b.pieces[us][0]);
    lemma_capture_list_in_range(b, squares(b.pieces[us][0]), b.occ[1 - us]);
    let a = push_list(us, squares(single_pushes(b)), pr);
    let d = double_list(us, squares(double_pushes(b)));
    let c = capture_list(us, squares(b.pieces[us][0]), b.occ[1 - us], b.ep_sq, pr);
    lemma_concat_in_range(b, a, d);
    lemma_concat_in_range(b, a + d, c);
    let p0 = pawn_moves(b);
    assert(p0 == a + d + c);
    let m1 = piece_moves(squares(b.pieces[us][1]), 1, occ, own);
    let m2 = piece_moves(squares(b.pieces[us][2]), 2, occ, own);
    let m3 = piece_moves(squares(b.pieces[us][3]), 3, occ, own);
    let m4 = piece_moves(squares(b.pieces[us][4]), 4, occ, own);
    lemma_squares_bounded(b.pieces[us][1]);
    lemma_squares_bounded(b.pieces[us][2]);
    lemma_squares_bounded(b.pieces[us][3]);
    lemma_squares_bounded(b.pieces[us][4]);
    lemma_piece_moves_in_range(b, squares(b.pieces[us][1]), 1, occ, own);
    lemma_piece_moves_in_range(b, squares(b.pieces[us][2]), 2, occ, own);
    lemma_piece_moves_in_range(b, squares(b.pieces[us][3]), 3, occ, own);
    lemma_piece_moves_in_range(b, squares(b.pieces[us][4]), 4, occ, own);
    lemma_concat_in_range(b, p0, m1);
    lemma_concat_in_range(b, p0 + m1, m2);
    lemma_concat_in_range(b, p0 + m1 + m2, m3);
    lemma_concat_in_range(b, p0 + m1 + m2 + m3, m4);
    let acc = p0 + m1 + m2 + m3 + m4;
    let kb = b.pieces[us][5];
    lemma_lowest(kb);
    let ksq = u64_trailing_zeros(kb) as int;
    lemma_squares_bounded(king_bb(ksq) & !own);
    lemma_targets_in_range(b, ksq, squares(king_bb(ksq) & !own), FLAG_NONE);
    lemma_concat_in_range(b, acc, targets_moves(ksq, squares(king_bb(ksq) & !own), FLAG_NONE));
    let cm = castle_moves(b);
    lemma_plain_in_range(b, 4, 6, FLAG_KINGSIDE_CASTLE, 0);
    lemma_plain_in_range(b, 4, 2, FLAG_QUEENSIDE_CASTLE, 0);
    lemma_plain_in_range(b, 60, 62, FLAG_KINGSIDE_CASTLE, 0);
    lemma_plain_in_range(b, 60, 58, FLAG_QUEENSIDE_CASTLE, 0);
    assert(all_in_range(b, cm));
    lemma_concat_in_range(b, acc + targets_moves(ksq, squares(king_bb(ksq) & !own), FLAG_NONE), cm);
    assert(acc + targets_moves(ksq, squares(king_bb(ksq) & !own), FLAG_NONE) + cm =~= pseudo_moves(b));
}


// ── UCI move text ─────────────────────────────────────────────────────────────

/// The promotion asked for by the fifth byte: knight, bishop, rook, else
/// queen.
pub open spec fn wanted_promo(b: Seq<u8>) -> Piece {
    if b.len() > 4 && b[4] == 110 {
        Piece::Knight
    } else if b.len() > 4 && b[4] == 98 {
        Piece::Bishop
    } else if b.len() > 4 && b[4] == 114 {
        Piece::Rook
    } else {
        Piece::Queen
    }
}

/// The first move of `ms` from position `i` on that goes from `from` to `to`
/// and, when it is a promotion, promotes to `want`.
pub open spec fn first_uci(ms: Seq<Move>, i: int, from: int, to: int, want: Piece) -> Option<Move>
    decreases ms.len() - i,
{
    if i < 0 || i >= ms.len() {
        None
    } else if ms[i].from_sq() == from && ms[i].to_sq() == to && (ms[i].flag_bits() != FLAG_PROMO
        || ms[i].promo_piece() == want) {
        Some(ms[i])
    } else {
        first_uci(ms, i + 1, from, to, want)
    }
}

/// The square that a file byte and a rank byte name, the byte arithmetic
/// wrapping as a release build does (text that is no square gives a number
/// of no square).
pub open spec fn uci_square(file: u8, rank: u8) -> int {
    (rank.wrapping_sub(49u8) as int) * 8 + (file.wrapping_sub(97u8) as int)
}

/// A move found by `first_uci` is one of the moves searched.
pub proof fn lemma_first_uci_in(ms: Seq<Move>, i: int, from: int, to: int, want: Piece)
    ensures
        first_uci(ms, i, from, to, want) matches Some(m) ==> ms.contains(m),
    decreases ms.len() - i,
{
    if 0 <= i < ms.len() {
        lemma_first_uci_in(ms, i + 1, from, to, want);
    }
}

/// The move that UCI text names among `ms`.
pub open spec fn uci_lookup(ms: Seq<Move>, b: Seq<u8>) -> Option<Move> {
    if b.len() < 4 {
        None
    } else {
        first_uci(ms, 0, uci_square(b[0], b[1]), uci_square(b[2], b[3]), wanted_promo(b))
    }
}

/// `first_uci` finds a move whenever one from `i` on fits, and what it
/// finds fits.
proof fn lemma_first_uci_finds(ms: Seq<Move>, i: int, j: int, from: int, to: int, want: Piece)
    requires
        0 <= i <= j < ms.len(),
        ms[j].from_sq() == from,
        ms[j].to_sq() == to,
        ms[j].flag_bits() != FLAG_PROMO || ms[j].promo_piece() == want,
    ensures
        first_uci(ms, i, from, to, want) matches Some(m2) && m2.from_sq() == from && m2.to_sq() == to
            && (m2.flag_bits() != FLAG_PROMO || m2.promo_piece() == want),
    decreases j - i,
{
    if i < j {
        lemma_first_uci_finds(ms, i + 1, j, from, to, want);
    }
}

/// The UTF-8 bytes of ASCII text are its character codes.
proof fn lemma_utf8_ascii(s: Seq<char>)
    requires
        forall|i: int| 0 <= i < s.len() ==> (#[trigger] s[i] as u32) < 128,
    ensures
        utf8(s).len() == s.len(),
        forall|i: int| 0 <= i < s.len() ==> #[trigger] utf8(s)[i] == (s[i] as u32) as u8,
    decreases s.len(),
{
    if s.len() > 0 {
        lemma_utf8_ascii(s.drop_last());
        assert(utf8(s) == utf8(s.drop_last()) + utf8_char(s.last()));
    }
}

/// The UCI text of a legal move, read back, names a legal move on the same
/// squares; when both promote, to the same piece.
pub proof fn lemma_uci_text_names_move(b: Board, m: Move)
    requires
        legal_list(b).contains(m),
    ensures
        uci_lookup(legal_list(b), utf8(uci_chars(m))) matches Some(m2) && m2.from_sq() == m.from_sq()
            && m2.to_sq() == m.to_sq() && (m.flag_bits() == FLAG_PROMO && m2.flag_bits() == FLAG_PROMO
            ==> m2.promo_piece() == m.promo_piece()),
{
    let t = uci_chars(m);
    let from = m.from_sq();
    let to = m.to_sq();
    assert(0 <= from < 64 && 0 <= to < 64) by {
        let x = m.0;
        assert(x & 0x3Fu32 < 64) by (bit_vector);
        assert((x >> 6u32) & 0x3Fu32 < 64) by (bit_vector);
    }
    assert(forall|i: int| 0 <= i < t.len() ==> (#[trigger] t[i] as u32) < 128);
    lemma_utf8_ascii(t);
    let bs = utf8(t);
    assert(bs[0] == (97 + from % 8) as u8);
    assert(bs[1] == (49 + from / 8) as u8);
    assert(bs[2] == (97 + to % 8) as u8);
    assert(bs[3] == (49 + to / 8) as u8);
    assert(uci_square(bs[0], bs[1]) == from);
    assert(uci_square(bs[2], bs[3]) == to);
    let want = wanted_promo(bs);
    if m.flag_bits() == FLAG_PROMO {
        assert(bs[4] == (promo_char(m.promo_piece()) as u32) as u8);
        assert(want == m.promo_piece());
    }
    let ms = legal_list(b);
    let j = choose|j: int| 0 <= j < ms.len() && ms[j] == m;
    lemma_first_uci_finds(ms, 0, j, from, to, want);
}

/// Parse UCI move string (e.g. "e2e4", "e7e8q"): the legal move with these
/// squares, and for a promotion the piece the fifth letter names (queen by
/// default).
pub fn parse_uci_move(board: &Board, s: &str) -> (r: Option<Move>)
    requires
        well_indexed(*board),
        has_king(*board),
    ensures
        r == uci_lookup(legal_list(*board), s.spec_bytes()),
{
    let b = s.as_bytes();
    uci_move_from_bytes(board, b)
}

/// The legal move that UCI text, given as its bytes, names.
pub fn uci_move_from_bytes(board: &Board, b: &[u8]) -> (r: Option<Move>)
    requires
        well_indexed(*board),
        has_king(*board),
    ensures
        r == uci_lookup(legal_list(*board), b@),
{
    if b.len() < 4 {
        return None;
    }
    let from = (b[1].wrapping_sub(49) as usize) * 8 + b[0].wrapping_sub(97) as usize;
    let to = (b[3].wrapping_sub(49) as usize) * 8 + b[2].wrapping_sub(97) as usize;
    let want = if b.len() > 4 && b[4] == 110 {
        Piece::Knight
    } else if b.len() > 4 && b[4] == 98 {
        Piece::Bishop
    } else if b.len() > 4 && b[4] == 114 {
        Piece::Rook
    } else {
        Piece::Queen
    };
    let moves = legal_moves(board);
    let ghost ms = moves@;
    let mut i: usize = 0;
    while i < moves.len()
        invariant
            i <= moves@.len(),
            ms == moves@,
            uci_lookup(legal_list(*board), b@) == first_uci(
                ms,
                i as int,
                from as int,
                to as int,
                want,
            ),
        decreases moves@.len() - i,
    {
        let mv = moves[i];
        if mv.from() == from && mv.to() == to {
            if mv.flags() == FLAG_PROMO {
                if mv.promo() == want {
                    return Some(mv);
                }
            } else {
                return Some(mv);
            }
        }
        i = i + 1;
    }
    None
}

} // verus!
