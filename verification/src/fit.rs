//! Moves that fit their position: in a sound position every pseudo-legal
//! move, and so every legal move, is one whose key-by-key hash update in
//! `make_move` gives the hash computed from scratch.
use vstd::prelude::*;
use vstd::std_specs::bits::u64_trailing_zeros;
use crate::attacks::{king_bb, pawn_bb, lemma_pawn_bb, lemma_king_bb};
use crate::bits::{bit, sq_bb, lemma_bit_sq_bb, squares, lemma_lowest, lemma_bit_or, lemma_bit_and, lemma_bit_and_not, lemma_bit_shl8, lemma_bit_shr8, lemma_squares_from_members};
use crate::board::{
    Board, valid, union6, find_piece, lemma_find_piece, move_consistent, moving_index, landing_index,
    us_landed, ks_rook_from, ks_rook_to, qs_rook_from, qs_rook_to, piece_after, captured_index,
    ep_victim, castle_mask, played, NO_EP, CASTLE_WK, CASTLE_WQ,
    CASTLE_BK, CASTLE_BQ,
};
use crate::movegen::{
    pseudo_moves, legal_list, has_king, lemma_legal_filter_sub, behind, promo_or_quiet, push_list,
    double_list, capture_targets, ep_part, capture_list, promo_rank_of, single_pushes, double_pushes,
    pawn_moves, targets_moves, attacks_of, piece_moves, can_castle, castle_moves, uci_lookup, attacked,
    checked,
    lemma_uci_text_names_move, lemma_first_uci_in,
};
use crate::text::utf8;
use crate::types::{
    Color, Move, color_index, encode, lemma_move_roundtrip, uci_chars, FLAG_NONE, FLAG_KINGSIDE_CASTLE,
    FLAG_QUEENSIDE_CASTLE, FLAG_PROMO, FLAG_DOUBLE_PUSH, FLAG_EP_CAPTURE,
};

verus! {

/// A sound position: occupancy agrees with the pieces and the indices are in
/// range; no square holds two pieces; an en-passant square is empty, with
/// the pawn that passed it on the square behind; and every castling right
/// has its king and rook on their home squares.
pub open spec fn sound(b: Board) -> bool {
    let us = color_index(b.side);
    &&& valid(b)
    &&& forall|c1: int, p1: int, c2: int, p2: int, s: int|
        0 <= c1 < 2 && 0 <= p1 < 6 && 0 <= c2 < 2 && 0 <= p2 < 6 && #[trigger] bit(b.pieces[c1][p1], s)
            && #[trigger] bit(b.pieces[c2][p2], s) ==> c1 == c2 && p1 == p2
    &&& (b.ep_sq != NO_EP ==> !bit(b.all, b.ep_sq as int) && bit(
        b.pieces[1 - us][0],
        behind(us, b.ep_sq as int, 8),
    ))
    &&& (b.castling & CASTLE_WK != 0 ==> bit(b.pieces[0][5], 4) && bit(b.pieces[0][3], 7))
    &&& (b.castling & CASTLE_WQ != 0 ==> bit(b.pieces[0][5], 4) && bit(b.pieces[0][3], 0))
    &&& (b.castling & CASTLE_BK != 0 ==> bit(b.pieces[1][5], 60) && bit(b.pieces[1][3], 63))
    &&& (b.castling & CASTLE_BQ != 0 ==> bit(b.pieces[1][5], 60) && bit(b.pieces[1][3], 56))
}

/// The flag a move from `from` to `to` carries in a position: a pawn move
/// onto the en-passant square takes en passant, one two ranks forward is a
/// double push, one onto the last rank promotes; a king going two files
/// from its home square castles; any other move has no flag.
pub open spec fn expected_flag(b: Board, from: int, to: int) -> u32 {
    let us = color_index(b.side);
    if bit(b.pieces[us][0], from) {
        if b.ep_sq != NO_EP && to == b.ep_sq as int {
            FLAG_EP_CAPTURE
        } else if from == behind(us, to, 16) {
            FLAG_DOUBLE_PUSH
        } else if bit(promo_rank_of(us), to) {
            FLAG_PROMO
        } else {
            FLAG_NONE
        }
    } else if bit(b.pieces[us][5], from) && ((from == 4 && to == 6) || (from == 60 && to == 62)) {
        FLAG_KINGSIDE_CASTLE
    } else if bit(b.pieces[us][5], from) && ((from == 4 && to == 2) || (from == 60 && to == 58)) {
        FLAG_QUEENSIDE_CASTLE
    } else {
        FLAG_NONE
    }
}

/// A move in its canonical form: the flag its squares call for, and a
/// promotion code (one of the four pieces) only when it promotes.
pub open spec fn canonical(b: Board, m: Move) -> bool {
    &&& m.flag_bits() == expected_flag(b, m.from_sq(), m.to_sq())
    &&& m.promo_code() < 4
    &&& m == encode(
        m.from_sq() as u32,
        m.to_sq() as u32,
        m.flag_bits(),
        if m.flag_bits() == FLAG_PROMO {
            m.promo_code()
        } else {
            0
        },
    )
}

/// A move fits the position and is in canonical form; it lands on no
/// square of its own side, and a castling rook lands on an empty square.
pub open spec fn fits(b: Board, m: Move) -> bool {
    &&& move_consistent(b, m)
    &&& canonical(b, m)
    &&& !bit(b.occ[color_index(b.side)], m.to_sq())
    &&& (m.flag_bits() == FLAG_KINGSIDE_CASTLE ==> !bit(b.all, ks_rook_to(b.side)))
    &&& (m.flag_bits() == FLAG_QUEENSIDE_CASTLE ==> !bit(b.all, qs_rook_to(b.side)))
    &&& (m.flag_bits() == FLAG_KINGSIDE_CASTLE || m.flag_bits() == FLAG_QUEENSIDE_CASTLE ==> m.from_sq() == (
    if b.side == Color::White {
        4int
    } else {
        60int
    }))
    &&& (m.flag_bits() == FLAG_DOUBLE_PUSH ==> !bit(b.all, behind(color_index(b.side), m.to_sq(), 8)))
    &&& (m.flag_bits() == FLAG_KINGSIDE_CASTLE ==> castle_path_safe(b, m.from_sq(), ks_rook_to(b.side), m.to_sq()))
    &&& (m.flag_bits() == FLAG_QUEENSIDE_CASTLE ==> castle_path_safe(b, m.from_sq(), qs_rook_to(b.side), m.to_sq()))
    &&& (m.flag_bits() == FLAG_KINGSIDE_CASTLE || m.flag_bits() == FLAG_QUEENSIDE_CASTLE ==> !bit(b.all, m.to_sq()))
    &&& (m.flag_bits() == FLAG_KINGSIDE_CASTLE ==> b.castling & kingside_right(b.side) != 0)
    &&& (m.flag_bits() == FLAG_QUEENSIDE_CASTLE ==> b.castling & queenside_right(b.side) != 0 && !bit(
        b.all,
        qs_rook_from(b.side) + 1,
    ))
}

/// The castling right of a side on the king's wing.
pub open spec fn kingside_right(side: Color) -> u8 {
    if side == Color::White {
        CASTLE_WK
    } else {
        CASTLE_BK
    }
}

/// The castling right of a side on the queen's wing.
pub open spec fn queenside_right(side: Color) -> u8 {
    if side == Color::White {
        CASTLE_WQ
    } else {
        CASTLE_BQ
    }
}

/// No piece of the opponent attacks the king's square, the square it
/// crosses or the square it lands on.
pub open spec fn castle_path_safe(b: Board, from: int, crossed: int, to: int) -> bool {
    let them = 1 - color_index(b.side);
    !attacked(b, from, them) && !attacked(b, crossed, them) && !attacked(b, to, them)
}

/// Every move of `s` fits the position.
pub open spec fn all_fit(b: Board, s: Seq<Move>) -> bool {
    forall|i: int| 0 <= i < s.len() ==> fits(b, #[trigger] s[i])
}

proof fn lemma_canon_encode(b: Board, from: int, to: int, fl: u32, code: u32)
    requires
        0 <= from < 64,
        0 <= to < 64,
        fl < 8,
        code < 4,
        fl == expected_flag(b, from, to),
        fl != FLAG_PROMO ==> code == 0,
    ensures
        canonical(b, encode(from as u32, to as u32, fl, code)),
        encode(from as u32, to as u32, fl, code).from_sq() == from,
        encode(from as u32, to as u32, fl, code).to_sq() == to,
        encode(from as u32, to as u32, fl, code).flag_bits() == fl,
{
    lemma_move_roundtrip(from as u32, to as u32, fl, code);
}

proof fn lemma_all_fit_concat(b: Board, s1: Seq<Move>, s2: Seq<Move>)
    requires
        all_fit(b, s1),
        all_fit(b, s2),
    ensures
        all_fit(b, s1 + s2),
{
    assert forall|i: int| 0 <= i < (s1 + s2).len() implies fits(b, #[trigger] (s1 + s2)[i]) by {
        if i < s1.len() {
            assert((s1 + s2)[i] == s1[i]);
        } else {
            assert((s1 + s2)[i] == s2[i - s1.len()]);
        }
    }
}

/// A square is in a side's occupancy exactly when one of its bitboards
/// holds it.
proof fn lemma_union6(row: [u64; 6], s: int)
    ensures
        bit(union6(row), s) <==> exists|k: int| 0 <= k < 6 && #[trigger] bit(row[k], s),
{
    lemma_bit_or(row[0] | row[1] | row[2] | row[3] | row[4], row[5], s);
    lemma_bit_or(row[0] | row[1] | row[2] | row[3], row[4], s);
    lemma_bit_or(row[0] | row[1] | row[2], row[3], s);
    lemma_bit_or(row[0] | row[1], row[2], s);
    lemma_bit_or(row[0], row[1], s);
    if bit(union6(row), s) {
        if bit(row[0], s) {
            assert(bit(row[0], s));
        } else if bit(row[1], s) {
            assert(bit(row[1], s));
        } else if bit(row[2], s) {
            assert(bit(row[2], s));
        } else if bit(row[3], s) {
            assert(bit(row[3], s));
        } else if bit(row[4], s) {
            assert(bit(row[4], s));
        } else {
            assert(bit(row[5], s));
        }
    }
}

/// In a sound position a side occupies a square exactly when one of its
/// piece kinds is found there, and then no piece of the other side is.
proof fn lemma_occupied(b: Board, c: int, s: int)
    requires
        sound(b),
        0 <= c < 2,
    ensures
        bit(b.occ[c], s) <==> find_piece(b.pieces[c], s, 0) < 6,
        bit(b.occ[c], s) ==> !bit(b.occ[1 - c], s),
        bit(b.all, s) <==> bit(b.occ[0], s) || bit(b.occ[1], s),
        forall|k: int| 0 <= k < 6 && bit(b.pieces[c][k], s) ==> find_piece(b.pieces[c], s, 0) == k,
{
    lemma_union6(b.pieces[c], s);
    lemma_union6(b.pieces[1 - c], s);
    lemma_find_piece(b.pieces[c], s, 0);
    lemma_bit_or(b.occ[0], b.occ[1], s);
    if bit(b.occ[c], s) && bit(b.occ[1 - c], s) {
        let k1 = choose|k: int| 0 <= k < 6 && #[trigger] bit(b.pieces[c][k], s);
        let k2 = choose|k: int| 0 <= k < 6 && #[trigger] bit(b.pieces[1 - c][k], s);
        assert(bit(b.pieces[c][k1], s) && bit(b.pieces[1 - c][k2], s));
    }
    assert forall|k: int| 0 <= k < 6 && bit(b.pieces[c][k], s) implies find_piece(b.pieces[c], s, 0) == k by {
        let f = find_piece(b.pieces[c], s, 0);
        assert(bit(b.pieces[c][f], s));
    }
}

/// A square holding a piece of either side is occupied.
proof fn lemma_piece_occupies(b: Board, c: int, k: int, s: int)
    requires
        sound(b),
        0 <= c < 2,
        0 <= k < 6,
        bit(b.pieces[c][k], s),
    ensures
        bit(b.occ[c], s),
        bit(b.all, s),
{
    lemma_union6(b.pieces[c], s);
    lemma_occupied(b, c, s);
}

/// A quiet move, push, double push or promotion fits when a piece of the
/// side to move stands on its from square and its target is not one of the
/// side's own squares.
proof fn lemma_plain_fit(b: Board, m: Move)
    requires
        sound(b),
        find_piece(b.pieces[color_index(b.side)], m.from_sq(), 0) < 6,
        !bit(b.occ[color_index(b.side)], m.to_sq()),
        m.flag_bits() == FLAG_NONE || m.flag_bits() == FLAG_PROMO || m.flag_bits() == FLAG_DOUBLE_PUSH,
    ensures
        move_consistent(b, m),
{
    let us = color_index(b.side);
    lemma_occupied(b, us, m.from_sq());
    lemma_occupied(b, us, m.to_sq());
    lemma_union6(b.pieces[us], m.to_sq());
    lemma_find_piece(b.pieces[us], m.from_sq(), 0);
    let l = landing_index(b, m);
    assert(0 <= l < 6) by {
        if m.flag_bits() == FLAG_PROMO {
            assert(0 <= crate::types::piece_index(m.promo_piece()) < 6);
        }
    }
    if bit(b.pieces[us][l], m.to_sq()) {
        assert(bit(b.occ[us], m.to_sq()));
    }
}


/// An en-passant capture onto the en-passant square fits when a piece of
/// the side to move stands on its from square.
proof fn lemma_ep_fit(b: Board, m: Move)
    requires
        sound(b),
        find_piece(b.pieces[color_index(b.side)], m.from_sq(), 0) < 6,
        b.ep_sq != NO_EP,
        m.to_sq() == b.ep_sq,
        m.flag_bits() == FLAG_EP_CAPTURE,
    ensures
        move_consistent(b, m),
        !bit(b.occ[color_index(b.side)], m.to_sq()),
{
    let us = color_index(b.side);
    lemma_occupied(b, us, m.from_sq());
    lemma_occupied(b, us, m.to_sq());
    lemma_union6(b.pieces[us], m.to_sq());
    lemma_find_piece(b.pieces[us], m.from_sq(), 0);
    let l = landing_index(b, m);
    assert(0 <= l < 6);
    if bit(b.pieces[us][l], m.to_sq()) {
        assert(bit(b.occ[us], m.to_sq()));
    }
}

/// The moves from `from` to the members of `bb` fit when a piece of the side
/// to move stands on `from` and `bb` holds none of the side's own squares.
proof fn lemma_targets_fit(b: Board, from: int, bb: u64)
    requires
        sound(b),
        0 <= from < 64,
        find_piece(b.pieces[color_index(b.side)], from, 0) < 6,
        forall|t: int| #[trigger] bit(bb, t) ==> !bit(b.occ[color_index(b.side)], t) && expected_flag(b, from, t)
            == FLAG_NONE,
    ensures
        all_fit(b, targets_moves(from, squares(bb), FLAG_NONE)),
{
    let tos = squares(bb);
    lemma_squares_from_members(bb, 0);
    assert forall|i: int| 0 <= i < targets_moves(from, tos, FLAG_NONE).len() implies fits(
        b,
        #[trigger] targets_moves(from, tos, FLAG_NONE)[i],
    ) by {
        let t = tos[i];
        assert(bit(bb, t));
        lemma_canon_encode(b, from, t, FLAG_NONE, 0);
        lemma_plain_fit(b, encode(from as u32, t as u32, FLAG_NONE, 0));
    }
}

/// A pawn step from `from` to `to`, promoting or not, fits when a piece of
/// the side to move stands on `from` and `to` is not one of its squares.
proof fn lemma_promo_or_quiet_fit(b: Board, from: int, to: int, pr: u64)
    requires
        sound(b),
        0 <= from < 64,
        0 <= to < 64,
        find_piece(b.pieces[color_index(b.side)], from, 0) < 6,
        !bit(b.occ[color_index(b.side)], to),
        bit(b.pieces[color_index(b.side)][0], from),
        pr == promo_rank_of(color_index(b.side)),
        !(b.ep_sq != NO_EP && to == b.ep_sq as int),
        from != behind(color_index(b.side), to, 16),
    ensures
        all_fit(b, promo_or_quiet(from, to, pr)),
{
    let f = from as u32;
    let t = to as u32;
    if bit(pr, to) {
        lemma_canon_encode(b, from, to, FLAG_PROMO, 0);
        lemma_canon_encode(b, from, to, FLAG_PROMO, 1);
        lemma_canon_encode(b, from, to, FLAG_PROMO, 2);
        lemma_canon_encode(b, from, to, FLAG_PROMO, 3);
    } else {
        lemma_canon_encode(b, from, to, FLAG_NONE, 0);
    }
    lemma_move_roundtrip(f, t, FLAG_PROMO, 0);
    lemma_move_roundtrip(f, t, FLAG_PROMO, 1);
    lemma_move_roundtrip(f, t, FLAG_PROMO, 2);
    lemma_move_roundtrip(f, t, FLAG_PROMO, 3);
    lemma_move_roundtrip(f, t, FLAG_NONE, 0);
    lemma_plain_fit(b, encode(f, t, FLAG_PROMO, 0));
    lemma_plain_fit(b, encode(f, t, FLAG_PROMO, 1));
    lemma_plain_fit(b, encode(f, t, FLAG_PROMO, 2));
    lemma_plain_fit(b, encode(f, t, FLAG_PROMO, 3));
    lemma_plain_fit(b, encode(f, t, FLAG_NONE, 0));
}

/// What a single push onto `t` needs: a pawn of the side to move on the
/// square behind, and `t` empty.
proof fn lemma_single_push_square(b: Board, t: int)
    requires
        sound(b),
        bit(single_pushes(b), t),
    ensures
        0 <= t < 64,
        0 <= behind(color_index(b.side), t, 8) < 64,
        bit(b.pieces[color_index(b.side)][0], behind(color_index(b.side), t, 8)),
        find_piece(b.pieces[color_index(b.side)], behind(color_index(b.side), t, 8), 0) < 6,
        !bit(b.all, t),
        !bit(b.occ[color_index(b.side)], t),
{
    let us = color_index(b.side);
    let pawns = b.pieces[us][0];
    if us == 0 {
        lemma_bit_and_not(pawns << 8u64, b.all, t);
        lemma_bit_shl8(pawns, t);
    } else {
        lemma_bit_and_not(pawns >> 8u64, b.all, t);
        lemma_bit_shr8(pawns, t);
    }
    lemma_occupied(b, us, t);
    lemma_occupied(b, us, behind(us, t, 8));
}

proof fn lemma_push_list_fit(b: Board, tos: Seq<int>, pr: u64)
    requires
        sound(b),
        pr == promo_rank_of(color_index(b.side)),
        forall|k: int| 0 <= k < tos.len() ==> bit(single_pushes(b), #[trigger] tos[k]),
    ensures
        all_fit(b, push_list(color_index(b.side), tos, pr)),
    decreases tos.len(),
{
    let us = color_index(b.side);
    if tos.len() > 0 {
        let t = tos[0];
        lemma_single_push_square(b, t);
        if b.ep_sq != NO_EP && t == b.ep_sq as int {
            // The pawn that passed the square stands where ours would.
            assert(bit(b.pieces[1 - us][0], behind(us, t, 8)));
            assert(bit(b.pieces[us][0], behind(us, t, 8)));
        }
        lemma_promo_or_quiet_fit(b, behind(us, t, 8), t, pr);
        assert forall|k: int| 0 <= k < tos.drop_first().len() implies bit(
            single_pushes(b),
            #[trigger] tos.drop_first()[k],
        ) by {
            assert(tos.drop_first()[k] == tos[k + 1]);
        }
        lemma_push_list_fit(b, tos.drop_first(), pr);
        lemma_all_fit_concat(b, promo_or_quiet(behind(us, t, 8), t, pr), push_list(us, tos.drop_first(), pr));
    }
}

proof fn lemma_double_list_fit(b: Board, tos: Seq<int>)
    requires
        sound(b),
        forall|k: int| 0 <= k < tos.len() ==> bit(double_pushes(b), #[trigger] tos[k]),
    ensures
        all_fit(b, double_list(color_index(b.side), tos)),
    decreases tos.len(),
{
    let us = color_index(b.side);
    if tos.len() > 0 {
        let t = tos[0];
        let sp = single_pushes(b);
        if us == 0 {
            lemma_bit_and_not((sp & 0x0000000000FF0000u64) << 8u64, b.all, t);
            lemma_bit_shl8(sp & 0x0000000000FF0000u64, t);
            lemma_bit_and(sp, 0x0000000000FF0000u64, t - 8);
            lemma_single_push_square(b, t - 8);
        } else {
            lemma_bit_and_not((sp & 0x0000FF0000000000u64) >> 8u64, b.all, t);
            lemma_bit_shr8(sp & 0x0000FF0000000000u64, t);
            lemma_bit_and(sp, 0x0000FF0000000000u64, t + 8);
            lemma_single_push_square(b, t + 8);
        }
        lemma_occupied(b, us, t);
        let from = behind(us, t, 16);
        if b.ep_sq != NO_EP && t == b.ep_sq as int {
            // The pawn that passed the square would stand on the empty square
            // crossed.
            lemma_piece_occupies(b, 1 - us, 0, behind(us, t, 8));
        }
        lemma_canon_encode(b, from, t, FLAG_DOUBLE_PUSH, 0);
        lemma_move_roundtrip(from as u32, t as u32, FLAG_DOUBLE_PUSH, 0);
        lemma_plain_fit(b, encode(from as u32, t as u32, FLAG_DOUBLE_PUSH, 0));
        assert forall|k: int| 0 <= k < tos.drop_first().len() implies bit(
            double_pushes(b),
            #[trigger] tos.drop_first()[k],
        ) by {
            assert(tos.drop_first()[k] == tos[k + 1]);
        }
        lemma_double_list_fit(b, tos.drop_first());
        lemma_all_fit_concat(
            b,
            seq![encode(from as u32, t as u32, FLAG_DOUBLE_PUSH, 0)],
            double_list(us, tos.drop_first()),
        );
    }
}


proof fn lemma_capture_targets_fit(b: Board, from: int, tos: Seq<int>, pr: u64)
    requires
        sound(b),
        0 <= from < 64,
        find_piece(b.pieces[color_index(b.side)], from, 0) < 6,
        bit(b.pieces[color_index(b.side)][0], from),
        pr == promo_rank_of(color_index(b.side)),
        forall|k: int| 0 <= k < tos.len() ==> bit(b.occ[1 - color_index(b.side)], #[trigger] tos[k]) && bit(
            pawn_bb(color_index(b.side), from),
            tos[k],
        ),
    ensures
        all_fit(b, capture_targets(from, tos, pr)),
    decreases tos.len(),
{
    let us = color_index(b.side);
    if tos.len() > 0 {
        let t = tos[0];
        lemma_occupied(b, 1 - us, t);
        lemma_pawn_bb(us, from, t);
        lemma_promo_or_quiet_fit(b, from, t, pr);
        assert forall|k: int| 0 <= k < tos.drop_first().len() implies bit(
            b.occ[1 - us],
            #[trigger] tos.drop_first()[k],
        ) && bit(pawn_bb(us, from), tos.drop_first()[k]) by {
            assert(tos.drop_first()[k] == tos[k + 1]);
        }
        lemma_capture_targets_fit(b, from, tos.drop_first(), pr);
        lemma_all_fit_concat(b, promo_or_quiet(from, t, pr), capture_targets(from, tos.drop_first(), pr));
    }
}

proof fn lemma_capture_list_fit(b: Board, froms: Seq<int>)
    requires
        sound(b),
        forall|k: int| 0 <= k < froms.len() ==> bit(b.pieces[color_index(b.side)][0], #[trigger] froms[k]),
    ensures
        all_fit(
            b,
            capture_list(
                color_index(b.side),
                froms,
                b.occ[1 - color_index(b.side)],
                b.ep_sq,
                promo_rank_of(color_index(b.side)),
            ),
        ),
    decreases froms.len(),
{
    let us = color_index(b.side);
    let their = b.occ[1 - us];
    let pr = promo_rank_of(us);
    if froms.len() > 0 {
        let from = froms[0];
        lemma_occupied(b, us, from);
        let bb = pawn_bb(us, from) & their;
        lemma_squares_from_members(bb, 0);
        assert forall|k: int| 0 <= k < squares(bb).len() implies bit(their, #[trigger] squares(bb)[k]) && bit(
            pawn_bb(us, from),
            squares(bb)[k],
        ) by {
            lemma_bit_and(pawn_bb(us, from), their, squares(bb)[k]);
        }
        lemma_capture_targets_fit(b, from, squares(bb), pr);
        let ep = ep_part(us, from, b.ep_sq);
        if b.ep_sq != 255 && bit(pawn_bb(us, from), b.ep_sq as int) {
            lemma_canon_encode(b, from, b.ep_sq as int, FLAG_EP_CAPTURE, 0);
            lemma_ep_fit(b, encode(from as u32, b.ep_sq as u32, FLAG_EP_CAPTURE, 0));
        }
        assert(all_fit(b, ep));
        assert forall|k: int| 0 <= k < froms.drop_first().len() implies bit(
            b.pieces[us][0],
            #[trigger] froms.drop_first()[k],
        ) by {
            assert(froms.drop_first()[k] == froms[k + 1]);
        }
        lemma_capture_list_fit(b, froms.drop_first());
        lemma_all_fit_concat(b, capture_targets(from, squares(bb), pr), ep);
        lemma_all_fit_concat(
            b,
            capture_targets(from, squares(bb), pr) + ep,
            capture_list(us, froms.drop_first(), their, b.ep_sq, pr),
        );
    }
}

proof fn lemma_piece_moves_fit(b: Board, froms: Seq<int>, kind: int)
    requires
        sound(b),
        1 <= kind <= 4,
        forall|k: int|
            0 <= k < froms.len() ==> 0 <= #[trigger] froms[k] < 64 && find_piece(
                b.pieces[color_index(b.side)],
                froms[k],
                0,
            ) < 6 && bit(b.pieces[color_index(b.side)][kind], froms[k]),
    ensures
        all_fit(b, piece_moves(froms, kind, b.all, b.occ[color_index(b.side)])),
    decreases froms.len(),
{
    let us = color_index(b.side);
    let own = b.occ[us];
    if froms.len() > 0 {
        let from = froms[0];
        let bb = attacks_of(kind, from, b.all) & !own;
        // A knight, bishop, rook or queen is neither a pawn nor a king.
        assert(!bit(b.pieces[us][0], from) && !bit(b.pieces[us][5], from));
        assert forall|t: int| #[trigger] bit(bb, t) implies !bit(own, t) && expected_flag(b, from, t) == FLAG_NONE by {
            lemma_bit_and_not(attacks_of(kind, from, b.all), own, t);
        }
        lemma_targets_fit(b, from, bb);
        assert forall|k: int| 0 <= k < froms.drop_first().len() implies 0 <= #[trigger] froms.drop_first()[k]
            < 64 && find_piece(b.pieces[us], froms.drop_first()[k], 0) < 6 && bit(
            b.pieces[us][kind],
            froms.drop_first()[k],
        ) by {
            assert(froms.drop_first()[k] == froms[k + 1]);
        }
        lemma_piece_moves_fit(b, froms.drop_first(), kind);
        lemma_all_fit_concat(
            b,
            targets_moves(from, squares(bb), FLAG_NONE),
            piece_moves(froms.drop_first(), kind, b.all, own),
        );
    }
}

/// The squares of a bitboard of the side to move hold that side's pieces.
proof fn lemma_own_squares(b: Board, kind: int)
    requires
        sound(b),
        0 <= kind < 6,
    ensures
        forall|k: int|
            0 <= k < squares(b.pieces[color_index(b.side)][kind]).len() ==> 0 <= #[trigger] squares(
                b.pieces[color_index(b.side)][kind],
            )[k] < 64 && find_piece(
                b.pieces[color_index(b.side)],
                squares(b.pieces[color_index(b.side)][kind])[k],
                0,
            ) < 6 && bit(b.pieces[color_index(b.side)][kind], squares(b.pieces[color_index(b.side)][kind])[k]),
{
    let us = color_index(b.side);
    let bb = b.pieces[us][kind];
    lemma_squares_from_members(bb, 0);
    assert forall|k: int| 0 <= k < squares(bb).len() implies find_piece(b.pieces[us], #[trigger] squares(bb)[k], 0) < 6 by {
        lemma_occupied(b, us, squares(bb)[k]);
    }
}

proof fn lemma_clear_bit(a: u64, m: u64, s: u64)
    by (bit_vector)
    requires
        s < 64,
        a & m == 0,
        (m >> s) & 1u64 == 1u64,
    ensures
        (a >> s) & 1u64 != 1u64,
{
}

proof fn lemma_castle_mask_bits()
    by (bit_vector)
    ensures
        (0x60u64 >> 5u64) & 1u64 == 1u64,
        (0x60u64 >> 6u64) & 1u64 == 1u64,
        (0xEu64 >> 2u64) & 1u64 == 1u64,
        (0xEu64 >> 3u64) & 1u64 == 1u64,
        (0x6000000000000000u64 >> 61u64) & 1u64 == 1u64,
        (0x6000000000000000u64 >> 62u64) & 1u64 == 1u64,
        (0x0E00000000000000u64 >> 58u64) & 1u64 == 1u64,
        (0x0E00000000000000u64 >> 59u64) & 1u64 == 1u64,
        (0xEu64 >> 1u64) & 1u64 == 1u64,
        (0x0E00000000000000u64 >> 57u64) & 1u64 == 1u64,
{
}

/// A castling move fits when the king and the rook stand on their home
/// squares and the squares the king and the rook go to are empty.
proof fn lemma_castle_fit(b: Board, kfrom: int, kto: int, flag: u32, rfrom: int, rto: int)
    requires
        sound(b),
        0 <= kfrom < 64,
        0 <= kto < 64,
        kfrom != kto,
        flag == FLAG_KINGSIDE_CASTLE || flag == FLAG_QUEENSIDE_CASTLE,
        flag == FLAG_KINGSIDE_CASTLE ==> rfrom == ks_rook_from(b.side) && rto == ks_rook_to(b.side),
        flag == FLAG_QUEENSIDE_CASTLE ==> rfrom == qs_rook_from(b.side) && rto == qs_rook_to(b.side),
        flag == FLAG_KINGSIDE_CASTLE <==> ((kfrom == 4 && kto == 6) || (kfrom == 60 && kto == 62)),
        flag == FLAG_QUEENSIDE_CASTLE ==> ((kfrom == 4 && kto == 2) || (kfrom == 60 && kto == 58)),
        bit(b.pieces[color_index(b.side)][5], kfrom),
        bit(b.pieces[color_index(b.side)][3], rfrom),
        kfrom == (if b.side == Color::White {
            4int
        } else {
            60int
        }),
        !bit(b.all, kto),
        !bit(b.all, rto),
        castle_path_safe(b, kfrom, rto, kto),
        flag == FLAG_KINGSIDE_CASTLE ==> b.castling & kingside_right(b.side) != 0,
        flag == FLAG_QUEENSIDE_CASTLE ==> b.castling & queenside_right(b.side) != 0 && !bit(
            b.all,
            qs_rook_from(b.side) + 1,
        ),
    ensures
        fits(b, encode(kfrom as u32, kto as u32, flag, 0)),
{
    let us = color_index(b.side);
    let m = encode(kfrom as u32, kto as u32, flag, 0);
    // A king is no pawn.
    assert(!bit(b.pieces[us][0], kfrom));
    lemma_canon_encode(b, kfrom, kto, flag, 0);
    lemma_move_roundtrip(kfrom as u32, kto as u32, flag, 0);
    lemma_occupied(b, us, kfrom);
    lemma_occupied(b, us, kto);
    lemma_occupied(b, us, rto);
    lemma_union6(b.pieces[us], kto);
    lemma_union6(b.pieces[us], rto);
    assert(moving_index(b, m) == 5);
    assert(landing_index(b, m) == 5);
    assert(us_landed(b, m, 3) == b.pieces[us][3]);
    if bit(b.pieces[us][5], kto) {
        assert(bit(b.occ[us], kto));
    }
    if bit(b.pieces[us][3], rto) {
        assert(bit(b.occ[us], rto));
    }
}

proof fn lemma_castle_moves_fit(b: Board)
    requires
        sound(b),
    ensures
        all_fit(b, castle_moves(b)),
{
    lemma_castle_mask_bits();
    if b.side == Color::White {
        if can_castle(b, CASTLE_WK, 0x60, 4, 5, 6) {
            lemma_clear_bit(b.all, 0x60, 5);
            lemma_clear_bit(b.all, 0x60, 6);
            lemma_castle_fit(b, 4, 6, FLAG_KINGSIDE_CASTLE, 7, 5);
        }
        if can_castle(b, CASTLE_WQ, 0xE, 4, 3, 2) {
            lemma_clear_bit(b.all, 0xE, 1);
            lemma_clear_bit(b.all, 0xE, 2);
            lemma_clear_bit(b.all, 0xE, 3);
            lemma_castle_fit(b, 4, 2, FLAG_QUEENSIDE_CASTLE, 0, 3);
        }
        let a = if can_castle(b, CASTLE_WK, 0x60, 4, 5, 6) {
            seq![encode(4, 6, FLAG_KINGSIDE_CASTLE, 0)]
        } else {
            Seq::empty()
        };
        let q = if can_castle(b, CASTLE_WQ, 0xE, 4, 3, 2) {
            seq![encode(4, 2, FLAG_QUEENSIDE_CASTLE, 0)]
        } else {
            Seq::empty()
        };
        assert(all_fit(b, a));
        assert(all_fit(b, q));
        lemma_all_fit_concat(b, a, q);
    } else {
        if can_castle(b, CASTLE_BK, 0x6000000000000000, 60, 61, 62) {
            lemma_clear_bit(b.all, 0x6000000000000000, 61);
            lemma_clear_bit(b.all, 0x6000000000000000, 62);
            lemma_castle_fit(b, 60, 62, FLAG_KINGSIDE_CASTLE, 63, 61);
        }
        if can_castle(b, CASTLE_BQ, 0x0E00000000000000, 60, 59, 58) {
            lemma_clear_bit(b.all, 0x0E00000000000000, 57);
            lemma_clear_bit(b.all, 0x0E00000000000000, 58);
            lemma_clear_bit(b.all, 0x0E00000000000000, 59);
            lemma_castle_fit(b, 60, 58, FLAG_QUEENSIDE_CASTLE, 56, 59);
        }
        let a = if can_castle(b, CASTLE_BK, 0x6000000000000000, 60, 61, 62) {
            seq![encode(60, 62, FLAG_KINGSIDE_CASTLE, 0)]
        } else {
            Seq::empty()
        };
        let q = if can_castle(b, CASTLE_BQ, 0x0E00000000000000, 60, 59, 58) {
            seq![encode(60, 58, FLAG_QUEENSIDE_CASTLE, 0)]
        } else {
            Seq::empty()
        };
        assert(all_fit(b, a));
        assert(all_fit(b, q));
        lemma_all_fit_concat(b, a, q);
    }
}


/// Every pseudo-legal move of a sound position fits it.
pub proof fn lemma_pseudo_moves_fit(b: Board)
    requires
        sound(b),
        has_king(b),
    ensures
        all_fit(b, pseudo_moves(b)),
{
    let us = color_index(b.side);
    let pr = promo_rank_of(us);
    let occ = b.all;
    let own = b.occ[us];
    // Pawns.
    let singles = squares(single_pushes(b));
    let doubles = squares(double_pushes(b));
    lemma_squares_from_members(single_pushes(b), 0);
    lemma_squares_from_members(double_pushes(b), 0);
    lemma_push_list_fit(b, singles, pr);
    lemma_double_list_fit(b, doubles);
    lemma_own_squares(b, 0);
    lemma_capture_list_fit(b, squares(b.pieces[us][0]));
    let pushes = push_list(us, singles, pr);
    let dbl = double_list(us, doubles);
    let caps = capture_list(us, squares(b.pieces[us][0]), b.occ[1 - us], b.ep_sq, pr);
    lemma_all_fit_concat(b, pushes, dbl);
    lemma_all_fit_concat(b, pushes + dbl, caps);
    assert(pawn_moves(b) == pushes + dbl + caps);
    // Knights, bishops, rooks, queens.
    lemma_own_squares(b, 1);
    lemma_own_squares(b, 2);
    lemma_own_squares(b, 3);
    lemma_own_squares(b, 4);
    lemma_piece_moves_fit(b, squares(b.pieces[us][1]), 1);
    lemma_piece_moves_fit(b, squares(b.pieces[us][2]), 2);
    lemma_piece_moves_fit(b, squares(b.pieces[us][3]), 3);
    lemma_piece_moves_fit(b, squares(b.pieces[us][4]), 4);
    let n = piece_moves(squares(b.pieces[us][1]), 1, occ, own);
    let bi = piece_moves(squares(b.pieces[us][2]), 2, occ, own);
    let r = piece_moves(squares(b.pieces[us][3]), 3, occ, own);
    let q = piece_moves(squares(b.pieces[us][4]), 4, occ, own);
    // The king.
    let kings = b.pieces[us][5];
    lemma_lowest(kings);
    let ksq = u64_trailing_zeros(kings) as int;
    lemma_occupied(b, us, ksq);
    let kbb = king_bb(ksq) & !own;
    assert(!bit(b.pieces[us][0], ksq));
    assert forall|t: int| #[trigger] bit(kbb, t) implies !bit(own, t) && expected_flag(b, ksq, t) == FLAG_NONE by {
        lemma_bit_and_not(king_bb(ksq), own, t);
        lemma_king_bb(ksq, t);
    }
    lemma_targets_fit(b, ksq, kbb);
    let k = targets_moves(ksq, squares(kbb), FLAG_NONE);
    lemma_castle_moves_fit(b);
    let c = castle_moves(b);
    lemma_all_fit_concat(b, pawn_moves(b), n);
    lemma_all_fit_concat(b, pawn_moves(b) + n, bi);
    lemma_all_fit_concat(b, pawn_moves(b) + n + bi, r);
    lemma_all_fit_concat(b, pawn_moves(b) + n + bi + r, q);
    lemma_all_fit_concat(b, pawn_moves(b) + n + bi + r + q, k);
    lemma_all_fit_concat(b, pawn_moves(b) + n + bi + r + q + k, c);
}

/// Every legal move of a sound position fits it, so `make_move` plays it
/// with an incrementally updated hash equal to the hash computed from
/// scratch whenever the position's own hash was.
pub proof fn lemma_legal_moves_fit(b: Board, m: Move)
    requires
        sound(b),
        has_king(b),
        legal_list(b).contains(m),
    ensures
        move_consistent(b, m),
        canonical(b, m),
        fits(b, m),
{
    lemma_pseudo_moves_fit(b);
    lemma_legal_filter_sub(b, pseudo_moves(b));
    let j = choose|j: int| 0 <= j < legal_list(b).len() && legal_list(b)[j] == m;
    assert(pseudo_moves(b).contains(legal_list(b)[j]));
    let i = choose|i: int| 0 <= i < pseudo_moves(b).len() && pseudo_moves(b)[i] == m;
    assert(fits(b, pseudo_moves(b)[i]));
}

/// The UCI text of a legal move of a sound position reads back as that very
/// move: no other legal move has its squares and promotion piece.
pub proof fn lemma_uci_round_trip(b: Board, m: Move)
    requires
        sound(b),
        has_king(b),
        legal_list(b).contains(m),
    ensures
        uci_lookup(legal_list(b), utf8(uci_chars(m))) == Some(m),
{
    lemma_uci_text_names_move(b, m);
    let bs = utf8(uci_chars(m));
    let m2 = uci_lookup(legal_list(b), bs)->0;
    lemma_first_uci_in(
        legal_list(b),
        0,
        crate::movegen::uci_square(bs[0], bs[1]),
        crate::movegen::uci_square(bs[2], bs[3]),
        crate::movegen::wanted_promo(bs),
    );
    lemma_legal_moves_fit(b, m);
    lemma_legal_moves_fit(b, m2);
    assert(m2.flag_bits() == m.flag_bits());
    if m.flag_bits() == FLAG_PROMO {
        assert(m2.promo_piece() == m.promo_piece());
        assert(m2.promo_code() == m.promo_code());
    }
}


/// Whether bitboard `p` of colour `c` holds `s` after the move, square by
/// square: the mover leaves its from square and lands on its target, a
/// castling rook goes from its corner to its new square, and the piece
/// taken (or the pawn taken en passant) is removed.
pub open spec fn holds_after(b: Board, m: Move, c: int, p: int, s: int) -> bool {
    let us = color_index(b.side);
    let fl = m.flag_bits();
    if c == us {
        let base = (bit(b.pieces[us][p], s) && !(p == moving_index(b, m) && s == m.from_sq())) || (p
            == landing_index(b, m) && s == m.to_sq() && 0 <= s < 64);
        if p == 3 && fl == FLAG_KINGSIDE_CASTLE {
            (base && s != ks_rook_from(b.side)) || s == ks_rook_to(b.side)
        } else if p == 3 && fl == FLAG_QUEENSIDE_CASTLE {
            (base && s != qs_rook_from(b.side)) || s == qs_rook_to(b.side)
        } else {
            base
        }
    } else {
        bit(b.pieces[c][p], s) && !(p == captured_index(b, m) && s == m.to_sq()) && !(fl == FLAG_EP_CAPTURE
            && p == 0 && s == ep_victim(b, m))
    }
}

proof fn lemma_holds_after(b: Board, m: Move, c: int, p: int, s: int)
    requires
        0 <= c < 2,
        0 <= p < 6,
        0 <= m.from_sq() < 64,
        0 <= m.to_sq() < 64,
    ensures
        bit(piece_after(b, m, c, p), s) <==> holds_after(b, m, c, p, s),
{
    let us = color_index(b.side);
    lemma_bit_sq_bb(m.from_sq(), s);
    lemma_bit_sq_bb(m.to_sq(), s);
    lemma_bit_sq_bb(ks_rook_from(b.side), s);
    lemma_bit_sq_bb(ks_rook_to(b.side), s);
    lemma_bit_sq_bb(qs_rook_from(b.side), s);
    lemma_bit_sq_bb(qs_rook_to(b.side), s);
    lemma_bit_sq_bb(ep_victim(b, m), s);
    if c == us {
        let bb = b.pieces[us][p];
        let s1 = if p == moving_index(b, m) {
            bb & !sq_bb(m.from_sq())
        } else {
            bb
        };
        lemma_bit_and_not(bb, sq_bb(m.from_sq()), s);
        lemma_bit_or(s1, sq_bb(m.to_sq()), s);
        let s2 = us_landed(b, m, p);
        lemma_bit_and_not(s2, sq_bb(ks_rook_from(b.side)), s);
        lemma_bit_or(s2 & !sq_bb(ks_rook_from(b.side)), sq_bb(ks_rook_to(b.side)), s);
        lemma_bit_and_not(s2, sq_bb(qs_rook_from(b.side)), s);
        lemma_bit_or(s2 & !sq_bb(qs_rook_from(b.side)), sq_bb(qs_rook_to(b.side)), s);
    } else {
        let bb = b.pieces[c][p];
        let t1 = if p == captured_index(b, m) {
            bb & !sq_bb(m.to_sq())
        } else {
            bb
        };
        lemma_bit_and_not(bb, sq_bb(m.to_sq()), s);
        lemma_bit_and_not(t1, sq_bb(ep_victim(b, m)), s);
    }
}


/// After a legal move of a sound position no square holds two pieces: the
/// mover lands on a square none of its side holds (taking what stood
/// there), a castling rook lands on an empty square, and everything else
/// stays where it was.
pub proof fn lemma_legal_move_keeps_squares_single(b: Board, m: Move)
    requires
        sound(b),
        has_king(b),
        legal_list(b).contains(m),
    ensures
        forall|c1: int, p1: int, c2: int, p2: int, s: int|
            0 <= c1 < 2 && 0 <= p1 < 6 && 0 <= c2 < 2 && 0 <= p2 < 6 && #[trigger] bit(piece_after(b, m, c1, p1), s)
                && #[trigger] bit(piece_after(b, m, c2, p2), s) ==> c1 == c2 && p1 == p2,
{
    let us = color_index(b.side);
    let them = 1 - us;
    let t = m.to_sq();
    let f = m.from_sq();
    let fl = m.flag_bits();
    lemma_legal_moves_fit(b, m);
    assert(0 <= f < 64 && 0 <= t < 64) by {
        let x = m.0;
        assert(x & 0x3Fu32 < 64) by (bit_vector);
        assert((x >> 6u32) & 0x3Fu32 < 64) by (bit_vector);
    }
    // What stands on the target before the move.
    lemma_union6(b.pieces[us], t);
    lemma_occupied(b, them, t);
    lemma_occupied(b, us, f);
    lemma_find_piece(b.pieces[us], f, 0);
    if fl == FLAG_EP_CAPTURE {
        lemma_union6(b.pieces[them], t);
        lemma_occupied(b, us, t);
    }
    let rto = if fl == FLAG_KINGSIDE_CASTLE {
        ks_rook_to(b.side)
    } else {
        qs_rook_to(b.side)
    };
    if fl == FLAG_KINGSIDE_CASTLE || fl == FLAG_QUEENSIDE_CASTLE {
        lemma_union6(b.pieces[us], rto);
        lemma_union6(b.pieces[them], rto);
        lemma_occupied(b, us, rto);
        assert(moving_index(b, m) == 5);
    }
    assert forall|c1: int, p1: int, c2: int, p2: int, s: int|
        0 <= c1 < 2 && 0 <= p1 < 6 && 0 <= c2 < 2 && 0 <= p2 < 6 && #[trigger] bit(piece_after(b, m, c1, p1), s)
            && #[trigger] bit(piece_after(b, m, c2, p2), s) implies c1 == c2 && p1 == p2 by {
        lemma_holds_after(b, m, c1, p1, s);
        lemma_holds_after(b, m, c2, p2, s);
        if s != t && !((fl == FLAG_KINGSIDE_CASTLE || fl == FLAG_QUEENSIDE_CASTLE) && s == rto) {
            assert(bit(b.pieces[c1][p1], s));
            assert(bit(b.pieces[c2][p2], s));
        }
    }
}


proof fn lemma_rights_bits(c: u8, m1: u8, m2: u8, right: u8)
    by (bit_vector)
    requires
        (c & m1 & m2) & right != 0,
    ensures
        c & right != 0,
        m1 & right != 0,
        m2 & right != 0,
{
}

proof fn lemma_mask_bits()
    by (bit_vector)
    ensures
        0xFCu8 & 1u8 == 0,
        0xFEu8 & 1u8 == 0,
        0xFDu8 & 2u8 == 0,
        0xFCu8 & 2u8 == 0,
        0xF3u8 & 4u8 == 0,
        0xFBu8 & 4u8 == 0,
        0xF7u8 & 8u8 == 0,
        0xF3u8 & 8u8 == 0,
{
}

/// A castling right that survives the move still has its king and rook at
/// home: the move neither left nor landed on their squares.
proof fn lemma_right_kept(b: Board, m: Move, r: Board, right: u8, c: int, ksq: int, rsq: int)
    requires
        sound(b),
        fits(b, m),
        played(b, m, r),
        0 <= m.from_sq() < 64,
        0 <= m.to_sq() < 64,
        c == 0 || c == 1,
        ksq == (if c == 0 { 4int } else { 60int }),
        0 <= rsq < 64,
        rsq != ksq,
        r.castling & right != 0,
        b.castling & right != 0 ==> bit(b.pieces[c][5], ksq) && bit(b.pieces[c][3], rsq),
        castle_mask(ksq) & right == 0,
        castle_mask(rsq) & right == 0,
        rsq != ks_rook_to(b.side) && rsq != qs_rook_to(b.side),
    ensures
        bit(r.pieces[c][5], ksq),
        bit(r.pieces[c][3], rsq),
{
    let f = m.from_sq();
    let t = m.to_sq();
    lemma_rights_bits(b.castling, castle_mask(f), castle_mask(t), right);
    assert(f != ksq && f != rsq && t != ksq && t != rsq);
    lemma_holds_after(b, m, c, 5, ksq);
    lemma_holds_after(b, m, c, 3, rsq);
    assert(r.pieces[c][5] == piece_after(b, m, c, 5));
    assert(r.pieces[c][3] == piece_after(b, m, c, 3));
}


/// A legal move keeps a position sound: the position `make_move` makes is
/// sound again, so the laws above hold move after move.
pub proof fn lemma_legal_move_keeps_sound(b: Board, m: Move, r: Board)
    requires
        sound(b),
        has_king(b),
        legal_list(b).contains(m),
        played(b, m, r),
    ensures
        sound(r),
{
    let us = color_index(b.side);
    let them = 1 - us;
    let t = m.to_sq();
    let f = m.from_sq();
    let fl = m.flag_bits();
    lemma_legal_moves_fit(b, m);
    lemma_legal_move_keeps_squares_single(b, m);
    assert(0 <= f < 64 && 0 <= t < 64) by {
        let x = m.0;
        assert(x & 0x3Fu32 < 64) by (bit_vector);
        assert((x >> 6u32) & 0x3Fu32 < 64) by (bit_vector);
    }
    // No square holds two pieces.
    assert forall|c1: int, p1: int, c2: int, p2: int, s: int|
        0 <= c1 < 2 && 0 <= p1 < 6 && 0 <= c2 < 2 && 0 <= p2 < 6 && #[trigger] bit(r.pieces[c1][p1], s)
            && #[trigger] bit(r.pieces[c2][p2], s) implies c1 == c2 && p1 == p2 by {
        assert(r.pieces[c1][p1] == piece_after(b, m, c1, p1));
        assert(r.pieces[c2][p2] == piece_after(b, m, c2, p2));
    }
    // The en-passant square: the square a double push crossed.
    if fl == FLAG_DOUBLE_PUSH {
        let e = behind(us, t, 8);
        assert(bit(b.pieces[us][0], f));
        lemma_occupied(b, us, f);
        assert(0 <= e < 64);
        assert(r.ep_sq as int == e);
        assert(behind(color_index(r.side), e, 8) == t);
        lemma_holds_after(b, m, us, 0, t);
        assert(r.pieces[us][0] == piece_after(b, m, us, 0));
        lemma_union6(b.pieces[0], e);
        lemma_union6(b.pieces[1], e);
        lemma_occupied(b, 0, e);
        assert forall|c: int, p: int| 0 <= c < 2 && 0 <= p < 6 implies !bit(#[trigger] r.pieces[c][p], e) by {
            lemma_holds_after(b, m, c, p, e);
            assert(r.pieces[c][p] == piece_after(b, m, c, p));
        }
        lemma_union6(r.pieces[0], e);
        lemma_union6(r.pieces[1], e);
        lemma_bit_or(r.occ[0], r.occ[1], e);
    }
    // Castling rights.
    lemma_mask_bits();
    if r.castling & CASTLE_WK != 0 {
        lemma_right_kept(b, m, r, CASTLE_WK, 0, 4, 7);
    }
    if r.castling & CASTLE_WQ != 0 {
        lemma_right_kept(b, m, r, CASTLE_WQ, 0, 4, 0);
    }
    if r.castling & CASTLE_BK != 0 {
        lemma_right_kept(b, m, r, CASTLE_BK, 1, 60, 63);
    }
    if r.castling & CASTLE_BQ != 0 {
        lemma_right_kept(b, m, r, CASTLE_BQ, 1, 60, 56);
    }
}


/// A king castles only out of a position where it is not attacked, and only
/// across and onto squares the opponent does not attack: every legal
/// castling move of a sound position starts on a square holding a king of
/// the side to move that no opposing piece attacks.
pub proof fn lemma_castling_needs_safe_king(b: Board, m: Move)
    requires
        sound(b),
        has_king(b),
        legal_list(b).contains(m),
        m.flag_bits() == FLAG_KINGSIDE_CASTLE || m.flag_bits() == FLAG_QUEENSIDE_CASTLE,
    ensures
        bit(b.pieces[color_index(b.side)][5], m.from_sq()),
        m.from_sq() == (if b.side == Color::White {
            4int
        } else {
            60int
        }),
        !attacked(b, m.from_sq(), 1 - color_index(b.side)),
        !attacked(b, m.to_sq(), 1 - color_index(b.side)),
        !bit(b.all, m.to_sq()),
        m.flag_bits() == FLAG_KINGSIDE_CASTLE ==> b.castling & kingside_right(b.side) != 0 && !bit(
            b.all,
            ks_rook_to(b.side),
        ) && !attacked(b, ks_rook_to(b.side), 1 - color_index(b.side)),
        m.flag_bits() == FLAG_QUEENSIDE_CASTLE ==> b.castling & queenside_right(b.side) != 0 && !bit(
            b.all,
            qs_rook_to(b.side),
        ) && !bit(b.all, qs_rook_from(b.side) + 1) && !attacked(b, qs_rook_to(b.side), 1 - color_index(b.side)),
{
    lemma_legal_moves_fit(b, m);
}

/// A side in check with a single king has no legal castling move.
pub proof fn lemma_no_castling_out_of_check(b: Board, m: Move)
    requires
        sound(b),
        has_king(b),
        checked(b),
        b.pieces[color_index(b.side)][5] == sq_bb(u64_trailing_zeros(b.pieces[color_index(b.side)][5]) as int),
        legal_list(b).contains(m),
    ensures
        m.flag_bits() != FLAG_KINGSIDE_CASTLE && m.flag_bits() != FLAG_QUEENSIDE_CASTLE,
{
    let kb = b.pieces[color_index(b.side)][5];
    if m.flag_bits() == FLAG_KINGSIDE_CASTLE || m.flag_bits() == FLAG_QUEENSIDE_CASTLE {
        lemma_castling_needs_safe_king(b, m);
        lemma_bit_sq_bb(u64_trailing_zeros(kb) as int, m.from_sq());
    }
}


/// Every castling move generated, in any position, starts from a square no
/// opposing piece attacks and lands on one no opposing piece attacks.
pub proof fn lemma_castle_moves_are_safe(b: Board, i: int)
    requires
        0 <= i < castle_moves(b).len(),
    ensures
        !attacked(b, castle_moves(b)[i].from_sq(), 1 - color_index(b.side)),
        !attacked(b, castle_moves(b)[i].to_sq(), 1 - color_index(b.side)),
{
    lemma_move_roundtrip(4, 6, FLAG_KINGSIDE_CASTLE, 0);
    lemma_move_roundtrip(4, 2, FLAG_QUEENSIDE_CASTLE, 0);
    lemma_move_roundtrip(60, 62, FLAG_KINGSIDE_CASTLE, 0);
    lemma_move_roundtrip(60, 58, FLAG_QUEENSIDE_CASTLE, 0);
}

} // verus!
