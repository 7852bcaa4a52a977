//! Attack sets: knight, king and pawn steps, and rook and bishop rays that
//! stop at the first occupied square.
use vstd::prelude::*;
use crate::bits::{bit, sq_bb, lemma_bit_or, lemma_bit_sq_bb, lemma_bit_zero, lemma_test_bit};
use crate::types::{Bitboard, Color, color_index};

verus! {

pub open spec fn file_of(s: int) -> int {
    s % 8
}

pub open spec fn rank_of(s: int) -> int {
    s / 8
}

pub open spec fn absd(x: int) -> int {
    if x < 0 {
        -x
    } else {
        x
    }
}

/// A knight jumps from `from` to `to`.
pub open spec fn knight_step(from: int, to: int) -> bool {
    let df = absd(file_of(to) - file_of(from));
    let dr = absd(rank_of(to) - rank_of(from));
    &&& 0 <= from < 64
    &&& 0 <= to < 64
    &&& ((df == 1 && dr == 2) || (df == 2 && dr == 1))
}

/// A king steps from `from` to `to`.
pub open spec fn king_step(from: int, to: int) -> bool {
    let df = absd(file_of(to) - file_of(from));
    let dr = absd(rank_of(to) - rank_of(from));
    &&& 0 <= from < 64
    &&& 0 <= to < 64
    &&& df <= 1
    &&& dr <= 1
    &&& !(df == 0 && dr == 0)
}

/// A pawn of colour index `c` on `from` captures on `to`: one file aside,
/// one rank forward (up the board for White, down for Black).
pub open spec fn pawn_capture_step(c: int, from: int, to: int) -> bool {
    &&& 0 <= from < 64
    &&& 0 <= to < 64
    &&& absd(file_of(to) - file_of(from)) == 1
    &&& rank_of(to) - rank_of(from) == (if c == 0 { 1int } else { -1int })
}

/// The square `df` files and `dr` ranks away from `s`, as a bitboard (empty
/// when it is off the board).
pub open spec fn offset_bb(s: int, df: int, dr: int) -> u64 {
    let f = file_of(s) + df;
    let r = rank_of(s) + dr;
    if 0 <= f < 8 && 0 <= r < 8 {
        sq_bb(r * 8 + f)
    } else {
        0u64
    }
}

pub open spec fn knight_bb(s: int) -> u64 {
    offset_bb(s, 1, 2) | offset_bb(s, -1, 2) | offset_bb(s, 2, 1) | offset_bb(s, -2, 1)
        | offset_bb(s, 1, -2) | offset_bb(s, -1, -2) | offset_bb(s, 2, -1) | offset_bb(s, -2, -1)
}

pub open spec fn king_bb(s: int) -> u64 {
    offset_bb(s, 1, 0) | offset_bb(s, -1, 0) | offset_bb(s, 0, 1) | offset_bb(s, 0, -1)
        | offset_bb(s, 1, 1) | offset_bb(s, -1, 1) | offset_bb(s, 1, -1) | offset_bb(s, -1, -1)
}

pub open spec fn pawn_bb(c: int, s: int) -> u64 {
    if c == 0 {
        offset_bb(s, 1, 1) | offset_bb(s, -1, 1)
    } else {
        offset_bb(s, 1, -1) | offset_bb(s, -1, -1)
    }
}

proof fn lemma_bit_offset(s: int, df: int, dr: int, t: int)
    requires
        0 <= s < 64,
    ensures
        bit(offset_bb(s, df, dr), t) <==> (0 <= t < 64 && 0 <= file_of(s) + df < 8 && 0 <= rank_of(s)
            + dr < 8 && file_of(t) == file_of(s) + df && rank_of(t) == rank_of(s) + dr),
{
    let f = file_of(s) + df;
    let r = rank_of(s) + dr;
    if 0 <= f < 8 && 0 <= r < 8 {
        lemma_bit_sq_bb(r * 8 + f, t);
        if 0 <= t < 64 && file_of(t) == f && rank_of(t) == r {
            assert(t == r * 8 + f);
        }
    } else {
        lemma_bit_zero(t);
    }
}

/// Adds the square `df` files and `dr` ranks away from `s`, when it is on
/// the board.
fn add_offset(bb: u64, s: usize, df: i32, dr: i32) -> (r: u64)
    requires
        s < 64,
        -2 <= df <= 2,
        -2 <= dr <= 2,
    ensures
        r == bb | offset_bb(s as int, df as int, dr as int),
{
    let f = (s % 8) as i32 + df;
    let rk = (s / 8) as i32 + dr;
    if 0 <= f && f < 8 && 0 <= rk && rk < 8 {
        bb | (1u64 << ((rk * 8 + f) as u64))
    } else {
        proof {
            lemma_or_assoc(bb, 0, 0);
        }
        bb
    }
}

pub proof fn lemma_knight_bb(s: int, t: int)
    requires
        0 <= s < 64,
    ensures
        bit(knight_bb(s), t) <==> knight_step(s, t),
{
    let a = offset_bb(s, 1, 2);
    let b = offset_bb(s, -1, 2);
    let c = offset_bb(s, 2, 1);
    let d = offset_bb(s, -2, 1);
    let e = offset_bb(s, 1, -2);
    let f = offset_bb(s, -1, -2);
    let g = offset_bb(s, 2, -1);
    let h = offset_bb(s, -2, -1);
    lemma_bit_or(a | b | c | d | e | f | g, h, t);
    lemma_bit_or(a | b | c | d | e | f, g, t);
    lemma_bit_or(a | b | c | d | e, f, t);
    lemma_bit_or(a | b | c | d, e, t);
    lemma_bit_or(a | b | c, d, t);
    lemma_bit_or(a | b, c, t);
    lemma_bit_or(a, b, t);
    lemma_bit_offset(s, 1, 2, t);
    lemma_bit_offset(s, -1, 2, t);
    lemma_bit_offset(s, 2, 1, t);
    lemma_bit_offset(s, -2, 1, t);
    lemma_bit_offset(s, 1, -2, t);
    lemma_bit_offset(s, -1, -2, t);
    lemma_bit_offset(s, 2, -1, t);
    lemma_bit_offset(s, -2, -1, t);
}

pub proof fn lemma_king_bb(s: int, t: int)
    requires
        0 <= s < 64,
    ensures
        bit(king_bb(s), t) <==> king_step(s, t),
{
    let a = offset_bb(s, 1, 0);
    let b = offset_bb(s, -1, 0);
    let c = offset_bb(s, 0, 1);
    let d = offset_bb(s, 0, -1);
    let e = offset_bb(s, 1, 1);
    let f = offset_bb(s, -1, 1);
    let g = offset_bb(s, 1, -1);
    let h = offset_bb(s, -1, -1);
    lemma_bit_or(a | b | c | d | e | f | g, h, t);
    lemma_bit_or(a | b | c | d | e | f, g, t);
    lemma_bit_or(a | b | c | d | e, f, t);
    lemma_bit_or(a | b | c | d, e, t);
    lemma_bit_or(a | b | c, d, t);
    lemma_bit_or(a | b, c, t);
    lemma_bit_or(a, b, t);
    lemma_bit_offset(s, 1, 0, t);
    lemma_bit_offset(s, -1, 0, t);
    lemma_bit_offset(s, 0, 1, t);
    lemma_bit_offset(s, 0, -1, t);
    lemma_bit_offset(s, 1, 1, t);
    lemma_bit_offset(s, -1, 1, t);
    lemma_bit_offset(s, 1, -1, t);
    lemma_bit_offset(s, -1, -1, t);
}

pub proof fn lemma_pawn_bb(c: int, s: int, t: int)
    requires
        0 <= s < 64,
    ensures
        bit(pawn_bb(c, s), t) <==> pawn_capture_step(c, s, t),
{
    if c == 0 {
        lemma_bit_or(offset_bb(s, 1, 1), offset_bb(s, -1, 1), t);
        lemma_bit_offset(s, 1, 1, t);
        lemma_bit_offset(s, -1, 1, t);
    } else {
        lemma_bit_or(offset_bb(s, 1, -1), offset_bb(s, -1, -1), t);
        lemma_bit_offset(s, 1, -1, t);
        lemma_bit_offset(s, -1, -1, t);
    }
}

/// The squares a knight on `sq` attacks.
pub fn knight_attacks(sq: usize) -> (r: Bitboard)
    requires
        sq < 64,
    ensures
        r == knight_bb(sq as int),
        forall|t: int| #[trigger] bit(r, t) <==> knight_step(sq as int, t),
{
    let mut bb: u64 = 0;
    bb = add_offset(bb, sq, 1, 2);
    bb = add_offset(bb, sq, -1, 2);
    bb = add_offset(bb, sq, 2, 1);
    bb = add_offset(bb, sq, -2, 1);
    bb = add_offset(bb, sq, 1, -2);
    bb = add_offset(bb, sq, -1, -2);
    bb = add_offset(bb, sq, 2, -1);
    bb = add_offset(bb, sq, -2, -1);
    proof {
        let a = offset_bb(sq as int, 1, 2);
        lemma_or_assoc(a, 0, 0);
        assert forall|t: int| #[trigger] bit(bb, t) <==> knight_step(sq as int, t) by {
            lemma_knight_bb(sq as int, t);
        }
    }
    bb
}

/// The squares a king on `sq` attacks.
pub fn king_attacks(sq: usize) -> (r: Bitboard)
    requires
        sq < 64,
    ensures
        r == king_bb(sq as int),
        forall|t: int| #[trigger] bit(r, t) <==> king_step(sq as int, t),
{
    let mut bb: u64 = 0;
    bb = add_offset(bb, sq, 1, 0);
    bb = add_offset(bb, sq, -1, 0);
    bb = add_offset(bb, sq, 0, 1);
    bb = add_offset(bb, sq, 0, -1);
    bb = add_offset(bb, sq, 1, 1);
    bb = add_offset(bb, sq, -1, 1);
    bb = add_offset(bb, sq, 1, -1);
    bb = add_offset(bb, sq, -1, -1);
    proof {
        let a = offset_bb(sq as int, 1, 0);
        lemma_or_assoc(a, 0, 0);
        assert forall|t: int| #[trigger] bit(bb, t) <==> king_step(sq as int, t) by {
            lemma_king_bb(sq as int, t);
        }
    }
    bb
}

/// The squares a pawn of colour `c` on `sq` captures on.
pub fn pawn_attacks(c: Color, sq: usize) -> (r: Bitboard)
    requires
        sq < 64,
    ensures
        r == pawn_bb(color_index(c), sq as int),
        forall|t: int| #[trigger] bit(r, t) <==> pawn_capture_step(color_index(c), sq as int, t),
{
    let dr: i32 = match c {
        Color::White => 1,
        Color::Black => -1,
    };
    let mut bb: u64 = 0;
    bb = add_offset(bb, sq, 1, dr);
    bb = add_offset(bb, sq, -1, dr);
    proof {
        let a = offset_bb(sq as int, 1, dr as int);
        lemma_or_assoc(a, 0, 0);
        assert forall|t: int| #[trigger] bit(bb, t) <==> pawn_capture_step(
            color_index(c),
            sq as int,
            t,
        ) by {
            lemma_pawn_bb(color_index(c), sq as int, t);
        }
    }
    bb
}

/// Precomputed attack tables: knight and king per square, pawn per colour
/// and square.
pub struct AttackTables {
    pub knight: [Bitboard; 64],
    pub king: [Bitboard; 64],
    pub pawn: [[Bitboard; 64]; 2],
}

/// Builds the attack tables.
pub fn init_attacks() -> (t: AttackTables)
    ensures
        forall|s: int| 0 <= s < 64 ==> #[trigger] t.knight[s] == knight_bb(s),
        forall|s: int| 0 <= s < 64 ==> #[trigger] t.king[s] == king_bb(s),
        forall|c: int, s: int| 0 <= c < 2 && 0 <= s < 64 ==> #[trigger] t.pawn[c][s] == pawn_bb(c, s),
{
    let mut knight = [0u64; 64];
    let mut king = [0u64; 64];
    let mut pawn = [[0u64; 64]; 2];
    for sq in 0..64usize
        invariant
            forall|s: int| 0 <= s < sq ==> #[trigger] knight[s] == knight_bb(s),
            forall|s: int| 0 <= s < sq ==> #[trigger] king[s] == king_bb(s),
            forall|c: int, s: int| 0 <= c < 2 && 0 <= s < sq ==> #[trigger] pawn[c][s] == pawn_bb(c, s),
    {
        knight[sq] = knight_attacks(sq);
        king[sq] = king_attacks(sq);
        pawn[0][sq] = pawn_attacks(Color::White, sq);
        pawn[1][sq] = pawn_attacks(Color::Black, sq);
    }
    AttackTables { knight, king, pawn }
}

// ── Slider attacks (classical fill) ──────────────────────────────────────────

/// Stepping by `dir` onto `n` wrapped around a side of the board.
pub open spec fn wraps(dir: int, n: int) -> bool {
    ((dir == 1 || dir == 9 || dir == -7) && file_of(n) == 0) || ((dir == -1 || dir == -9 || dir == 7)
        && file_of(n) == 7)
}

/// The squares reached from `s` stepping by `dir`, up to and including the
/// first occupied one, stopping at the edge of the board.
pub open spec fn ray_from(s: int, dir: int, occ: u64) -> u64
    decreases (if dir > 0 { 64 - s } else { s + 64 }),
{
    let n = s + dir;
    if dir == 0 || s < 0 || s >= 64 || n < 0 || n >= 64 || wraps(dir, n) {
        0u64
    } else if bit(occ, n) {
        sq_bb(n)
    } else {
        sq_bb(n) | ray_from(n, dir, occ)
    }
}

/// The squares a ray takes from `s` on, stepping by `dir`: each square up to
/// and including the first occupied one; a step of one file that does not
/// land on a neighbouring file ends it before the square, a diagonal step
/// onto an edge file ends it after the square.
pub open spec fn ray_spec(s: int, dir: int, prev_file: int, occ: u64) -> u64
    decreases (if 0 <= s < 64 {
        if dir > 0 {
            64 - s
        } else {
            s + 1
        }
    } else {
        0
    }),
{
    if dir == 0 || s < 0 || s >= 64 {
        0u64
    } else {
        let f = s % 8;
        if (dir == 1 || dir == -1) && absd(f - prev_file) != 1 {
            0u64
        } else if (dir == 9 || dir == -7) && f == 0 {
            sq_bb(s)
        } else if (dir == 7 || dir == -9) && f == 7 {
            sq_bb(s)
        } else if bit(occ, s) {
            sq_bb(s)
        } else {
            sq_bb(s) | ray_spec(s + dir, dir, f, occ)
        }
    }
}

proof fn lemma_or_assoc(a: u64, b: u64, c: u64)
    by (bit_vector)
    ensures
        a | (b | c) == (a | b) | c,
        a | 0 == a,
        0 | a == a,
{
}

/// The squares from `sq` stepping by `dir` up to the first blocker (see
/// `ray_spec`), within `blocker_mask`.
pub fn ray(sq: usize, dir: i32, occ: Bitboard, blocker_mask: Bitboard) -> (r: Bitboard)
    requires
        sq < 64,
        dir != 0,
        dir <= i32::MAX - 64,
    ensures
        r == ray_spec(sq + dir, dir as int, sq as int % 8, occ) & blocker_mask,
{
    let ghost start = sq + dir;
    let mut result = 0u64;
    let mut s = sq as i32 + dir;
    let mut prev_file = (sq % 8) as i32;
    proof {
        lemma_or_assoc(ray_spec(start, dir as int, sq as int % 8, occ), 0, 0);
    }
    loop
        invariant_except_break
            result | ray_spec(s as int, dir as int, prev_file as int, occ) == ray_spec(
                start,
                dir as int,
                sq as int % 8,
                occ,
            ),
        invariant
            dir != 0,
            dir <= i32::MAX - 64,
            0 <= prev_file < 8,
            s <= 63 + dir,
        ensures
            result == ray_spec(start, dir as int, sq as int % 8, occ),
        decreases (if 0 <= s < 64 {
            if dir > 0 {
                64 - s
            } else {
                s + 1
            }
        } else {
            0
        }),
    {
        let ghost cur = s as int;
        let ghost pf = prev_file as int;
        if s < 0 || s >= 64 {
            proof {
                lemma_or_assoc(result, 0, 0);
            }
            break;
        }
        let f = s % 8;
        // Stop wrapping around the board
        let d = f - prev_file;
        let ad = if d < 0 {
            -d
        } else {
            d
        };
        if (dir == 1 || dir == -1) && ad != 1 {
            proof {
                assert(ray_spec(cur, dir as int, pf, occ) == 0u64);
                lemma_or_assoc(result, 0, 0);
            }
            break;
        }
        let bitmask = 1u64 << (s as u64);
        proof {
            lemma_test_bit(occ, s as int);
            lemma_or_assoc(result, bitmask, ray_spec(s + dir, dir as int, f as int, occ));
        }
        if (dir == 9 || dir == -7) && f == 0 {
            result = result | bitmask;
            proof {
                assert(ray_spec(cur, dir as int, pf, occ) == bitmask);
            }
            break;
        }
        if (dir == 7 || dir == -9) && f == 7 {
            result = result | bitmask;
            proof {
                assert(ray_spec(cur, dir as int, pf, occ) == bitmask);
            }
            break;
        }
        result = result | bitmask;
        if occ & bitmask != 0 {
            proof {
                assert(ray_spec(cur, dir as int, pf, occ) == bitmask);
            }
            break;
        }
        proof {
            assert(ray_spec(cur, dir as int, pf, occ) == bitmask | ray_spec(cur + dir, dir as int, f as int, occ));
        }
        prev_file = f;
        s = s + dir;
    }
    result & blocker_mask
}

fn slide_ray(sq: usize, dir: i32, occ: Bitboard) -> (r: Bitboard)
    requires
        sq < 64,
        dir == 8 || dir == -8 || dir == 1 || dir == -1 || dir == 9 || dir == 7 || dir == -9 || dir
            == -7,
    ensures
        r == ray_from(sq as int, dir as int, occ),
{
    let mut result = 0u64;
    let mut s = sq as i32;
    proof {
        lemma_or_assoc(ray_from(sq as int, dir as int, occ), 0, 0);

    }
    loop
        invariant_except_break
            0 <= s < 64,
            result | ray_from(s as int, dir as int, occ) == ray_from(sq as int, dir as int, occ),
        invariant
            dir == 8 || dir == -8 || dir == 1 || dir == -1 || dir == 9 || dir == 7 || dir == -9
                || dir == -7,
        ensures
            result == ray_from(sq as int, dir as int, occ),
        decreases (if dir > 0 { 64 - s } else { s + 64 }),
    {
        let ghost cur = s as int;
        let ghost before = result;
        s = s + dir;
        if s < 0 || s >= 64 {
            proof {
                assert(ray_from(cur, dir as int, occ) == 0u64);
                lemma_or_assoc(result, 0, 0);
            }
            break;
        }
        let f = s % 8;
        // Prevent file wrapping for horizontal/diagonal moves
        if (dir == 1 || dir == 9 || dir == -7) && f == 0 {
            proof {
                assert(ray_from(cur, dir as int, occ) == 0u64);
                lemma_or_assoc(result, 0, 0);
            }
            break;
        }
        if (dir == -1 || dir == -9 || dir == 7) && f == 7 {
            proof {
                assert(ray_from(cur, dir as int, occ) == 0u64);
                lemma_or_assoc(result, 0, 0);
            }
            break;
        }
        let bitmask = 1u64 << (s as u64);
        proof {
            lemma_test_bit(occ, s as int);
            lemma_or_assoc(result, bitmask, ray_from(s as int, dir as int, occ));
        }
        result = result | bitmask;
        if occ & bitmask != 0 {
            proof {
                assert(ray_from(cur, dir as int, occ) == bitmask);
            }
            break;
        }
        proof {
            assert(ray_from(cur, dir as int, occ) == bitmask | ray_from(s as int, dir as int, occ));
        }
    }
    result
}

/// The OR of the rays from `sq` in the directions `dirs`.
pub open spec fn rays(sq: int, occ: u64, dirs: Seq<i32>) -> u64
    decreases dirs.len(),
{
    if dirs.len() == 0 {
        0u64
    } else {
        rays(sq, occ, dirs.drop_last()) | ray_from(sq, dirs.last() as int, occ)
    }
}

pub open spec fn rook_bb(sq: int, occ: u64) -> u64 {
    ray_from(sq, 8, occ) | ray_from(sq, -8, occ) | ray_from(sq, 1, occ) | ray_from(sq, -1, occ)
}

pub open spec fn bishop_bb(sq: int, occ: u64) -> u64 {
    ray_from(sq, 9, occ) | ray_from(sq, 7, occ) | ray_from(sq, -9, occ) | ray_from(sq, -7, occ)
}

pub open spec fn is_slider_dir(d: i32) -> bool {
    d == 8 || d == -8 || d == 1 || d == -1 || d == 9 || d == 7 || d == -9 || d == -7
}

proof fn lemma_rays4(sq: int, occ: u64, d: Seq<i32>)
    requires
        d.len() == 4,
    ensures
        rays(sq, occ, d) == ray_from(sq, d[0] as int, occ) | ray_from(sq, d[1] as int, occ)
            | ray_from(sq, d[2] as int, occ) | ray_from(sq, d[3] as int, occ),
{
    let d3 = d.drop_last();
    let d2 = d3.drop_last();
    let d1 = d2.drop_last();
    let d0 = d1.drop_last();
    assert(d0.len() == 0);
    assert(rays(sq, occ, d0) == 0u64);
    assert(rays(sq, occ, d1) == 0u64 | ray_from(sq, d[0] as int, occ));
    lemma_or_assoc(ray_from(sq, d[0] as int, occ), 0, 0);
    assert(rays(sq, occ, d2) == rays(sq, occ, d1) | ray_from(sq, d[1] as int, occ));
    assert(rays(sq, occ, d3) == rays(sq, occ, d2) | ray_from(sq, d[2] as int, occ));
}

fn sliding_attacks(sq: usize, occ: Bitboard, dirs: &[i32]) -> (r: Bitboard)
    requires
        sq < 64,
        forall|i: int| 0 <= i < dirs@.len() ==> is_slider_dir(#[trigger] dirs@[i]),
    ensures
        r == rays(sq as int, occ, dirs@),
{
    let mut result = 0u64;
    let mut i: usize = 0;
    while i < dirs.len()
        invariant
            i <= dirs@.len(),
            sq < 64,
            forall|j: int| 0 <= j < dirs@.len() ==> is_slider_dir(#[trigger] dirs@[j]),
            result == rays(sq as int, occ, dirs@.take(i as int)),
        decreases dirs@.len() - i,
    {
        let dir = dirs[i];
        assert(dirs@.take(i + 1).drop_last() =~= dirs@.take(i as int));
        result = result | slide_ray(sq, dir, occ);
        i = i + 1;
    }
    assert(dirs@.take(dirs@.len() as int) =~= dirs@);
    result
}

pub fn rook_attacks(sq: usize, occ: Bitboard) -> (r: Bitboard)
    requires
        sq < 64,
    ensures
        r == rook_bb(sq as int, occ),
{
    let dirs: [i32; 4] = [8, -8, 1, -1];
    let r = sliding_attacks(sq, occ, &dirs);
    proof {
        lemma_rays4(sq as int, occ, dirs@);
    }
    r
}

pub fn bishop_attacks(sq: usize, occ: Bitboard) -> (r: Bitboard)
    requires
        sq < 64,
    ensures
        r == bishop_bb(sq as int, occ),
{
    let dirs: [i32; 4] = [9, 7, -9, -7];
    let r = sliding_attacks(sq, occ, &dirs);
    proof {
        lemma_rays4(sq as int, occ, dirs@);
    }
    r
}

} // verus!
