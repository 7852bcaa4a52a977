//! Static evaluation: material, piece-square tables tapered by game phase,
//! pawn structure, mobility, bishop pair, rooks on open files and king
//! safety; and capture ordering values.
use vstd::prelude::*;
use vstd::std_specs::bits::u64_trailing_zeros;
use crate::attacks::{knight_attacks, bishop_attacks, rook_attacks, knight_bb, bishop_bb, rook_bb, king_bb, pawn_bb};
use crate::bits::{
    bit, popcount, bb_sum, count_ones, lemma_lowest, lemma_bb_sum_pop, lemma_bb_sum_zero,
    lemma_bb_sum_bounds, lemma_popcount_bound, lemma_count_pop,
};
use crate::board::{Board, piece_at};
use crate::types::{Color, Move, Piece, color_index, piece_index};

verus! {

pub const INF: i32 = 1_000_000;

pub const MATE_SCORE: i32 = 900_000;

pub const TEMPO: i32 = 10;

pub const PIECE_VALUE: [i32; 6] = [100, 320, 330, 500, 900, 20000];

// Phase weights: max phase = 24
// pawn=0, knight=1, bishop=1, rook=2, queen=4, king=0
pub const PHASE_WEIGHTS: [i32; 6] = [0, 1, 1, 2, 4, 0];

pub const FILE_A: u64 = 0x0101010101010101;

// ── Piece-square tables (indexed by square, White's view) ─────────────────────

pub const PST_PAWN_MG: [i32; 64] = [
     0,  0,  0,  0,  0,  0,  0,  0,
    50, 50, 50, 50, 50, 50, 50, 50,
    10, 10, 20, 30, 30, 20, 10, 10,
     5,  5, 10, 25, 25, 10,  5,  5,
     0,  0,  0, 20, 20,  0,  0,  0,
     5, -5,-10,  0,  0,-10, -5,  5,
     5, 10, 10,-20,-20, 10, 10,  5,
     0,  0,  0,  0,  0,  0,  0,  0,
];

pub const PST_PAWN_EG: [i32; 64] = [
     0,  0,  0,  0,  0,  0,  0,  0,
    80, 80, 80, 80, 80, 80, 80, 80,
    50, 52, 54, 54, 54, 54, 52, 50,
    30, 32, 34, 34, 34, 34, 32, 30,
    20, 22, 24, 24, 24, 24, 22, 20,
    10, 11, 12, 12, 12, 12, 11, 10,
     5,  5,  5,  5,  5,  5,  5,  5,
     0,  0,  0,  0,  0,  0,  0,  0,
];

pub const PST_KNIGHT_MG: [i32; 64] = [
    -50,-40,-30,-30,-30,-30,-40,-50,
    -40,-20,  0,  0,  0,  0,-20,-40,
    -30,  0, 10, 15, 15, 10,  0,-30,
    -30,  5, 15, 20, 20, 15,  5,-30,
    -30,  0, 15, 20, 20, 15,  0,-30,
    -30,  5, 10, 15, 15, 10,  5,-30,
    -40,-20,  0,  5,  5,  0,-20,-40,
    -50,-40,-30,-30,-30,-30,-40,-50,
];

pub const PST_KNIGHT_EG: [i32; 64] = [
    -60,-50,-40,-40,-40,-40,-50,-60,
    -50,-30, -5, -5, -5, -5,-30,-50,
    -40, -5, 10, 15, 15, 10, -5,-40,
    -40,  0, 15, 20, 20, 15,  0,-40,
    -40, -5, 15, 20, 20, 15, -5,-40,
    -40,  0, 10, 15, 15, 10,  0,-40,
    -50,-30, -5,  0,  0, -5,-30,-50,
    -60,-50,-40,-40,-40,-40,-50,-60,
];

pub const PST_BISHOP_MG: [i32; 64] = [
    -20,-10,-10,-10,-10,-10,-10,-20,
    -10,  0,  0,  0,  0,  0,  0,-10,
    -10,  0,  5, 10, 10,  5,  0,-10,
    -10,  5,  5, 10, 10,  5,  5,-10,
    -10,  0, 10, 10, 10, 10,  0,-10,
    -10, 10, 10, 10, 10, 10, 10,-10,
    -10,  5,  0,  0,  0,  0,  5,-10,
    -20,-10,-10,-10,-10,-10,-10,-20,
];

pub const PST_BISHOP_EG: [i32; 64] = [
    -20,-10,-10,-10,-10,-10,-10,-20,
    -10,  5,  5,  5,  5,  5,  5,-10,
    -10,  5, 12, 12, 12, 12,  5,-10,
    -10,  5, 12, 16, 16, 12,  5,-10,
    -10,  5, 12, 16, 16, 12,  5,-10,
    -10,  5, 12, 12, 12, 12,  5,-10,
    -10,  5,  5,  5,  5,  5,  5,-10,
    -20,-10,-10,-10,-10,-10,-10,-20,
];

pub const PST_ROOK_MG: [i32; 64] = [
     0,  0,  0,  0,  0,  0,  0,  0,
     5, 10, 10, 10, 10, 10, 10,  5,
    -5,  0,  0,  0,  0,  0,  0, -5,
    -5,  0,  0,  0,  0,  0,  0, -5,
    -5,  0,  0,  0,  0,  0,  0, -5,
    -5,  0,  0,  0,  0,  0,  0, -5,
    -5,  0,  0,  0,  0,  0,  0, -5,
     0,  0,  0,  5,  5,  0,  0,  0,
];

pub const PST_ROOK_EG: [i32; 64] = [
     5,  5,  5,  5,  5,  5,  5,  5,
    10, 12, 12, 12, 12, 12, 12, 10,
     0,  2,  2,  2,  2,  2,  2,  0,
     0,  2,  2,  2,  2,  2,  2,  0,
     0,  2,  2,  2,  2,  2,  2,  0,
     0,  2,  2,  2,  2,  2,  2,  0,
     0,  2,  2,  2,  2,  2,  2,  0,
     5,  5,  5,  8,  8,  5,  5,  5,
];

pub const PST_QUEEN_MG: [i32; 64] = [
    -20,-10,-10, -5, -5,-10,-10,-20,
    -10,  0,  0,  0,  0,  0,  0,-10,
    -10,  0,  5,  5,  5,  5,  0,-10,
     -5,  0,  5,  5,  5,  5,  0, -5,
      0,  0,  5,  5,  5,  5,  0, -5,
    -10,  5,  5,  5,  5,  5,  0,-10,
    -10,  0,  5,  0,  0,  0,  0,-10,
    -20,-10,-10, -5, -5,-10,-10,-20,
];

pub const PST_QUEEN_EG: [i32; 64] = [
    -20,-10,-10, -5, -5,-10,-10,-20,
    -10,  0,  5,  5,  5,  5,  0,-10,
    -10,  5,  5,  5,  5,  5,  0,-10,
     -5,  0,  5,  5,  5,  5,  0, -5,
      0,  0,  5,  5,  5,  5,  0, -5,
    -10,  5,  5,  5,  5,  5,  0,-10,
    -10,  0,  5,  5,  5,  0,  0,-10,
    -20,-10,-10, -5, -5,-10,-10,-20,
];

pub const PST_KING_MG: [i32; 64] = [
    -30,-40,-40,-50,-50,-40,-40,-30,
    -30,-40,-40,-50,-50,-40,-40,-30,
    -30,-40,-40,-50,-50,-40,-40,-30,
    -30,-40,-40,-50,-50,-40,-40,-30,
    -20,-30,-30,-40,-40,-30,-30,-20,
    -10,-20,-20,-20,-20,-20,-20,-10,
     20, 20,  0,  0,  0,  0, 20, 20,
     20, 30, 10,  0,  0, 10, 30, 20,
];

pub const PST_KING_EG: [i32; 64] = [
    -50,-40,-30,-20,-20,-30,-40,-50,
    -30,-20,-10,  0,  0,-10,-20,-30,
    -30,-10, 20, 30, 30, 20,-10,-30,
    -30,-10, 30, 40, 40, 30,-10,-30,
    -30,-10, 30, 40, 40, 30,-10,-30,
    -30,-10, 20, 30, 30, 20,-10,-30,
    -30,-30,  0,  0,  0,  0,-30,-30,
    -50,-30,-30,-30,-30,-30,-30,-50,
];

/// Piece-square value of piece index `p` on square `sq`, middlegame or
/// endgame table.
pub open spec fn pst(mg: bool, p: int, sq: int) -> i32 {
    if mg {
        if p == 0 {
            PST_PAWN_MG[sq]
        } else if p == 1 {
            PST_KNIGHT_MG[sq]
        } else if p == 2 {
            PST_BISHOP_MG[sq]
        } else if p == 3 {
            PST_ROOK_MG[sq]
        } else if p == 4 {
            PST_QUEEN_MG[sq]
        } else {
            PST_KING_MG[sq]
        }
    } else {
        if p == 0 {
            PST_PAWN_EG[sq]
        } else if p == 1 {
            PST_KNIGHT_EG[sq]
        } else if p == 2 {
            PST_BISHOP_EG[sq]
        } else if p == 3 {
            PST_ROOK_EG[sq]
        } else if p == 4 {
            PST_QUEEN_EG[sq]
        } else {
            PST_KING_EG[sq]
        }
    }
}

proof fn lemma_pst_bounds(mg: bool, p: int, sq: int)
    requires
        0 <= p < 6,
        0 <= sq < 64,
    ensures
        -100 <= pst(mg, p, sq) <= 100,
{
    assert(forall|i: int| 0 <= i < 64 ==> -100 <= #[trigger] PST_PAWN_MG[i] <= 100);
    assert(forall|i: int| 0 <= i < 64 ==> -100 <= #[trigger] PST_PAWN_EG[i] <= 100);
    assert(forall|i: int| 0 <= i < 64 ==> -100 <= #[trigger] PST_KNIGHT_MG[i] <= 100);
    assert(forall|i: int| 0 <= i < 64 ==> -100 <= #[trigger] PST_KNIGHT_EG[i] <= 100);
    assert(forall|i: int| 0 <= i < 64 ==> -100 <= #[trigger] PST_BISHOP_MG[i] <= 100);
    assert(forall|i: int| 0 <= i < 64 ==> -100 <= #[trigger] PST_BISHOP_EG[i] <= 100);
    assert(forall|i: int| 0 <= i < 64 ==> -100 <= #[trigger] PST_ROOK_MG[i] <= 100);
    assert(forall|i: int| 0 <= i < 64 ==> -100 <= #[trigger] PST_ROOK_EG[i] <= 100);
    assert(forall|i: int| 0 <= i < 64 ==> -100 <= #[trigger] PST_QUEEN_MG[i] <= 100);
    assert(forall|i: int| 0 <= i < 64 ==> -100 <= #[trigger] PST_QUEEN_EG[i] <= 100);
    assert(forall|i: int| 0 <= i < 64 ==> -100 <= #[trigger] PST_KING_MG[i] <= 100);
    assert(forall|i: int| 0 <= i < 64 ==> -100 <= #[trigger] PST_KING_EG[i] <= 100);
}

fn pst_at(mg: bool, p: usize, sq: usize) -> (r: i32)
    requires
        p < 6,
        sq < 64,
    ensures
        r == pst(mg, p as int, sq as int),
        -100 <= r <= 100,
{
    proof {
        lemma_pst_bounds(mg, p as int, sq as int);
    }
    if mg {
        match p {
            0 => PST_PAWN_MG[sq],
            1 => PST_KNIGHT_MG[sq],
            2 => PST_BISHOP_MG[sq],
            3 => PST_ROOK_MG[sq],
            4 => PST_QUEEN_MG[sq],
            _ => PST_KING_MG[sq],
        }
    } else {
        match p {
            0 => PST_PAWN_EG[sq],
            1 => PST_KNIGHT_EG[sq],
            2 => PST_BISHOP_EG[sq],
            3 => PST_ROOK_EG[sq],
            4 => PST_QUEEN_EG[sq],
            _ => PST_KING_EG[sq],
        }
    }
}

/// The table square of `s` for colour index `c`: Black's squares are
/// mirrored rank-wise.
pub open spec fn table_sq(c: int, s: int) -> int {
    if c == 0 {
        s
    } else {
        ((s as usize) ^ 56usize) as int
    }
}

proof fn lemma_mirror(s: usize)
    by (bit_vector)
    requires
        s < 64,
    ensures
        s ^ 56usize < 64,
{
}

// ── Game phase ────────────────────────────────────────────────────────────────

/// The phase weights of all pieces on the board, bitboards `[0][0]` to
/// `[c][p]` exclusive in colour-then-piece order (`k = 6 * c + p`).
pub open spec fn phase_sum(b: Board, k: int) -> int
    decreases k,
{
    if k <= 0 {
        0
    } else {
        phase_sum(b, k - 1) + popcount(b.pieces[(k - 1) / 6][(k - 1) % 6]) * PHASE_WEIGHTS[(k - 1) % 6]
    }
}

/// The game phase: 24 with all the pieces on, down to 0 with only kings and
/// pawns.
pub open spec fn game_phase_spec(b: Board) -> int {
    if phase_sum(b, 12) < 24 {
        phase_sum(b, 12)
    } else {
        24
    }
}

proof fn lemma_phase_sum_bounds(b: Board, k: int)
    requires
        0 <= k <= 12,
    ensures
        0 <= phase_sum(b, k) <= 256 * k,
    decreases k,
{
    if k > 0 {
        lemma_phase_sum_bounds(b, k - 1);
        lemma_popcount_bound(b.pieces[(k - 1) / 6][(k - 1) % 6]);
        let w = PHASE_WEIGHTS[(k - 1) % 6];
        assert(0 <= w <= 4);
        let n = popcount(b.pieces[(k - 1) / 6][(k - 1) % 6]);
        assert(0 <= n * w <= 256) by (nonlinear_arith)
            requires
                0 <= n <= 64,
                0 <= w <= 4,
        ;
    }
}

fn game_phase(board: &Board) -> (r: i32)
    ensures
        r == game_phase_spec(*board),
        0 <= r <= 24,
{
    let mut phase = 0i32;
    for c in 0..2usize
        invariant
            phase == phase_sum(*board, 6 * c as int),
    {
        for p in 0..6usize
            invariant
                c < 2,
                phase == phase_sum(*board, 6 * c + p),
        {
            proof {
                lemma_phase_sum_bounds(*board, 6 * c + p + 1);
                assert((6 * c + p + 1 - 1) / 6 == c && (6 * c + p + 1 - 1) % 6 == p);
            }
            let n = count_ones(board.pieces[c][p]);
            let w = PHASE_WEIGHTS[p];
            proof {
                lemma_popcount_bound(board.pieces[c as int][p as int]);
                assert(forall|i: int| 0 <= i < 6 ==> 0 <= #[trigger] PHASE_WEIGHTS[i] <= 4);
                assert(0 <= (n as int) * (w as int) <= 256) by (nonlinear_arith)
                    requires
                        0 <= n <= 64,
                        0 <= w <= 4,
                ;
            }
            phase = phase + n as i32 * w;
        }
    }
    proof {
        lemma_phase_sum_bounds(*board, 12);
    }
    if phase < 24 {
        phase
    } else {
        24
    }
}


// ── Material and piece-square values ──────────────────────────────────────────

/// Value of a piece of colour index `c` and piece index `p` on square `s`.
pub open spec fn mat_term(mg: bool, c: int, p: int) -> spec_fn(int) -> int {
    |s: int| PIECE_VALUE[p] + pst(mg, p, table_sq(c, s))
}

/// Material and piece-square value of the first `np` bitboards of colour
/// index `c`.
pub open spec fn material_spec(b: Board, c: int, mg: bool, np: int) -> int
    decreases np,
{
    if np <= 0 {
        0
    } else {
        material_spec(b, c, mg, np - 1) + bb_sum(b.pieces[c][np - 1], mat_term(mg, c, np - 1), 64)
    }
}

proof fn lemma_mat_term_bounds(mg: bool, c: int, p: int)
    requires
        0 <= c < 2,
        0 <= p < 6,
    ensures
        forall|s: int| 0 <= s < 64 ==> 0 <= #[trigger] mat_term(mg, c, p)(s) <= 20100,
{
    assert(forall|i: int| 0 <= i < 6 ==> 100 <= #[trigger] PIECE_VALUE[i] <= 20000);
    assert forall|s: int| 0 <= s < 64 implies 0 <= #[trigger] mat_term(mg, c, p)(s) <= 20100 by {
        if c == 1 {
            lemma_mirror(s as usize);
        }
        lemma_pst_bounds(mg, p, table_sq(c, s));
    }
}

proof fn lemma_material_bounds(b: Board, c: int, mg: bool, np: int)
    requires
        0 <= c < 2,
        0 <= np <= 6,
    ensures
        0 <= material_spec(b, c, mg, np) <= np * 1_286_400,
    decreases np,
{
    if np > 0 {
        lemma_material_bounds(b, c, mg, np - 1);
        lemma_mat_term_bounds(mg, c, np - 1);
        lemma_bb_sum_bounds(b.pieces[c][np - 1], mat_term(mg, c, np - 1), 64, 0, 20100);
    }
}

/// A sum over a bitboard gains the term of a square added to it.
proof fn lemma_bb_sum_add(x: u64, s: int, f: spec_fn(int) -> int, n: int)
    requires
        0 <= s < 64,
        !bit(x, s),
        0 <= n <= 64,
    ensures
        bb_sum(x | crate::bits::sq_bb(s), f, n) == bb_sum(x, f, n) + (if s < n { f(s) } else { 0 }),
    decreases n,
{
    if n > 0 {
        lemma_bb_sum_add(x, s, f, n - 1);
        crate::bits::lemma_bit_or(x, crate::bits::sq_bb(s), n - 1);
        crate::bits::lemma_bit_sq_bb(s, n - 1);
    }
}

proof fn lemma_material_add(b: Board, b2: Board, c: int, p: int, s: int, mg: bool, np: int)
    requires
        0 <= c < 2,
        0 <= p < 6,
        0 <= s < 64,
        0 <= np <= 6,
        !bit(b.pieces[c][p], s),
        b2.pieces[c][p] == b.pieces[c][p] | crate::bits::sq_bb(s),
        forall|q: int| 0 <= q < 6 && q != p ==> b2.pieces[c][q] == b.pieces[c][q],
    ensures
        material_spec(b2, c, mg, np) == material_spec(b, c, mg, np) + (if p < np {
            PIECE_VALUE[p] + pst(mg, p, table_sq(c, s))
        } else {
            0
        }),
    decreases np,
{
    if np > 0 {
        lemma_material_add(b, b2, c, p, s, mg, np - 1);
        if np - 1 == p {
            lemma_bb_sum_add(b.pieces[c][p], s, mat_term(mg, c, p), 64);
        }
    }
}

/// A piece counts its own value: adding a piece of kind `p` on square `s` to
/// one side, the rest of its pieces unchanged, raises that side's material
/// by `PIECE_VALUE[p]` plus the piece's table value on `s`.
pub proof fn lemma_material_add_piece(b: Board, b2: Board, c: int, p: int, s: int, mg: bool)
    requires
        0 <= c < 2,
        0 <= p < 6,
        0 <= s < 64,
        !bit(b.pieces[c][p], s),
        b2.pieces[c][p] == b.pieces[c][p] | crate::bits::sq_bb(s),
        forall|q: int| 0 <= q < 6 && q != p ==> b2.pieces[c][q] == b.pieces[c][q],
    ensures
        material_spec(b2, c, mg, 6) == material_spec(b, c, mg, 6) + PIECE_VALUE[p] + pst(mg, p, table_sq(c, s)),
{
    lemma_material_add(b, b2, c, p, s, mg, 6);
}

/// Material and piece-square value of one side.
fn material(board: &Board, c: usize, mg: bool) -> (r: i32)
    requires
        c < 2,
    ensures
        r == material_spec(*board, c as int, mg, 6),
        0 <= r <= 7_718_400,
{
    let mut total: i32 = 0;
    for p in 0..6usize
        invariant
            c < 2,
            total == material_spec(*board, c as int, mg, p as int),
            0 <= total <= p * 1_286_400,
    {
        let ghost f = mat_term(mg, c as int, p as int);
        let ghost orig = board.pieces[c as int][p as int];
        let mut bb = board.pieces[c][p];
        proof {
            lemma_mat_term_bounds(mg, c as int, p as int);
            lemma_bb_sum_bounds(orig, f, 64, 0, 20100);
        }
        let ghost base = total;
        while bb != 0
            invariant
                c < 2,
                p < 6,
                f == mat_term(mg, c as int, p as int),
                forall|s: int| 0 <= s < 64 ==> 0 <= #[trigger] f(s) <= 20100,
                0 <= base <= p * 1_286_400,
                0 <= bb_sum(orig, f, 64) <= 1_286_400,
                total + bb_sum(bb, f, 64) == base + bb_sum(orig, f, 64),
            decreases popcount(bb),
        {
            proof {
                lemma_lowest(bb);
                lemma_bb_sum_pop(bb, f);
                lemma_count_pop(bb);
                lemma_bb_sum_bounds(bb & ((bb - 1) as u64), f, 64, 0, 20100);
            }
            let sq = bb.trailing_zeros() as usize;
            let tsq = if c == 0 {
                sq
            } else {
                proof {
                    lemma_mirror(sq);
                }
                sq ^ 56
            };
            let v = PIECE_VALUE[p] + pst_at(mg, p, tsq);
            total = total + v;
            bb = bb & (bb - 1);
        }
        proof {
            lemma_bb_sum_zero(f, 64);
        }
    }
    total
}


// ── Pawn structure ────────────────────────────────────────────────────────────

pub const PASSED_PAWN_BONUS: [i32; 8] = [0, 5, 10, 20, 35, 60, 100, 0];

pub const DOUBLED_PAWN_PENALTY: i32 = 20;

pub const ISOLATED_PAWN_PENALTY: i32 = 15;

/// The squares of file `f`.
pub open spec fn file_mask(f: int) -> u64 {
    FILE_A << (f as u64)
}

/// The squares of the files beside file `f`.
pub open spec fn adj_files(f: int) -> u64 {
    (if f > 0 {
        FILE_A << ((f - 1) as u64)
    } else {
        0u64
    }) | (if f < 7 {
        FILE_A << ((f + 1) as u64)
    } else {
        0u64
    })
}

/// The penalty for the pawns on file `f` beyond the first.
pub open spec fn doubled_term(pawns: u64, f: int) -> int {
    let n = popcount(pawns & file_mask(f));
    if n > 1 {
        -20 * (n - 1)
    } else {
        0
    }
}

pub open spec fn doubled_sum(pawns: u64, n: int) -> int
    decreases n,
{
    if n <= 0 {
        0
    } else {
        doubled_sum(pawns, n - 1) + doubled_term(pawns, n - 1)
    }
}

/// The squares in front of a pawn of colour index `us` on `sq`, on its file
/// and the files beside it: a pawn there can stop it.
pub open spec fn passed_mask_spec(us: int, sq: int) -> u64 {
    let file = sq % 8;
    let rank = sq / 8;
    let adj = (FILE_A << (file as u64)) | (if file > 0 {
        FILE_A << ((file - 1) as u64)
    } else {
        0u64
    }) | (if file < 7 {
        FILE_A << ((file + 1) as u64)
    } else {
        0u64
    });
    if us == 0 {
        if rank >= 7 {
            0u64
        } else {
            adj & (0xFFFF_FFFF_FFFF_FFFFu64 << (((rank + 1) * 8) as u64))
        }
    } else {
        if rank == 0 {
            0u64
        } else {
            adj & (((1u64 << ((rank * 8) as u64)) - 1) as u64)
        }
    }
}

pub fn passed_pawn_mask(us: usize, sq: usize) -> (r: u64)
    requires
        sq < 64,
    ensures
        r == passed_mask_spec(us as int, sq as int),
{
    let file = sq % 8;
    let rank = sq / 8;
    let adj = (FILE_A << file) | (if file > 0 {
        FILE_A << (file - 1)
    } else {
        0
    }) | (if file < 7 {
        FILE_A << (file + 1)
    } else {
        0
    });
    if us == 0 {
        if rank >= 7 {
            0
        } else {
            adj & (u64::MAX << ((rank + 1) * 8))
        }
    } else {
        if rank == 0 {
            0
        } else {
            let shift = rank * 8;
            assert(1u64 << shift >= 1) by (bit_vector)
                requires
                    shift < 64,
            ;
            adj & ((1u64 << shift) - 1)
        }
    }
}

/// The bonus of a passed pawn by how far it has advanced.
pub open spec fn passed_bonus(us: int, s: int) -> int {
    let rank = s / 8;
    let adv = if us == 0 {
        rank
    } else {
        7 - rank
    };
    PASSED_PAWN_BONUS[if adv < 7 { adv } else { 7 }] as int
}

/// The isolated-pawn penalty and passed-pawn bonus of a pawn of colour index
/// `us` on `s`.
pub open spec fn pawn_term(b: Board, us: int) -> spec_fn(int) -> int {
    |s: int|
        (if b.pieces[us][0] & adj_files(s % 8) == 0 {
            -15int
        } else {
            0int
        }) + (if b.pieces[1 - us][0] & passed_mask_spec(us, s) == 0 {
            passed_bonus(us, s)
        } else {
            0int
        })
}

pub open spec fn pawn_structure_spec(b: Board, us: int) -> int {
    doubled_sum(b.pieces[us][0], 8) + bb_sum(b.pieces[us][0], pawn_term(b, us), 64)
}

proof fn lemma_doubled_bounds(pawns: u64, n: int)
    requires
        0 <= n <= 8,
    ensures
        -1260 * n <= doubled_sum(pawns, n) <= 0,
    decreases n,
{
    if n > 0 {
        lemma_doubled_bounds(pawns, n - 1);
        lemma_popcount_bound(pawns & file_mask(n - 1));
    }
}

proof fn lemma_pawn_term_bounds(b: Board, us: int)
    ensures
        forall|s: int| 0 <= s < 64 ==> -15 <= #[trigger] pawn_term(b, us)(s) <= 100,
{
    assert(forall|i: int| 0 <= i < 8 ==> 0 <= #[trigger] PASSED_PAWN_BONUS[i] <= 100);
    assert forall|s: int| 0 <= s < 64 implies -15 <= #[trigger] pawn_term(b, us)(s) <= 100 by {
        let rank = s / 8;
        let adv = if us == 0 {
            rank
        } else {
            7 - rank
        };
        assert(0 <= (if adv < 7 { adv } else { 7 }) < 8);
    }
}

fn pawn_structure(board: &Board, us: usize) -> (r: i32)
    requires
        us < 2,
    ensures
        r == pawn_structure_spec(*board, us as int),
        -11_040 <= r <= 6400,
{
    let them = 1 - us;
    let our_pawns = board.pieces[us][0];
    let their_pawns = board.pieces[them][0];
    let mut score = 0i32;

    // Doubled pawns
    for file in 0..8usize
        invariant
            score == doubled_sum(our_pawns, file as int),
            -1260 * file <= score <= 0,
    {
        let file_mask = FILE_A << file;
        let count = count_ones(our_pawns & file_mask);
        proof {
            lemma_popcount_bound(our_pawns & file_mask);
        }
        if count > 1 {
            score = score - DOUBLED_PAWN_PENALTY * (count - 1) as i32;
        }
    }

    let ghost f = pawn_term(*board, us as int);
    let ghost dsum = score;
    proof {
        lemma_pawn_term_bounds(*board, us as int);
        lemma_bb_sum_bounds(our_pawns, f, 64, -15, 100);
    }
    let mut p = our_pawns;
    while p != 0
        invariant
            us < 2,
            them == 1 - us,
            our_pawns == board.pieces[us as int][0],
            their_pawns == board.pieces[them as int][0],
            f == pawn_term(*board, us as int),
            forall|s: int| 0 <= s < 64 ==> -15 <= #[trigger] f(s) <= 100,
            -10080 <= dsum <= 0,
            -960 <= bb_sum(our_pawns, f, 64) <= 6400,
            score + bb_sum(p, f, 64) == dsum + bb_sum(our_pawns, f, 64),
        decreases popcount(p),
    {
        proof {
            lemma_lowest(p);
            lemma_bb_sum_pop(p, f);
            lemma_count_pop(p);
            lemma_bb_sum_bounds(p & ((p - 1) as u64), f, 64, -15, 100);
        }
        let sq = p.trailing_zeros() as usize;
        let file = sq % 8;
        let ghost before = score;

        // Isolated pawn
        let adj_files = (if file > 0 {
            FILE_A << (file - 1)
        } else {
            0
        }) | (if file < 7 {
            FILE_A << (file + 1)
        } else {
            0
        });
        if our_pawns & adj_files == 0 {
            score = score - ISOLATED_PAWN_PENALTY;
        }

        // Passed pawn
        if their_pawns & passed_pawn_mask(us, sq) == 0 {
            let rank = sq / 8;
            let advance = if us == 0 {
                rank
            } else {
                7 - rank
            };
            let idx = if advance < 7 {
                advance
            } else {
                7
            };
            score = score + PASSED_PAWN_BONUS[idx];
        }
        proof {
            assert(score == before + f(sq as int));
        }
        p = p & (p - 1);
    }
    proof {
        lemma_bb_sum_zero(f, 64);
    }
    score
}

// ── Mobility ──────────────────────────────────────────────────────────────────

/// Mobility of a piece on `s`: its attacked squares not holding a piece of
/// its own side, weighted per piece kind.
pub open spec fn mob_term(kind: int, occ: u64, own: u64) -> spec_fn(int) -> int {
    |s: int|
        if kind == 1 {
            popcount(knight_bb(s) & !own) * 4int
        } else if kind == 2 {
            popcount(bishop_bb(s, occ) & !own) * 3int
        } else {
            popcount(rook_bb(s, occ) & !own) * 2int
        }
}

pub open spec fn mobility_spec(b: Board, us: int) -> int {
    let own = b.occ[us];
    let occ = b.all;
    bb_sum(b.pieces[us][1], mob_term(1, occ, own), 64) + bb_sum(
        b.pieces[us][2],
        mob_term(2, occ, own),
        64,
    ) + bb_sum(b.pieces[us][3], mob_term(3, occ, own), 64)
}

proof fn lemma_mob_term_bounds(kind: int, occ: u64, own: u64)
    ensures
        forall|s: int| 0 <= s < 64 ==> 0 <= #[trigger] mob_term(kind, occ, own)(s) <= 256,
{
    assert forall|s: int| 0 <= s < 64 implies 0 <= #[trigger] mob_term(kind, occ, own)(s) <= 256 by {
        lemma_popcount_bound(knight_bb(s) & !own);
        lemma_popcount_bound(bishop_bb(s, occ) & !own);
        lemma_popcount_bound(rook_bb(s, occ) & !own);
    }
}

/// Mobility sum of the pieces of one kind (1 knight, 2 bishop, 3 rook).
fn mobility_of(bb_in: u64, kind: usize, occ: u64, own: u64) -> (r: i32)
    ensures
        r == bb_sum(bb_in, mob_term(kind as int, occ, own), 64),
        0 <= r <= 16384,
{
    let ghost f = mob_term(kind as int, occ, own);
    proof {
        lemma_mob_term_bounds(kind as int, occ, own);
        lemma_bb_sum_bounds(bb_in, f, 64, 0, 256);
    }
    let mut score = 0i32;
    let mut bb = bb_in;
    while bb != 0
        invariant
            f == mob_term(kind as int, occ, own),
            forall|s: int| 0 <= s < 64 ==> 0 <= #[trigger] f(s) <= 256,
            0 <= bb_sum(bb_in, f, 64) <= 16384,
            score + bb_sum(bb, f, 64) == bb_sum(bb_in, f, 64),
        decreases popcount(bb),
    {
        proof {
            lemma_lowest(bb);
            lemma_bb_sum_pop(bb, f);
            lemma_count_pop(bb);
            lemma_bb_sum_bounds(bb & ((bb - 1) as u64), f, 64, 0, 256);
        }
        let sq = bb.trailing_zeros() as usize;
        let att = if kind == 1 {
            knight_attacks(sq)
        } else if kind == 2 {
            bishop_attacks(sq, occ)
        } else {
            rook_attacks(sq, occ)
        };
        let n = count_ones(att & !own);
        proof {
            lemma_popcount_bound(att & !own);
        }
        let w: i32 = if kind == 1 {
            4
        } else if kind == 2 {
            3
        } else {
            2
        };
        score = score + n as i32 * w;
        bb = bb & (bb - 1);
    }
    proof {
        lemma_bb_sum_zero(f, 64);
    }
    score
}

fn mobility_score(board: &Board, us: usize) -> (r: i32)
    requires
        us < 2,
    ensures
        r == mobility_spec(*board, us as int),
        0 <= r <= 49152,
{
    let our_occ = board.occ[us];
    let occ = board.all;
    let k = mobility_of(board.pieces[us][1], 1, occ, our_occ);
    let b = mobility_of(board.pieces[us][2], 2, occ, our_occ);
    let r = mobility_of(board.pieces[us][3], 3, occ, our_occ);
    k + b + r
}

// ── Bishop pair ───────────────────────────────────────────────────────────────

pub open spec fn bishop_pair_spec(b: Board, us: int) -> int {
    if popcount(b.pieces[us][2]) >= 2 {
        30
    } else {
        0
    }
}

fn bishop_pair(board: &Board, us: usize) -> (r: i32)
    requires
        us < 2,
    ensures
        r == bishop_pair_spec(*board, us as int),
{
    if count_ones(board.pieces[us][2]) >= 2 {
        30
    } else {
        0
    }
}

// ── Rook on open / semi-open files ────────────────────────────────────────────

pub const ROOK_OPEN_FILE_BONUS: i32 = 25;

pub const ROOK_SEMI_OPEN_BONUS: i32 = 12;

/// A rook on `s` earns a bonus when its file holds no pawn of its side: more
/// when it holds no pawn at all.
pub open spec fn rook_term(b: Board, us: int) -> spec_fn(int) -> int {
    |s: int|
        if b.pieces[us][0] & file_mask(s % 8) == 0 {
            if b.pieces[1 - us][0] & file_mask(s % 8) == 0 {
                25int
            } else {
                12int
            }
        } else {
            0int
        }
}

pub open spec fn rook_files_spec(b: Board, us: int) -> int {
    bb_sum(b.pieces[us][3], rook_term(b, us), 64)
}

fn rook_open_files(board: &Board, us: usize) -> (r: i32)
    requires
        us < 2,
    ensures
        r == rook_files_spec(*board, us as int),
        0 <= r <= 1600,
{
    let them = 1 - us;
    let our_pawns = board.pieces[us][0];
    let their_pawns = board.pieces[them][0];
    let mut score = 0i32;
    let ghost f = rook_term(*board, us as int);
    let ghost orig = board.pieces[us as int][3];
    proof {
        lemma_bb_sum_bounds(orig, f, 64, 0, 25);
    }
    let mut rooks = board.pieces[us][3];
    while rooks != 0
        invariant
            us < 2,
            them == 1 - us,
            our_pawns == board.pieces[us as int][0],
            their_pawns == board.pieces[them as int][0],
            f == rook_term(*board, us as int),
            0 <= bb_sum(orig, f, 64) <= 1600,
            score + bb_sum(rooks, f, 64) == bb_sum(orig, f, 64),
        decreases popcount(rooks),
    {
        proof {
            lemma_lowest(rooks);
            lemma_bb_sum_pop(rooks, f);
            lemma_count_pop(rooks);
            lemma_bb_sum_bounds(rooks & ((rooks - 1) as u64), f, 64, 0, 25);
        }
        let sq = rooks.trailing_zeros() as usize;
        let file_mask = FILE_A << (sq % 8);
        if our_pawns & file_mask == 0 {
            if their_pawns & file_mask == 0 {
                score = score + ROOK_OPEN_FILE_BONUS;
            } else {
                score = score + ROOK_SEMI_OPEN_BONUS;
            }
        }
        rooks = rooks & (rooks - 1);
    }
    proof {
        lemma_bb_sum_zero(f, 64);
    }
    score
}

// ── King safety ───────────────────────────────────────────────────────────────

/// The pawn shield of a king on file `kf`: its own file and the files beside.
pub open spec fn shield_files(kf: int) -> u64 {
    (FILE_A << (kf as u64)) | (if kf > 0 {
        FILE_A << ((kf - 1) as u64)
    } else {
        0u64
    }) | (if kf < 7 {
        FILE_A << ((kf + 1) as u64)
    } else {
        0u64
    })
}

/// King safety, counted while the opponent keeps a queen or a rook: ten per
/// pawn of the shield on the rank in front of the king, less twenty when the
/// king's file has no pawn of its side. The king on the lowest square counts.
pub open spec fn king_safety_spec(b: Board, us: int) -> int {
    let them = 1 - us;
    let kb = b.pieces[us][5];
    if b.pieces[them][4] == 0 && b.pieces[them][3] == 0 {
        0
    } else if kb == 0 {
        0
    } else {
        let ksq = u64_trailing_zeros(kb) as int;
        let kf = ksq % 8;
        let kr = ksq / 8;
        let sr = if us == 0 {
            kr + 1
        } else {
            kr - 1
        };
        let our_pawns = b.pieces[us][0];
        (if 0 <= sr < 8 {
            popcount(our_pawns & shield_files(kf) & (0xFFu64 << ((sr * 8) as u64))) * 10
        } else {
            0
        }) + (if our_pawns & (FILE_A << (kf as u64)) == 0 {
            -20int
        } else {
            0int
        })
    }
}

fn king_safety(board: &Board, us: usize) -> (r: i32)
    requires
        us < 2,
    ensures
        r == king_safety_spec(*board, us as int),
        -20 <= r <= 640,
{
    let them = 1 - us;
    if board.pieces[them][4] == 0 && board.pieces[them][3] == 0 {
        return 0;
    }
    let king_bb = board.pieces[us][5];
    if king_bb == 0 {
        return 0;
    }
    proof {
        lemma_lowest(king_bb);
    }
    let king_sq = king_bb.trailing_zeros() as usize;
    let king_file = king_sq % 8;
    let king_rank = king_sq / 8;
    let our_pawns = board.pieces[us][0];
    let mut score = 0i32;

    // Pawn shield bonus
    let shield_rank = if us == 0 {
        king_rank + 1
    } else {
        king_rank.wrapping_sub(1)
    };
    if shield_rank < 8 {
        let shield_files = (FILE_A << king_file) | (if king_file > 0 {
            FILE_A << (king_file - 1)
        } else {
            0
        }) | (if king_file < 7 {
            FILE_A << (king_file + 1)
        } else {
            0
        });
        let rank_mask = 0xFFu64 << (shield_rank * 8);
        let n = count_ones(our_pawns & shield_files & rank_mask);
        proof {
            lemma_popcount_bound(our_pawns & shield_files & rank_mask);
        }
        score = score + n as i32 * 10;
    }

    // Open file toward king
    if our_pawns & (FILE_A << king_file) == 0 {
        score = score - 20;
    }
    score
}


// ── Main evaluation ───────────────────────────────────────────────────────────

/// Features counted in both game phases.
pub open spec fn structural_spec(b: Board, c: int) -> int {
    pawn_structure_spec(b, c) + mobility_spec(b, c) + bishop_pair_spec(b, c) + rook_files_spec(b, c)
}

/// Everything one side scores in a phase; king safety counts in the
/// middlegame only.
pub open spec fn side_total(b: Board, c: int, mg: bool) -> int {
    material_spec(b, c, mg, 6) + structural_spec(b, c) + (if mg {
        king_safety_spec(b, c)
    } else {
        0
    })
}

/// Integer division rounding toward zero, as Rust's `/` does.
pub open spec fn div_trunc(a: int, d: int) -> int {
    if a >= 0 {
        a / d
    } else {
        -((-a) / d)
    }
}

/// The tapered score from White's view: the middlegame and endgame totals
/// weighted by the game phase.
pub open spec fn white_score(b: Board) -> int {
    let phase = game_phase_spec(b);
    let mg = side_total(b, 0, true) - side_total(b, 1, true);
    let eg = side_total(b, 0, false) - side_total(b, 1, false);
    div_trunc(mg * phase + eg * (24 - phase), 24)
}

/// Static evaluation from the side to move's view, with a tempo bonus.
pub open spec fn evaluate_spec(b: Board) -> int {
    (if b.side == Color::Black {
        -white_score(b)
    } else {
        white_score(b)
    }) + TEMPO
}

proof fn lemma_phase_sum_same(b: Board, b2: Board, k: int)
    requires
        b2.pieces == b.pieces,
    ensures
        phase_sum(b, k) == phase_sum(b2, k),
    decreases k,
{
    if k > 0 {
        lemma_phase_sum_same(b, b2, k - 1);
    }
}

proof fn lemma_material_same(b: Board, b2: Board, c: int, mg: bool, np: int)
    requires
        b2.pieces == b.pieces,
    ensures
        material_spec(b, c, mg, np) == material_spec(b2, c, mg, np),
    decreases np,
{
    if np > 0 {
        lemma_material_same(b, b2, c, mg, np - 1);
    }
}

/// Each side's totals read only the pieces and the occupancy.
proof fn lemma_side_total_same(b: Board, b2: Board, c: int, mg: bool)
    requires
        b2.pieces == b.pieces,
        b2.occ == b.occ,
        b2.all == b.all,
    ensures
        side_total(b, c, mg) == side_total(b2, c, mg),
{
    lemma_material_same(b, b2, c, mg, 6);
    assert(pawn_term(b, c) =~= pawn_term(b2, c));
    assert(rook_term(b, c) =~= rook_term(b2, c));
}

/// The evaluation is from the side to move's view: the same position with
/// the other side to move scores the negation, around the tempo bonus.
pub proof fn lemma_evaluate_side(b: Board, b2: Board)
    requires
        b2.pieces == b.pieces,
        b2.occ == b.occ,
        b2.all == b.all,
        b2.side == crate::types::other(b.side),
    ensures
        evaluate_spec(b) + evaluate_spec(b2) == 2 * TEMPO,
{
    lemma_phase_sum_same(b, b2, 12);
    lemma_side_total_same(b, b2, 0, true);
    lemma_side_total_same(b, b2, 1, true);
    lemma_side_total_same(b, b2, 0, false);
    lemma_side_total_same(b, b2, 1, false);
    assert(white_score(b) == white_score(b2));
}

/// Static evaluation, positive = good for side to move
pub fn evaluate(board: &Board) -> (r: i32)
    ensures
        r == evaluate_spec(*board),
        -8_000_000 <= r <= 8_000_000,
{
    let phase = game_phase(board);
    let mut mg = 0i32;
    let mut eg = 0i32;
    for c in 0..2usize
        invariant
            mg == (if c >= 1 {
                side_total(*board, 0, true)
            } else {
                0
            }) - (if c >= 2 {
                side_total(*board, 1, true)
            } else {
                0
            }),
            eg == (if c >= 1 {
                side_total(*board, 0, false)
            } else {
                0
            }) - (if c >= 2 {
                side_total(*board, 1, false)
            } else {
                0
            }),
            -7_800_000 <= mg <= 7_800_000,
            -7_800_000 <= eg <= 7_800_000,
            c == 1 ==> (0 - 11_100 <= mg <= 7_777_000 && 0 - 11_100 <= eg <= 7_777_000),
    {
        let sign: i32 = if c == 0 {
            1
        } else {
            -1
        };
        // Material + PST (tapered per piece)
        let mat_mg = material(board, c, true);
        let mat_eg = material(board, c, false);
        // Structural features (both phases)
        let structural = pawn_structure(board, c) + mobility_score(board, c) + bishop_pair(board, c)
            + rook_open_files(board, c);
        // King safety: midgame only
        let ks = king_safety(board, c);
        mg = mg + sign * (mat_mg + structural + ks);
        eg = eg + sign * (mat_eg + structural);
    }
    let ghost m = mg as int;
    let ghost e = eg as int;
    let ghost ph = phase as int;
    assert(-187_200_000 <= m * ph <= 187_200_000) by (nonlinear_arith)
        requires
            -7_800_000 <= m <= 7_800_000,
            0 <= ph <= 24,
    ;
    assert(-187_200_000 <= e * (24 - ph) <= 187_200_000) by (nonlinear_arith)
        requires
            -7_800_000 <= e <= 7_800_000,
            0 <= ph <= 24,
    ;
    assert(-187_200_000 <= m * ph + e * (24 - ph) <= 187_200_000) by (nonlinear_arith)
        requires
            -7_800_000 <= m <= 7_800_000,
            -7_800_000 <= e <= 7_800_000,
            0 <= ph <= 24,
    ;
    // Tapered interpolation
    let total = mg * phase + eg * (24 - phase);
    let score = total / 24;
    assert(score == div_trunc(total as int, 24));
    assert(-7_800_000 <= score <= 7_800_000);
    let score = if board.side == Color::Black {
        -score
    } else {
        score
    };
    score + TEMPO
}

/// True if endgame (no queens or rooks for side to move) — used by null move pruning.
pub fn is_endgame(board: &Board) -> (r: bool)
    ensures
        r == (board.pieces[color_index(board.side)][4] == 0 && board.pieces[color_index(
            board.side,
        )][3] == 0),
{
    let us = board.side.index();
    board.pieces[us][4] == 0 && board.pieces[us][3] == 0
}

// ── MVV-LVA for move ordering ─────────────────────────────────────────────────

/// Most valuable victim, least valuable attacker: ten times the value of the
/// piece on the target square less the value of the piece on the from
/// square (a pawn when there is none); 0 when the target square is empty.
pub open spec fn mvv_lva_spec(b: Board, mv: Move) -> int {
    match piece_at(b, mv.to_sq()) {
        Some((_, victim)) => {
            let attacker = match piece_at(b, mv.from_sq()) {
                Some((_, p)) => p,
                None => Piece::Pawn,
            };
            PIECE_VALUE[piece_index(victim)] * 10 - PIECE_VALUE[piece_index(attacker)]
        },
        None => 0,
    }
}

pub fn mvv_lva(board: &Board, mv: Move) -> (r: i32)
    ensures
        r == mvv_lva_spec(*board, mv),
{
    let to = mv.to();
    if let Some((_, victim)) = board.piece_on(to) {
        let from = mv.from();
        let attacker = match board.piece_on(from) {
            Some((_, p)) => p,
            None => Piece::Pawn,
        };
        proof {
            assert(forall|i: int| 0 <= i < 6 ==> 100 <= #[trigger] PIECE_VALUE[i] <= 20000);
        }
        return PIECE_VALUE[victim.index()] * 10 - PIECE_VALUE[attacker.index()];
    }
    0
}


// ── Draw by material ──────────────────────────────────────────────────────────

/// Neither side can mate: no pawns, rooks or queens on the board, and at
/// most one knight or bishop in all.
pub open spec fn insufficient_material_spec(b: Board) -> bool {
    &&& b.pieces[0][0] == 0 && b.pieces[1][0] == 0
    &&& b.pieces[0][3] == 0 && b.pieces[1][3] == 0
    &&& b.pieces[0][4] == 0 && b.pieces[1][4] == 0
    &&& popcount(b.pieces[0][1]) + popcount(b.pieces[0][2]) + popcount(b.pieces[1][1]) + popcount(
        b.pieces[1][2],
    ) <= 1
}

pub fn insufficient_material(board: &Board) -> (r: bool)
    ensures
        r == insufficient_material_spec(*board),
{
    if board.pieces[0][0] != 0 || board.pieces[1][0] != 0 {
        return false;
    }
    if board.pieces[0][3] != 0 || board.pieces[1][3] != 0 {
        return false;
    }
    if board.pieces[0][4] != 0 || board.pieces[1][4] != 0 {
        return false;
    }
    let minors = count_ones(board.pieces[0][1]) as u64 + count_ones(board.pieces[0][2]) as u64
        + count_ones(board.pieces[1][1]) as u64 + count_ones(board.pieces[1][2]) as u64;
    minors <= 1
}

// ── Static exchange evaluation ────────────────────────────────────────────────

/// Pieces of colour index `c` and piece index `p`, still on the board
/// (`occ`), that attack `sq`; sliders see through squares cleared from `occ`.
pub open spec fn attackers_of(b: Board, sq: int, occ: u64, c: int, p: int) -> u64 {
    let att = if p == 0 {
        pawn_bb(1 - c, sq)
    } else if p == 1 {
        knight_bb(sq)
    } else if p == 2 {
        bishop_bb(sq, occ)
    } else if p == 3 {
        rook_bb(sq, occ)
    } else if p == 4 {
        bishop_bb(sq, occ) | rook_bb(sq, occ)
    } else {
        king_bb(sq)
    };
    att & b.pieces[c][p] & occ
}

/// The least valuable kind, from `p` on, with an attacker of `sq`; 6 when
/// there is none.
pub open spec fn least_attacker(b: Board, sq: int, occ: u64, c: int, p: int) -> int
    decreases 6 - p,
{
    if p >= 6 || p < 0 {
        6
    } else if attackers_of(b, sq, occ, c, p) != 0 {
        p
    } else {
        least_attacker(b, sq, occ, c, p + 1)
    }
}

proof fn lemma_least_attacker(b: Board, sq: int, occ: u64, c: int, p: int)
    requires
        0 <= p <= 6,
    ensures
        p <= least_attacker(b, sq, occ, c, p) <= 6,
        least_attacker(b, sq, occ, c, p) < 6 ==> attackers_of(
            b,
            sq,
            occ,
            c,
            least_attacker(b, sq, occ, c, p),
        ) != 0,
    decreases 6 - p,
{
    if p < 6 {
        lemma_least_attacker(b, sq, occ, c, p + 1);
    }
}

/// What side `c` gains by going on capturing on `sq`, where a piece worth
/// `value` stands, with the least valuable attacker each time, either side
/// free to stop: never below zero.
pub open spec fn see_gain_spec(b: Board, sq: int, occ: u64, c: int, value: int) -> int
    decreases popcount(occ),
{
    let p = least_attacker(b, sq, occ, c, 0);
    if p >= 6 {
        0
    } else {
        let from = u64_trailing_zeros(attackers_of(b, sq, occ, c, p)) as int;
        let occ2 = occ & !(1u64 << (from as u64));
        if popcount(occ2) < popcount(occ) {
            let g = value - see_gain_spec(b, sq, occ2, 1 - c, PIECE_VALUE[p] as int);
            if g > 0 {
                g
            } else {
                0
            }
        } else {
            0
        }
    }
}

/// Clearing an attacker's square takes one piece off the board.
proof fn lemma_clear_attacker(b: Board, sq: int, occ: u64, c: int, p: int)
    requires
        attackers_of(b, sq, occ, c, p) != 0,
    ensures
        ({
            let from = u64_trailing_zeros(attackers_of(b, sq, occ, c, p)) as int;
            &&& 0 <= from < 64
            &&& popcount(occ & !(1u64 << (from as u64))) + 1 == popcount(occ)
        }),
{
    let a = attackers_of(b, sq, occ, c, p);
    lemma_lowest(a);
    let from = u64_trailing_zeros(a) as int;
    let att = a;
    crate::bits::lemma_bit_and(att, occ, from);
    let x = if p == 0 {
        pawn_bb(1 - c, sq)
    } else if p == 1 {
        knight_bb(sq)
    } else if p == 2 {
        bishop_bb(sq, occ)
    } else if p == 3 {
        rook_bb(sq, occ)
    } else if p == 4 {
        bishop_bb(sq, occ) | rook_bb(sq, occ)
    } else {
        king_bb(sq)
    };
    crate::bits::lemma_bit_and(x & b.pieces[c][p], occ, from);
    assert(bit(occ, from));
    let y = occ & !(1u64 << (from as u64));
    assert forall|s: int| #[trigger] bit(y, s) <==> (bit(occ, s) && s != from) by {
        crate::bits::lemma_bit_and_not(occ, 1u64 << (from as u64), s);
        crate::bits::lemma_bit_single(from, s);
    }
    crate::bits::lemma_count_remove(occ, y, from);
}

proof fn lemma_see_gain_bounds(b: Board, sq: int, occ: u64, c: int, value: int)
    requires
        value >= 0,
    ensures
        0 <= see_gain_spec(b, sq, occ, c, value) <= value,
    decreases popcount(occ),
{
    let p = least_attacker(b, sq, occ, c, 0);
    if p < 6 {
        lemma_least_attacker(b, sq, occ, c, 0);
        lemma_clear_attacker(b, sq, occ, c, p);
        let from = u64_trailing_zeros(attackers_of(b, sq, occ, c, p)) as int;
        let occ2 = occ & !(1u64 << (from as u64));
        assert(forall|i: int| 0 <= i < 6 ==> 100 <= #[trigger] PIECE_VALUE[i] <= 20000);
        lemma_see_gain_bounds(b, sq, occ2, 1 - c, PIECE_VALUE[p] as int);
    }
}

fn attackers(board: &Board, sq: usize, occ: u64, c: usize, p: usize) -> (r: u64)
    requires
        sq < 64,
        c < 2,
        p < 6,
    ensures
        r == attackers_of(*board, sq as int, occ, c as int, p as int),
{
    let att = if p == 0 {
        crate::attacks::pawn_attacks(if c == 0 {
            Color::Black
        } else {
            Color::White
        }, sq)
    } else if p == 1 {
        knight_attacks(sq)
    } else if p == 2 {
        bishop_attacks(sq, occ)
    } else if p == 3 {
        rook_attacks(sq, occ)
    } else if p == 4 {
        bishop_attacks(sq, occ) | rook_attacks(sq, occ)
    } else {
        crate::attacks::king_attacks(sq)
    };
    att & board.pieces[c][p] & occ
}

fn see_gain(board: &Board, sq: usize, occ: u64, c: usize, value: i32) -> (r: i32)
    requires
        sq < 64,
        c < 2,
        0 <= value <= 20000,
    ensures
        r == see_gain_spec(*board, sq as int, occ, c as int, value as int),
        0 <= r <= value,
    decreases popcount(occ),
{
    proof {
        lemma_see_gain_bounds(*board, sq as int, occ, c as int, value as int);
    }
    let mut p: usize = 0;
    while p < 6
        invariant
            p <= 6,
            sq < 64,
            c < 2,
            least_attacker(*board, sq as int, occ, c as int, 0) == least_attacker(
                *board,
                sq as int,
                occ,
                c as int,
                p as int,
            ),
        ensures
            p >= 6 || attackers_of(*board, sq as int, occ, c as int, p as int) != 0,
            least_attacker(*board, sq as int, occ, c as int, 0) == least_attacker(
                *board,
                sq as int,
                occ,
                c as int,
                p as int,
            ),
            p <= 6,
        decreases 6 - p,
    {
        if attackers(board, sq, occ, c, p) != 0 {
            break;
        }
        p = p + 1;
    }
    if p >= 6 {
        return 0;
    }
    let a = attackers(board, sq, occ, c, p);
    proof {
        lemma_clear_attacker(*board, sq as int, occ, c as int, p as int);
        assert(forall|i: int| 0 <= i < 6 ==> 100 <= #[trigger] PIECE_VALUE[i] <= 20000);
    }
    let from = a.trailing_zeros() as usize;
    let occ2 = occ & !(1u64 << from);
    let reply = see_gain(board, sq, occ2, 1 - c, PIECE_VALUE[p]);
    let g = value - reply;
    if g > 0 {
        g
    } else {
        0
    }
}

/// Static exchange evaluation of a move: the value of the piece it takes on
/// the target square, less what the opponent gains by capturing back there
/// with least valuable attackers first.
pub open spec fn see_spec(b: Board, mv: Move) -> int {
    let to = mv.to_sq();
    let from = mv.from_sq();
    let victim = match piece_at(b, to) {
        Some((_, p)) => PIECE_VALUE[piece_index(p)] as int,
        None => 0,
    };
    let mover = match piece_at(b, from) {
        Some((_, p)) => PIECE_VALUE[piece_index(p)] as int,
        None => PIECE_VALUE[0] as int,
    };
    victim - see_gain_spec(b, to, b.all & !(1u64 << (from as u64)), 1 - color_index(b.side), mover)
}

pub fn see(board: &Board, mv: Move) -> (r: i32)
    ensures
        r == see_spec(*board, mv),
        -20000 <= r <= 20000,
{
    let to = mv.to();
    let from = mv.from();
    proof {
        assert(forall|i: int| 0 <= i < 6 ==> 100 <= #[trigger] PIECE_VALUE[i] <= 20000);
    }
    let victim = match board.piece_on(to) {
        Some((_, p)) => PIECE_VALUE[p.index()],
        None => 0,
    };
    let mover = match board.piece_on(from) {
        Some((_, p)) => PIECE_VALUE[p.index()],
        None => PIECE_VALUE[0],
    };
    let occ = board.all & !(1u64 << from);
    let them = 1 - board.side.index();
    victim - see_gain(board, to, occ, them, mover)
}

} // verus!
