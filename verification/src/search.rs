//! Alpha-beta search with iterative deepening, aspiration windows,
//! quiescence, a transposition table, killer moves and a history table.
//!
//! Scores are `i32` centipawns from the side to move. The score arithmetic
//! of the search wraps on overflow, as the release build that the engine
//! ships as does; with real scores it never comes near the limits.
use vstd::prelude::*;
use crate::board::{
    Board, valid, piece_at, piece_after, occ_consistent, castling_after, ep_after, halfmove_after,
    fullmove_after, move_hash,
};
use crate::eval::{
    evaluate, evaluate_spec, is_endgame, mvv_lva, mvv_lva_spec, see, see_spec, insufficient_material,
    insufficient_material_spec, INF, MATE_SCORE, PIECE_VALUE,
};
use crate::movegen::{legal_moves, legal_list, in_check, checked, has_king, all_in_range};
use crate::tt::{TranspositionTable, TTFlag, TTEntry, probe_spec, store_spec, lemma_probe_after_store};
use crate::types::{Move, null_move, color_index, other, piece_index, FLAG_PROMO, FLAG_EP_CAPTURE};

verus! {

/// Plies below the root that keep killer moves: the killer table has one
/// row per ply.
pub const MAX_PLY: usize = 128;

/// The ply from which a node is no longer searched but scored by
/// quiescence: past it the ply would not fit the `i32` of a mate score.
pub const PLY_LIMIT: usize = 0x7FFF_FFFF;

/// Slots of the evaluation cache (a power of two).
pub const EVAL_CACHE_SIZE: usize = 65536;

/// Nodes between two looks at the clock (a power of two, less one).
pub const TIME_CHECK_MASK: u64 = 4095;

/// What a search needs from the place it runs in: a clock, the
/// late-move-reduction formula (a floating-point one), and somewhere to
/// report each finished iteration.
pub trait SearchEnv {
    /// Milliseconds since the search started.
    fn elapsed_ms(&self) -> u64;

    /// How many plies to take off the `move_index`-th move searched at
    /// `depth`, before clamping to `1..=depth - 1`.
    fn late_move_reduction(&self, depth: i32, move_index: usize) -> i32;

    /// Hears of an iteration of iterative deepening that finished: its depth,
    /// score, the nodes searched so far and the principal variation.
    fn report(&mut self, depth: u32, score: i32, nodes: u64, pv: &Vec<Move>);
}

pub struct SearchInfo<E> {
    pub nodes: u64,
    pub stop: bool,
    pub depth: u32,
    /// 0 = unlimited (search until the time limit stops it); >0 = stop after
    /// this depth
    pub max_depth: u32,
    /// Repetition history (zobrist keys of all prior positions in the game).
    /// Searcher extends this stack as moves are made.
    pub history: Vec<u64>,
    /// Move to exclude at exactly `excluded_ply` — used by singular-extension probing.
    pub excluded_move: Move,
    pub excluded_ply: usize,
    /// 0 = no time limit (depth-only)
    pub time_limit_ms: u64,
    pub env: E,
}

/// What a search leaves as it found it in its `SearchInfo`: the game history,
/// the excluded move, the limits and the environment; a stop, once asked
/// for, stays; and the node count never goes down.
pub open spec fn kept<E>(a: SearchInfo<E>, b: SearchInfo<E>) -> bool {
    &&& b.history@ == a.history@
    &&& b.excluded_move == a.excluded_move
    &&& b.excluded_ply == a.excluded_ply
    &&& b.max_depth == a.max_depth
    &&& b.depth == a.depth
    &&& b.time_limit_ms == a.time_limit_ms
    &&& b.env == a.env
    &&& (a.stop ==> b.stop)
    &&& b.nodes >= a.nodes
}

/// `kept` chains.
pub proof fn lemma_kept_trans<E>(a: SearchInfo<E>, b: SearchInfo<E>, c: SearchInfo<E>)
    requires
        kept(a, b),
        kept(b, c),
    ensures
        kept(a, c),
{
}

impl<E: SearchEnv> SearchInfo<E> {
    /// A search to a fixed depth, with no time limit.
    pub fn new_depth(max_depth: u32, env: E) -> (r: Self)
        ensures
            r.nodes == 0,
            !r.stop,
            r.depth == 0,
            r.max_depth == max_depth,
            r.history@ == Seq::<u64>::empty(),
            r.excluded_move == null_move(),
            r.excluded_ply == usize::MAX,
            r.time_limit_ms == 0,
            r.env == env,
    {
        SearchInfo {
            nodes: 0,
            stop: false,
            depth: 0,
            max_depth,
            history: Vec::new(),
            excluded_move: Move::default(),
            excluded_ply: usize::MAX,
            time_limit_ms: 0,
            env,
        }
    }

    /// A search that stops after `ms` milliseconds (or depth 64).
    pub fn new_time_ms(ms: u64, env: E) -> (r: Self)
        ensures
            r.nodes == 0,
            !r.stop,
            r.depth == 0,
            r.max_depth == 64,
            r.history@ == Seq::<u64>::empty(),
            r.excluded_move == null_move(),
            r.excluded_ply == usize::MAX,
            r.time_limit_ms == ms,
            r.env == env,
    {
        SearchInfo {
            nodes: 0,
            stop: false,
            depth: 0,
            max_depth: 64,
            history: Vec::new(),
            excluded_move: Move::default(),
            excluded_ply: usize::MAX,
            time_limit_ms: ms,
            env,
        }
    }

    /// Every 4096 nodes, asks the clock whether the time limit has passed and
    /// if so asks the search to stop.
    fn check_time(&mut self)
        ensures
            kept(*old(self), *final(self)),
            final(self).nodes == old(self).nodes,
            final(self).stop ==> old(self).stop || (old(self).nodes & TIME_CHECK_MASK == 0
                && old(self).time_limit_ms > 0),
            old(self).stop ==> *final(self) == *old(self),
    {
        if self.nodes & TIME_CHECK_MASK != 0 {
            return;
        }
        if self.time_limit_ms > 0 && self.env.elapsed_ms() >= self.time_limit_ms {
            self.stop = true;
        }
    }
}

/// Whether `key` occurs in `keys`.
fn contains_key(keys: &Vec<u64>, key: u64) -> (r: bool)
    ensures
        r == keys@.contains(key),
{
    let mut i: usize = 0;
    while i < keys.len()
        invariant
            i <= keys.len(),
            forall|j: int| 0 <= j < i ==> keys@[j] != key,
        decreases keys.len() - i,
    {
        if keys[i] == key {
            return true;
        }
        i = i + 1;
    }
    false
}

/// The slot of a hash in the evaluation cache.
pub open spec fn cache_slot(z: u64) -> int {
    ((z as usize) & 0xFFFFusize) as int
}

pub struct Searcher {
    pub tt: TranspositionTable,
    pub killer: [[Move; 2]; 128],
    pub history: [[i32; 64]; 64],
    /// Small zobrist-keyed eval cache (always-replace).
    pub eval_cache: Vec<(u64, i32)>,
}

impl Searcher {
    /// The searcher's invariant: a table with slots, a cache of its full
    /// size holding values an evaluation can take.
    pub open spec fn wf(&self) -> bool {
        &&& self.tt.wf()
        &&& self.tt.entries().len() > 0
        &&& self.eval_cache@.len() == EVAL_CACHE_SIZE
        &&& forall|i: int|
            0 <= i < self.eval_cache@.len() ==> -8_000_000 <= #[trigger] self.eval_cache@[i].1
                <= 8_000_000
    }

    /// A 64-megabyte table, no killers or history, an empty cache.
    pub fn new() -> (s: Self)
        ensures
            s.wf(),
            forall|i: int| 0 <= i < s.tt.entries().len() ==> #[trigger] s.tt.entries()[i] is None,
            forall|p: int, k: int| 0 <= p < 128 && 0 <= k < 2 ==> #[trigger] s.killer[p][k] == null_move(),
            forall|f: int, t: int| 0 <= f < 64 && 0 <= t < 64 ==> #[trigger] s.history[f][t] == 0,
            forall|i: int| 0 <= i < EVAL_CACHE_SIZE ==> #[trigger] s.eval_cache@[i] == (0u64, 0i32),
    {
        let tt = TranspositionTable::new(64);
        assert((64 * 1048576) as nat / 24 > 0);
        let mut eval_cache: Vec<(u64, i32)> = Vec::with_capacity(EVAL_CACHE_SIZE);
        while eval_cache.len() < EVAL_CACHE_SIZE
            invariant
                eval_cache@.len() <= EVAL_CACHE_SIZE,
                forall|i: int| 0 <= i < eval_cache@.len() ==> #[trigger] eval_cache@[i] == (0u64, 0i32),
            decreases EVAL_CACHE_SIZE - eval_cache@.len(),
        {
            eval_cache.push((0u64, 0i32));
        }
        Searcher { tt, killer: [[Move(0); 2]; 128], history: [[0; 64]; 64], eval_cache }
    }

    /// Forgets killers and history; the table and the cache stay.
    pub fn clear_for_search(&mut self)
        ensures
            final(self).tt == old(self).tt,
            final(self).eval_cache == old(self).eval_cache,
            forall|p: int, k: int|
                0 <= p < 128 && 0 <= k < 2 ==> #[trigger] final(self).killer[p][k] == null_move(),
            forall|f: int, t: int| 0 <= f < 64 && 0 <= t < 64 ==> #[trigger] final(self).history[f][t] == 0,
    {
        self.killer = [[Move(0); 2]; 128];
        self.history = [[0; 64]; 64];
        // Keep eval_cache + tt across moves; only kill killers/history.
    }

    /// The static evaluation, through the cache: a hit under the same hash
    /// gives the cached value, a miss evaluates and stores.
    pub fn cached_eval(&mut self, board: &Board) -> (r: i32)
        requires
            old(self).wf(),
        ensures
            final(self).wf(),
            final(self).tt == old(self).tt,
            final(self).killer == old(self).killer,
            final(self).history == old(self).history,
            -8_000_000 <= r <= 8_000_000,
            r == stand_pat_of(old(self).eval_cache@, *board),
            stand_pat_of(final(self).eval_cache@, *board) == r,
            ({
                let slot = old(self).eval_cache@[cache_slot(board.zobrist)];
                if slot.0 == board.zobrist {
                    r == slot.1 && final(self).eval_cache@ == old(self).eval_cache@
                } else {
                    r == evaluate_spec(*board) && final(self).eval_cache@ == old(
                        self,
                    ).eval_cache@.update(cache_slot(board.zobrist), (board.zobrist, r))
                }
            }),
    {
        let z = board.zobrist;
        let idx = (z as usize) & (EVAL_CACHE_SIZE - 1);
        assert((z as usize) & 0xFFFFusize < 65536) by (bit_vector);
        let entry = self.eval_cache[idx];
        if entry.0 == z {
            return entry.1;
        }
        let s = evaluate(board);
        self.eval_cache.set(idx, (z, s));
        s
    }
}


/// The sort key of a move (lower goes first): the table move, then captures
/// that do not lose material by MVV-LVA, then killers of this ply, then
/// quiet moves by history, then losing captures.
pub open spec fn order_key_spec(
    b: Board,
    killer: [[Move; 2]; 128],
    history: [[i32; 64]; 64],
    tt_move: Move,
    ply: int,
    mv: Move,
) -> i32 {
    if mv == tt_move {
        i32::MIN
    } else if piece_at(b, mv.to_sq()) is Some {
        let see_val = if mv.flag_bits() == FLAG_EP_CAPTURE {
            100
        } else {
            see_spec(b, mv)
        };
        if see_val >= 0 {
            (0 - (mvv_lva_spec(b, mv) + 10_000)) as i32
        } else {
            (0 - see_val) as i32
        }
    } else if ply < 128 && (killer[ply][0] == mv || killer[ply][1] == mv) {
        -9_000i32
    } else {
        0i32.wrapping_sub(history[mv.from_sq()][mv.to_sq()])
    }
}

/// The sort key of `order_key_spec`.
pub fn order_key(
    board: &Board,
    killer: &[[Move; 2]; 128],
    history: &[[i32; 64]; 64],
    tt_move: Move,
    ply: usize,
    mv: Move,
) -> (r: i32)
    ensures
        r == order_key_spec(*board, *killer, *history, tt_move, ply as int, mv),
{
    let mut score = 0i32;
    if mv == tt_move {
        return i32::MIN;
    }
    let is_capture = board.piece_on(mv.to()).is_some();
    if is_capture {
        // Use SEE to demote captures that lose material; otherwise MVV-LVA.
        let see_val = if mv.flags() == FLAG_EP_CAPTURE {
            100
        } else {
            see(board, mv)
        };
        if see_val >= 0 {
            let m = mvv_lva(board, mv);
            proof {
                assert(forall|i: int| 0 <= i < 6 ==> 100 <= #[trigger] PIECE_VALUE[i] <= 20000);
            }
            score = score - (m + 10_000);
        } else {
            // Losing capture: rank below killers and history.
            score = score - see_val;
        }
    } else {
        if ply < 128 && (killer[ply][0] == mv || killer[ply][1] == mv) {
            score = score - 9_000;
        } else {
            score = score.wrapping_sub(history[mv.from()][mv.to()]);
        }
    }
    score
}

/// Calls `slice::sort_unstable_by_key` with `order_key` as the key: std
/// documents that the slice ends up sorted by the key (ascending, `i32`
/// order) and holds the same elements; which of two moves with equal keys
/// comes first is left open, and so is it here.
#[verifier::external_body]
fn sort_by_order_key(
    moves: &mut Vec<Move>,
    board: &Board,
    killer: &[[Move; 2]; 128],
    history: &[[i32; 64]; 64],
    tt_move: Move,
    ply: usize,
)
    ensures
        final(moves)@.to_multiset() == old(moves)@.to_multiset(),
        forall|i: int, j: int|
            0 <= i <= j < final(moves)@.len() ==> order_key_spec(
                *board,
                *killer,
                *history,
                tt_move,
                ply as int,
                #[trigger] final(moves)@[i],
            ) <= order_key_spec(*board, *killer, *history, tt_move, ply as int, #[trigger] final(moves)@[j]),
{
    moves.sort_unstable_by_key(|m| order_key(board, killer, history, tt_move, ply, *m));
}

/// Two sequences with the same multiset hold the same moves.
pub proof fn lemma_same_moves(s1: Seq<Move>, s2: Seq<Move>, m: Move)
    requires
        s1.to_multiset() == s2.to_multiset(),
    ensures
        s1.contains(m) <==> s2.contains(m),
{
    vstd::seq_lib::to_multiset_contains(s1, m);
    vstd::seq_lib::to_multiset_contains(s2, m);
}

/// A reordering keeps every move in range.
proof fn lemma_perm_in_range(b: Board, s1: Seq<Move>, s2: Seq<Move>)
    requires
        s1.to_multiset() == s2.to_multiset(),
        all_in_range(b, s1),
    ensures
        all_in_range(b, s2),
{
    assert forall|i: int| 0 <= i < s2.len() implies crate::board::move_in_range(b, #[trigger] s2[i]) by {
        lemma_same_moves(s1, s2, s2[i]);
        assert(s2.contains(s2[i]));
        let j = choose|j: int| 0 <= j < s1.len() && s1[j] == s2[i];
        assert(crate::board::move_in_range(b, s1[j]));
    }
}

impl Searcher {
    /// Sorts the moves for search: same moves, ascending `order_key_spec`.
    pub fn order_moves(&self, board: &Board, moves: &mut Vec<Move>, tt_move: Move, ply: usize)
        ensures
            final(moves)@.to_multiset() == old(moves)@.to_multiset(),
            forall|i: int, j: int|
                0 <= i <= j < final(moves)@.len() ==> order_key_spec(
                    *board,
                    self.killer,
                    self.history,
                    tt_move,
                    ply as int,
                    #[trigger] final(moves)@[i],
                ) <= order_key_spec(*board, self.killer, self.history, tt_move, ply as int, #[trigger] final(moves)@[j]),
    {
        sort_by_order_key(moves, board, &self.killer, &self.history, tt_move, ply);
    }
}


/// A stand-pat that trails alpha by more than about a queen cannot be saved
/// by any capture.
pub const DELTA_MARGIN: i32 = 975;

/// `-x`, wrapping at `i32::MIN` as a release build does.
pub open spec fn neg_spec(x: i32) -> i32 {
    0i32.wrapping_sub(x)
}

fn neg(x: i32) -> (r: i32)
    ensures
        r == neg_spec(x),
        x > i32::MIN ==> r == -x,
{
    0i32.wrapping_sub(x)
}

/// The static evaluation `cached_eval` gives: the cached value when the
/// slot holds this hash, else the evaluation.
pub open spec fn stand_pat_of(cache: Seq<(u64, i32)>, b: Board) -> i32 {
    let slot = cache[cache_slot(b.zobrist)];
    if slot.0 == b.zobrist {
        slot.1
    } else {
        evaluate_spec(b) as i32
    }
}

/// A move that takes a piece: its target is occupied, or it takes en passant.
pub open spec fn is_capture_move(b: Board, m: Move) -> bool {
    piece_at(b, m.to_sq()) is Some || m.flag_bits() == FLAG_EP_CAPTURE
}

/// The side to move has a legal capture.
pub open spec fn has_capture(b: Board) -> bool {
    exists|j: int| 0 <= j < legal_list(b).len() && is_capture_move(b, #[trigger] legal_list(b)[j])
}

pub open spec fn max_i32(a: i32, b: i32) -> i32 {
    if a >= b {
        a
    } else {
        b
    }
}

impl Searcher {
    /// Quiescence search: stand pat on the static evaluation, then try the
    /// captures that can still raise alpha and do not lose material, best
    /// first, eight plies deep at most. Fail hard: with a window
    /// `alpha < beta` the result lies in it, or is 0 when the search was
    /// stopped. A stand pat at or above beta gives beta; one so far below
    /// alpha that no capture can help gives alpha; otherwise the result is at
    /// least the better of alpha and the stand pat, and exactly that when
    /// there is no capture to try.
    #[verifier::rlimit(50)]
    fn quiescence<E: SearchEnv>(
        &mut self,
        board: &Board,
        alpha_in: i32,
        beta: i32,
        qply: usize,
        info: &mut SearchInfo<E>,
    ) -> (r: i32)
        requires
            old(self).wf(),
            valid(*board),
            qply <= 8,
        ensures
            final(self).wf(),
            final(self).tt == old(self).tt,
            final(self).killer == old(self).killer,
            final(self).history == old(self).history,
            kept(*old(info), *final(info)),
            alpha_in < beta ==> (r == 0 && final(info).stop) || (alpha_in <= r <= beta),
            old(info).nodes < u64::MAX ==> final(info).nodes > old(info).nodes,
            old(info).time_limit_ms == 0 && !old(info).stop ==> !final(info).stop,
            ({
                let sp = stand_pat_of(old(self).eval_cache@, *board);
                &&& sp >= beta ==> r == beta && final(info).nodes == old(info).nodes.saturating_add(1)
                    && final(info).stop == old(info).stop
                &&& sp < beta && sp + DELTA_MARGIN < alpha_in ==> r == alpha_in && final(info).nodes
                    == old(info).nodes.saturating_add(1) && final(info).stop == old(info).stop
                &&& !final(info).stop && alpha_in < beta && sp < beta && sp + DELTA_MARGIN >= alpha_in
                    ==> max_i32(alpha_in, sp) <= r <= beta
                &&& sp < beta && sp + DELTA_MARGIN >= alpha_in && (qply >= 8 || !has_king(*board)
                    || !has_capture(*board)) ==> r == max_i32(alpha_in, sp)
            }),
        decreases 8 - qply,
    {
        let ghost sp = stand_pat_of(self.eval_cache@, *board);
        info.nodes = info.nodes.saturating_add(1);
        let stand_pat = self.cached_eval(board);
        assert(stand_pat == sp);
        if stand_pat >= beta {
            return beta;
        }
        // ── Delta pruning ─────────────────────────────────────────────────────
        // If even capturing the most valuable piece on the board can't raise alpha,
        // there's no point searching any captures.
        if stand_pat + DELTA_MARGIN < alpha_in {
            return alpha_in;
        }
        let mut alpha = alpha_in;
        if stand_pat > alpha {
            alpha = stand_pat;
        }
        if qply >= 8 {
            return alpha;
        }
        // A side without a king has no captures to look at.
        if board.pieces[board.side.index()][5] == 0 {
            return alpha;
        }
        let all = legal_moves(board);
        let mut moves: Vec<Move> = Vec::new();
        let mut k: usize = 0;
        while k < all.len()
            invariant
                k <= all@.len(),
                all_in_range(*board, all@),
                all_in_range(*board, moves@),
                all@ == legal_list(*board),
                moves@.len() == 0 <==> forall|j: int| 0 <= j < k ==> !is_capture_move(*board, #[trigger] all@[j]),
            decreases all@.len() - k,
        {
            let mv = all[k];
            if board.piece_on(mv.to()).is_some() || mv.flags() == FLAG_EP_CAPTURE {
                assert(crate::board::move_in_range(*board, all@[k as int]));
                moves.push(mv);
            }
            k = k + 1;
        }
        let ghost unsorted = moves@;
        proof {
            if unsorted.len() == 0 && has_capture(*board) {
                let j = choose|j: int| 0 <= j < legal_list(*board).len() && is_capture_move(*board, legal_list(*board)[j]);
                assert(!is_capture_move(*board, all@[j]));
            }
        }
        self.order_moves(board, &mut moves, Move::default(), 0);
        proof {
            lemma_perm_in_range(*board, unsorted, moves@);
            unsorted.to_multiset_ensures();
            moves@.to_multiset_ensures();
        }
        let mut i: usize = 0;
        while i < moves.len()
            invariant
                i <= moves@.len(),
                self.wf(),
                self.tt == old(self).tt,
                self.killer == old(self).killer,
                self.history == old(self).history,
                valid(*board),
                all_in_range(*board, moves@),
                qply < 8,
                -8_000_000 <= stand_pat <= 8_000_000,
                kept(*old(info), *info),
                alpha >= alpha_in && alpha >= stand_pat,
                old(info).nodes < u64::MAX ==> info.nodes > old(info).nodes,
                alpha_in < beta ==> alpha < beta,
                old(info).time_limit_ms == 0 && !old(info).stop ==> !info.stop,
                (qply >= 8 || !has_king(*board) || !has_capture(*board)) ==> moves@.len() == 0,
                alpha == max_i32(alpha_in, stand_pat) || i > 0,
                stand_pat < beta,
                stand_pat + DELTA_MARGIN >= alpha_in,
                stand_pat == stand_pat_of(old(self).eval_cache@, *board),
            decreases moves@.len() - i,
        {
            let mv = moves[i];
            let mut skip = false;
            // Per-capture delta pruning: skip if winning this piece can't raise alpha
            if let Some((_, captured)) = board.piece_on(mv.to()) {
                proof {
                    assert(forall|j: int| 0 <= j < 6 ==> 100 <= #[trigger] PIECE_VALUE[j] <= 20000);
                }
                if stand_pat + PIECE_VALUE[captured.index()] + 200 < alpha {
                    skip = true;
                }
            }
            // SEE pruning: skip captures that lose material at this square.
            // Skip only for non-EP captures (SEE doesn't model EP victim correctly).
            if !skip && mv.flags() != FLAG_EP_CAPTURE && see(board, mv) < 0 {
                skip = true;
            }
            if !skip {
                info.check_time();
                if info.stop {
                    return 0;
                }
                assert(crate::board::move_in_range(*board, moves@[i as int]));
                let child = board.make_move(mv);
                let ghost before = *info;
                let s = self.quiescence(&child, neg(beta), neg(alpha), qply + 1, info);
                proof {
                    lemma_kept_trans(*old(info), before, *info);
                }
                let score = neg(s);
                if score >= beta {
                    return beta;
                }
                if score > alpha {
                    alpha = score;
                }
            }
            i = i + 1;
        }
        alpha
    }
}


/// `x.abs() < bound`, with `abs` as a release build computes it: the
/// absolute value of `i32::MIN` wraps to itself.
fn abs_below(x: i32, bound: i32) -> (r: bool)
    requires
        bound > 0,
    ensures
        r == (x == i32::MIN || (-bound < x && x < bound)),
{
    x == i32::MIN || (-bound < x && x < bound)
}

/// Clamps a late-move reduction to `1..=depth - 1`.
fn clamp_reduction(r: i32, depth: i32) -> (out: i32)
    requires
        depth >= 2,
    ensures
        1 <= out <= depth - 1,
        out == (if r < 1 {
            1
        } else if r > depth - 1 {
            depth - 1
        } else {
            r as int
        }),
{
    let r1 = if r < 1 {
        1
    } else {
        r
    };
    if r1 > depth - 1 {
        depth - 1
    } else {
        r1
    }
}

/// Below the root a position is scored as a draw by the fifty-move rule,
/// by insufficient material, or when it occurred before in the game or on
/// the way to it.
pub open spec fn forced_draw(b: Board, ply: usize, history: Seq<u64>) -> bool {
    ply > 0 && (b.halfmove >= 100 || insufficient_material_spec(b) || history.contains(b.zobrist))
}

/// A node that the search scores as mated straight away: no forced draw,
/// nothing in the table for the position, depth left above the last ply,
/// and the side to move in check without a legal move.
pub open spec fn mated_node(entries: Seq<Option<TTEntry>>, b: Board, depth: i32, ply: usize, history: Seq<u64>) -> bool {
    &&& !forced_draw(b, ply, history)
    &&& probe_spec(entries, b.zobrist) is None
    &&& depth > 0
    &&& ply < PLY_LIMIT
    &&& checked(b)
    &&& legal_list(b).len() == 0
}

/// A node that the search scores as a draw by stalemate: no forced draw,
/// nothing in the table for the position, one or two plies left (so no
/// null-move search), the side to move has its king, is not in check and
/// has no legal move, and the static evaluation lies inside the margins of
/// reverse futility pruning, razoring and futility pruning.
pub open spec fn stalemate_node(
    entries: Seq<Option<TTEntry>>,
    cache: Seq<(u64, i32)>,
    b: Board,
    alpha: i32,
    beta: i32,
    depth: i32,
    ply: usize,
    history: Seq<u64>,
) -> bool {
    let sp = stand_pat_of(cache, b);
    &&& !forced_draw(b, ply, history)
    &&& probe_spec(entries, b.zobrist) is None
    &&& 1 <= depth <= 2
    &&& ply < PLY_LIMIT
    &&& has_king(b)
    &&& !checked(b)
    &&& legal_list(b).len() == 0
    &&& sp - 120 * depth < beta
    &&& sp + (if depth == 1 { 200int } else { 400int }) > alpha
}

/// A stalemated node at any depth that no pruning takes away: no forced
/// draw, nothing in the table for the position, depth left, the side to
/// move has its king, is not in check and has no legal move; the static
/// evaluation is not far enough above beta for reverse futility pruning nor
/// far enough below alpha for razoring or futility pruning; and no
/// null-move search is due (none allowed, under three plies left, or no
/// queen or rook for the side to move).
pub open spec fn stalemate_search_node(
    entries: Seq<Option<TTEntry>>,
    cache: Seq<(u64, i32)>,
    b: Board,
    alpha: i32,
    beta: i32,
    depth: i32,
    ply: usize,
    null_allowed: bool,
    history: Seq<u64>,
) -> bool {
    let sp = stand_pat_of(cache, b);
    let us = color_index(b.side);
    &&& !forced_draw(b, ply, history)
    &&& probe_spec(entries, b.zobrist) is None
    &&& depth >= 1
    &&& ply < PLY_LIMIT
    &&& has_king(b)
    &&& !checked(b)
    &&& legal_list(b).len() == 0
    &&& !(depth <= 7 && sp - 120 * depth >= beta)
    &&& !(depth <= 3 && sp + 250 + 200 * depth <= alpha)
    &&& !(depth <= 2 && sp + (if depth == 1 { 200int } else { 400int }) <= alpha)
    &&& !(null_allowed && depth >= 3 && !(b.pieces[us][4] == 0 && b.pieces[us][3] == 0))
}

/// A cutoff on what the table held for the position before the search: an
/// entry at least as deep that is exact, a lower bound at or above beta, or
/// an upper bound at or below alpha (which gives alpha).
pub open spec fn table_cutoff(entries: Seq<Option<TTEntry>>, z: u64, alpha: i32, beta: i32, depth: i32, r: i32) -> bool {
    match probe_spec(entries, z) {
        Some(e) => e.depth >= depth && match e.flag {
            TTFlag::Exact => r == e.score,
            TTFlag::Lower => e.score >= beta && r == e.score,
            TTFlag::Upper => e.score <= alpha && r == alpha,
        },
        None => false,
    }
}

/// The table now holds for the position an entry of this depth with the
/// result as its score, and its move is the null move or a legal move.
pub open spec fn stored_result(entries: Seq<Option<TTEntry>>, b: Board, depth: i32, r: i32) -> bool {
    match probe_spec(entries, b.zobrist) {
        Some(e) => e.depth == depth && e.score == r && (e.best_move == null_move() || legal_list(b).contains(
            e.best_move,
        )),
        None => false,
    }
}

/// How a node's search can end: a draw or stop (0), a mate score for this
/// ply, beta from a null-move cutoff, a cutoff on the table, a result
/// found with the table untouched (quiescence and the static-evaluation
/// prunings), or the searched result, stored in the table for the position.
pub open spec fn node_outcome(
    before: Seq<Option<TTEntry>>,
    after: Seq<Option<TTEntry>>,
    b: Board,
    alpha: i32,
    beta: i32,
    depth: i32,
    ply: usize,
    r: i32,
) -> bool {
    ||| r == 0
    ||| r == ply - MATE_SCORE
    ||| r == beta
    ||| after == before
    ||| table_cutoff(before, b.zobrist, alpha, beta, depth, r)
    ||| stored_result(after, b, depth, r)
}

impl Searcher {
    /// Alpha-beta search of `board` to `depth` plies at `ply` plies below
    /// the root, in the window `alpha..beta`, with draws by the fifty-move
    /// rule, insufficient material and repetition, table cutoffs, reverse
    /// futility pruning, razoring, null-move pruning, futility pruning,
    /// singular extensions, late-move pruning and reductions, and check
    /// extensions. A node `PLY_LIMIT` or more plies deep, or one whose node
    /// count reaches `u64::MAX`, is scored by quiescence; a node `MAX_PLY` or
    /// more plies deep records no killer move.
    ///
    /// A search that was already stopped returns 0 and touches nothing; any
    /// search leaves the game history, the excluded move and the limits as
    /// it found them.
    #[verifier::rlimit(60)]
    fn alpha_beta<E: SearchEnv>(
        &mut self,
        board: &Board,
        alpha_in: i32,
        beta: i32,
        depth: i32,
        ply: usize,
        null_allowed: bool,
        info: &mut SearchInfo<E>,
    ) -> (r: i32)
        requires
            old(self).wf(),
            valid(*board),
        ensures
            final(self).wf(),
            kept(*old(info), *final(info)),
            old(info).stop ==> r == 0 && *final(info) == *old(info) && *final(self) == *old(self),
            forced_draw(*board, ply, old(info).history@) ==> r == 0,
            !final(info).stop && !forced_draw(*board, ply, old(info).history@) && probe_spec(
                old(self).tt.entries(),
                board.zobrist,
            ) is None && depth > 0 && ply < PLY_LIMIT && old(info).nodes + 1 < u64::MAX && checked(*board)
                && legal_list(*board).len() == 0 ==> r == ply - MATE_SCORE,
            old(info).time_limit_ms == 0 && !old(info).stop && old(info).nodes + 1 < u64::MAX && mated_node(
                old(self).tt.entries(),
                *board,
                depth,
                ply,
                old(info).history@,
            ) ==> r == ply - MATE_SCORE && *final(self) == *old(self) && !final(info).stop && final(info).nodes
                == old(info).nodes + 1,
            old(info).time_limit_ms == 0 && !old(info).stop ==> !final(info).stop,
            old(info).nodes + 1 < u64::MAX && stalemate_node(
                old(self).tt.entries(),
                old(self).eval_cache@,
                *board,
                alpha_in,
                beta,
                depth,
                ply,
                old(info).history@,
            ) ==> r == 0,
            old(info).nodes + 1 < u64::MAX && stalemate_search_node(
                old(self).tt.entries(),
                old(self).eval_cache@,
                *board,
                alpha_in,
                beta,
                depth,
                ply,
                null_allowed,
                old(info).history@,
            ) ==> r == 0 && final(self).tt == old(self).tt && stand_pat_of(final(self).eval_cache@, *board)
                == stand_pat_of(old(self).eval_cache@, *board) && (!final(info).stop ==> final(info).nodes
                == old(info).nodes + 1),
            node_outcome(old(self).tt.entries(), final(self).tt.entries(), *board, alpha_in, beta, depth, ply, r),
        decreases u64::MAX - old(info).nodes,
    {
        info.check_time();
        if info.stop {
            return 0;
        }
        info.nodes = info.nodes.saturating_add(1);

        // ── Forced draws (50-move, insufficient material, repetition) ─────────
        // Only return draw if not at the root — root must always pick a real move.
        if ply > 0 {
            if board.halfmove >= 100 || insufficient_material(board) {
                return 0;
            }
            // Two-fold repetition inside search counts as a draw — opponent will
            // claim the third by repeating again.
            if contains_key(&info.history, board.zobrist) {
                return 0;
            }
        }

        // TT probe — keep entry for singular probing later in this node.
        let in_excluded_search = info.excluded_move != Move::default() && info.excluded_ply == ply;
        let mut tt_move = Move::default();
        let mut tt_depth = 0i32;
        let mut tt_score = 0i32;
        let mut tt_flag_opt: Option<TTFlag> = None;
        if let Some(entry) = self.tt.probe(board.zobrist) {
            // Skip TT cutoffs when we're verifying a singular candidate at this ply.
            if !in_excluded_search && entry.depth >= depth {
                let score = entry.score;
                match entry.flag {
                    TTFlag::Exact => {
                        return score;
                    },
                    TTFlag::Lower => {
                        if score >= beta {
                            return score;
                        }
                    },
                    TTFlag::Upper => {
                        if score <= alpha_in {
                            return alpha_in;
                        }
                    },
                }
            }
            tt_move = entry.best_move;
            tt_depth = entry.depth;
            tt_score = entry.score;
            tt_flag_opt = Some(entry.flag);
        }

        // Quiescence at leaf, and where the ply or the node count runs out
        if depth <= 0 || ply >= PLY_LIMIT || info.nodes == u64::MAX {
            return self.quiescence(board, alpha_in, beta, 0, info);
        }

        // A side whose king is gone has lost.
        if board.pieces[board.side.index()][5] == 0 {
            return (ply as i32) - MATE_SCORE;
        }

        let in_chk = in_check(board);

        // ── Reverse futility pruning ──────────────────────────────────────────
        // If static eval is far above beta, we're very unlikely to fall below it.
        if !in_chk && depth <= 7 {
            let static_eval = self.cached_eval(board);
            let margin = 120 * depth;
            if static_eval - margin >= beta {
                return static_eval - margin;
            }
        }

        // ── Razoring ──────────────────────────────────────────────────────────
        // At low depth, if static eval + a wide margin is still well below alpha,
        // drop directly into quiescence: this position is unlikely to recover.
        if !in_chk && depth <= 3 {
            let static_eval = self.cached_eval(board);
            let razor_margin = 250 + 200 * depth;
            if static_eval + razor_margin <= alpha_in {
                let ghost before = *info;
                let q = self.quiescence(board, alpha_in.wrapping_sub(1), alpha_in, 0, info);
                proof {
                    lemma_kept_trans(*old(info), before, *info);
                }
                if q <= alpha_in {
                    return q;
                }
            }
        }

        // ── Null move pruning ─────────────────────────────────────────────────
        if null_allowed && depth >= 3 && !in_chk && !is_endgame(board) {
            let null_board = board.make_null_move();
            let ghost before = *info;
            let s = self.alpha_beta(&null_board, neg(beta), neg(beta).wrapping_add(1), depth - 3, ply + 1, false, info);
            proof {
                lemma_kept_trans(*old(info), before, *info);
            }
            let null_score = neg(s);
            if !info.stop && null_score >= beta {
                return beta;
            }
        }

        // ── Futility pruning ──────────────────────────────────────────────────
        if !in_chk && depth <= 2 {
            let static_eval = self.cached_eval(board);
            let margin = if depth == 1 {
                200
            } else {
                400
            };
            if static_eval + margin <= alpha_in {
                let ghost before = *info;
                let q = self.quiescence(board, alpha_in, beta, 0, info);
                proof {
                    lemma_kept_trans(*old(info), before, *info);
                }
                return q;
            }
        }

        let mut moves = legal_moves(board);
        if moves.len() == 0 {
            return if in_chk {
                (ply as i32) - MATE_SCORE
            } else {
                0
            };
        }
        let ghost unsorted = moves@;
        self.order_moves(board, &mut moves, tt_move, ply);
        proof {
            lemma_perm_in_range(*board, unsorted, moves@);
            assert forall|k: int| 0 <= k < moves@.len() implies legal_list(*board).contains(#[trigger] moves@[k]) by {
                lemma_same_moves(unsorted, moves@, moves@[k]);
                assert(moves@.contains(moves@[k]));
            }
        }

        let mut best_move = Move::default();
        let mut tt_flag = TTFlag::Upper;

        // ── Singular extension probe ──────────────────────────────────────────
        // If the TT move is uniquely best (all alternatives fail low against a
        // reduced-depth search at a margin below the TT score), extend it.
        let mut singular_tt_move = Move::default();
        if !in_excluded_search && depth >= 8 && tt_move != Move::default() && tt_depth >= depth - 3
            && abs_below(tt_score, MATE_SCORE / 2) {
            if let Some(flag) = tt_flag_opt {
                if flag == TTFlag::Lower || flag == TTFlag::Exact {
                    let s_beta = tt_score.wrapping_sub(depth.wrapping_mul(2));
                    let s_depth = depth / 2;
                    let saved_excl = info.excluded_move;
                    let saved_ply = info.excluded_ply;
                    let ghost before = *info;
                    info.excluded_move = tt_move;
                    info.excluded_ply = ply;
                    let s = self.alpha_beta(board, s_beta.wrapping_sub(1), s_beta, s_depth, ply, false, info);
                    info.excluded_move = saved_excl;
                    info.excluded_ply = saved_ply;
                    if !info.stop && s < s_beta {
                        singular_tt_move = tt_move;
                    }
                }
            }
        }

        // ── Late Move Pruning threshold ──────────────────────────────────────
        // At low depth, only the first LMP_LIMIT quiet moves are searched.
        let lmp_limit: usize = if depth <= 5 {
            4 + (depth as usize) * 2
        } else {
            usize::MAX
        };
        let us = board.side.index();
        let mut alpha = alpha_in;
        let mut i: usize = 0;
        while i < moves.len()
            invariant
                i <= moves@.len(),
                self.wf(),
                valid(*board),
                all_in_range(*board, moves@),
                1 <= depth,
                ply < PLY_LIMIT,
                info.nodes > old(info).nodes,
                us == color_index(board.side),
                kept(*old(info), *info),
                !old(info).stop,
                !forced_draw(*board, ply, old(info).history@),
                legal_list(*board).len() > 0,
                old(info).time_limit_ms == 0 ==> !info.stop,
                forall|k: int| 0 <= k < moves@.len() ==> legal_list(*board).contains(#[trigger] moves@[k]),
                best_move == null_move() || legal_list(*board).contains(best_move),
            decreases moves@.len() - i,
        {
            let mv = moves[i];
            assert(crate::board::move_in_range(*board, moves@[i as int]));
            // Skip the move flagged out by a singular probe at this ply.
            let mut skip = in_excluded_search && mv == info.excluded_move;

            let is_capture = board.piece_on(mv.to()).is_some();
            let is_promo = mv.flags() == FLAG_PROMO;

            // LMP: skip late quiet non-checking moves when not in check.
            if !skip && !in_chk && depth <= 5 && i >= lmp_limit && !is_capture && !is_promo
                && best_move != Move::default() {
                // Confirm it doesn't give check before pruning.
                let trial = board.make_move(mv);
                if !in_check(&trial) {
                    skip = true;
                }
            }
            if !skip {
                let child = board.make_move(mv);

                // ── Check / singular extension ───────────────────────────────────
                let gives_check = depth >= 2 && in_check(&child);
                let mut extension: i32 = if gives_check {
                    1
                } else {
                    0
                };
                if mv == singular_tt_move {
                    extension = 1;
                }

                // Push current position onto repetition history for the child's view.
                let ghost h0 = info.history@;
                info.history.push(board.zobrist);
                let ghost before = *info;
                let score: i32;
                if i == 0 {
                    let s = self.alpha_beta(&child, neg(beta), neg(alpha), depth - 1 + extension, ply + 1, true, info);
                    score = neg(s);
                } else {
                    // ── Scaled LMR ────────────────────────────────────────────────
                    // Reduce late, quiet, non-check moves by log(depth)*log(i)/2.5.
                    let reduction = if depth >= 3 && i >= 3 && !in_chk && !gives_check && child.occ[us]
                        == board.occ[us] {
                        let r = info.env.late_move_reduction(depth, i);
                        clamp_reduction(r, depth)
                    } else {
                        0
                    };
                    let reduced_depth = depth - 1 + extension - reduction;
                    let s = self.alpha_beta(&child, neg(alpha).wrapping_sub(1), neg(alpha), reduced_depth, ply + 1, true, info);
                    let s = neg(s);
                    // Re-search at full depth if LMR failed high or window missed
                    if s > alpha && (reduction > 0 || s < beta) {
                        let ghost mid = *info;
                        let s2 = self.alpha_beta(&child, neg(beta), neg(alpha), depth - 1 + extension, ply + 1, true, info);
                        proof {
                            lemma_kept_trans(before, mid, *info);
                        }
                        score = neg(s2);
                    } else {
                        score = s;
                    }
                }
                info.history.pop();
                proof {
                    assert(h0.push(board.zobrist).drop_last() =~= h0);
                }
                if info.stop {
                    return 0;
                }
                if score > alpha {
                    alpha = score;
                    best_move = mv;
                    tt_flag = TTFlag::Exact;
                    let f = mv.from();
                    let t = mv.to();
                    self.history[f][t] = self.history[f][t].wrapping_add(depth.wrapping_mul(depth));
                    if score >= beta {
                        if ply < MAX_PLY && self.killer[ply][0] != mv {
                            self.killer[ply][1] = self.killer[ply][0];
                            self.killer[ply][0] = mv;
                        }
                        let ghost slots = self.tt.entries();
                        self.tt.store(board.zobrist, depth, TTFlag::Lower, score, mv);
                        proof {
                            lemma_probe_after_store(
                                slots,
                                TTEntry { key: board.zobrist, depth, flag: TTFlag::Lower, score, best_move: mv },
                            );
                            assert(moves@[i as int] == mv);
                        }
                        return score;
                    }
                }
            }
            i = i + 1;
        }
        let ghost slots = self.tt.entries();
        self.tt.store(board.zobrist, depth, tt_flag, alpha, best_move);
        proof {
            lemma_probe_after_store(
                slots,
                TTEntry { key: board.zobrist, depth, flag: tt_flag, score: alpha, best_move },
            );
        }
        alpha
    }
}


/// `c` is the position that `make_move` gives for `mv` played in `b`.
pub open spec fn is_child(b: Board, mv: Move, c: Board) -> bool {
    &&& forall|col: int, p: int|
        0 <= col < 2 && 0 <= p < 6 ==> #[trigger] c.pieces[col][p] == piece_after(b, mv, col, p)
    &&& occ_consistent(c)
    &&& c.side == other(b.side)
    &&& c.castling == castling_after(b, mv)
    &&& c.ep_sq == ep_after(b, mv)
    &&& c.halfmove == halfmove_after(b, mv)
    &&& c.fullmove == fullmove_after(b, mv)
    &&& c.keys == b.keys
    &&& c.zobrist == move_hash(b, mv)
    &&& valid(c)
}

/// `pv` is the principal variation that the table slots `entries` give
/// from `b`: at most `n` moves, each the best move stored under the hash of
/// the position it is played in, legal there, and never from a position
/// whose hash is in `seen` or that was met before on the way. It ends at
/// the first position without such a move, or without a king for the side
/// to move.
pub open spec fn pv_from(entries: Seq<Option<TTEntry>>, b: Board, seen: Seq<u64>, n: nat, pv: Seq<Move>) -> bool
    decreases n,
{
    if n == 0 || seen.contains(b.zobrist) {
        pv.len() == 0
    } else {
        match probe_spec(entries, b.zobrist) {
            None => pv.len() == 0,
            Some(e) => if e.best_move == null_move() || !has_king(b) || !legal_list(b).contains(
                e.best_move,
            ) {
                pv.len() == 0
            } else {
                &&& pv.len() > 0
                &&& pv[0] == e.best_move
                &&& exists|c: Board|
                    #[trigger] is_child(b, e.best_move, c) && pv_from(
                        entries,
                        c,
                        seen.push(b.zobrist),
                        (n - 1) as nat,
                        pv.drop_first(),
                    )
            },
        }
    }
}

/// Whether `mv` is one of `moves`.
pub fn contains_move(moves: &Vec<Move>, mv: Move) -> (r: bool)
    ensures
        r == moves@.contains(mv),
{
    let mut i: usize = 0;
    while i < moves.len()
        invariant
            i <= moves.len(),
            forall|j: int| 0 <= j < i ==> moves@[j] != mv,
        decreases moves.len() - i,
    {
        if moves[i] == mv {
            return true;
        }
        i = i + 1;
    }
    false
}

impl Searcher {
    /// Walk TT from `board` to extract the principal variation.  Stops on
    /// missing entry, illegal move, or repeat zobrist (cycle guard).
    #[verifier::rlimit(80)]
    pub fn extract_pv(&self, board: &Board, max_len: usize) -> (pv: Vec<Move>)
        requires
            self.wf(),
            valid(*board),
        ensures
            pv_from(self.tt.entries(), *board, Seq::empty(), max_len as nat, pv@),
    {
        let ghost entries = self.tt.entries();
        let mut pv: Vec<Move> = Vec::with_capacity(max_len);
        let mut b = board.clone();
        let mut seen: Vec<u64> = Vec::new();
        let mut k: usize = 0;
        while k < max_len
            invariant
                k <= max_len,
                self.wf(),
                entries == self.tt.entries(),
                valid(b),
                forall|tail: Seq<Move>|
                    #[trigger] pv_from(entries, b, seen@, (max_len - k) as nat, tail) ==> pv_from(
                        entries,
                        *board,
                        Seq::empty(),
                        max_len as nat,
                        pv@ + tail,
                    ),
            decreases max_len - k,
        {
            let ghost n = (max_len - k) as nat;
            if contains_key(&seen, b.zobrist) {
                assert(pv_from(entries, b, seen@, n, Seq::empty()));
                assert(pv@ + Seq::<Move>::empty() =~= pv@);
                return pv;
            }
            let entry = match self.tt.probe(b.zobrist) {
                Some(e) => e,
                None => {
                    assert(pv_from(entries, b, seen@, n, Seq::empty()));
                    assert(pv@ + Seq::<Move>::empty() =~= pv@);
                    return pv;
                },
            };
            let mv = entry.best_move;
            if mv == Move::default() || b.pieces[b.side.index()][5] == 0 {
                assert(pv_from(entries, b, seen@, n, Seq::empty()));
                assert(pv@ + Seq::<Move>::empty() =~= pv@);
                return pv;
            }
            let legal = legal_moves(&b);
            if !contains_move(&legal, mv) {
                assert(pv_from(entries, b, seen@, n, Seq::empty()));
                assert(pv@ + Seq::<Move>::empty() =~= pv@);
                return pv;
            }
            proof {
                let j = choose|j: int| 0 <= j < legal@.len() && legal@[j] == mv;
                assert(crate::board::move_in_range(b, legal@[j]));
            }
            let child = b.make_move(mv);
            let ghost old_pv = pv@;
            let ghost old_seen = seen@;
            let ghost old_b = b;
            proof {
                assert forall|tail: Seq<Move>|
                    #[trigger] pv_from(entries, child, old_seen.push(old_b.zobrist), (n - 1) as nat, tail)
                        implies pv_from(entries, *board, Seq::empty(), max_len as nat, old_pv.push(mv) + tail) by {
                    let t2 = seq![mv] + tail;
                    assert(t2.drop_first() =~= tail);
                    assert(is_child(old_b, mv, child));
                    assert(pv_from(entries, old_b, old_seen, n, t2));
                    assert(old_pv + t2 =~= old_pv.push(mv) + tail);
                }
            }
            seen.push(b.zobrist);
            pv.push(mv);
            b = child;
            k = k + 1;
        }
        assert(pv_from(entries, b, seen@, (max_len - k) as nat, Seq::empty()));
        assert(pv@ + Seq::<Move>::empty() =~= pv@);
        pv
    }
}


/// The best move the table holds for a hash, when it holds one that is not
/// the null move.
pub open spec fn table_move(entries: Seq<Option<TTEntry>>, z: u64) -> Option<Move> {
    match probe_spec(entries, z) {
        Some(e) => if e.best_move != null_move() {
            Some(e.best_move)
        } else {
            None
        },
        None => None,
    }
}

/// A root stalemated for the side to move: nothing in the table for it, its
/// king on the board and not in check, no legal move, a static evaluation
/// inside the pruning margins of every depth, and no null-move search due
/// (under three plies, or no queen or rook for the side to move).
pub open spec fn stalemated_root(entries: Seq<Option<TTEntry>>, cache: Seq<(u64, i32)>, b: Board, max_depth: u32) -> bool {
    let sp = stand_pat_of(cache, b);
    let us = color_index(b.side);
    &&& probe_spec(entries, b.zobrist) is None
    &&& has_king(b)
    &&& !checked(b)
    &&& legal_list(b).len() == 0
    &&& -900_000 <= sp <= 500
    &&& (max_depth <= 2 || (b.pieces[us][4] == 0 && b.pieces[us][3] == 0))
}

/// The last depth iterative deepening goes to: `max_depth`, or without end
/// (up to `u32::MAX`) when it is 0.
pub open spec fn last_depth(max_depth: u32) -> u32 {
    if max_depth == 0 {
        u32::MAX
    } else {
        max_depth
    }
}

impl Searcher {
    /// Iterative deepening — returns (best_move, score). Each depth is
    /// searched with an aspiration window around the previous score that
    /// widens on failure; each finished depth takes the best move from the
    /// table and is reported to the environment with its principal
    /// variation. A stop ends the search with the last finished depth's
    /// result.
    pub fn search<E: SearchEnv>(&mut self, board: &Board, info: &mut SearchInfo<E>) -> (r: (Move, i32))
        requires
            old(self).wf(),
            valid(*board),
        ensures
            final(self).wf(),
            final(info).history@ == old(info).history@,
            final(info).excluded_move == old(info).excluded_move,
            final(info).excluded_ply == old(info).excluded_ply,
            final(info).max_depth == old(info).max_depth,
            final(info).time_limit_ms == old(info).time_limit_ms,
            1 <= final(info).depth <= last_depth(old(info).max_depth),
            old(info).stop ==> final(info).stop && r.0 == null_move() && r.1 == -INF,
            !final(info).stop ==> final(info).depth == last_depth(old(info).max_depth),
            old(info).time_limit_ms == 0 && !old(info).stop && old(info).nodes < 0x8000_0000_0000_0000 && 0 < old(info).max_depth <= 0x7FFF_FFFF
                && mated_node(old(self).tt.entries(), *board, 1, 0, old(info).history@) ==> r.0
                == null_move() && r.1 == -MATE_SCORE && *final(self) == *old(self) && !final(info).stop,
            old(info).time_limit_ms == 0 && !old(info).stop && old(info).nodes < 0x8000_0000_0000_0000 && 0
                < old(info).max_depth <= 3 && stalemated_root(
                old(self).tt.entries(),
                old(self).eval_cache@,
                *board,
                old(info).max_depth,
            ) ==> r.0 == null_move() && r.1 == 0 && final(self).tt == old(self).tt && !final(info).stop,
            old(info).time_limit_ms == 0 && !old(info).stop ==> !final(info).stop,
            !final(info).stop ==> (table_move(final(self).tt.entries(), board.zobrist) matches Some(m) ==> r.0 == m),
    {
        let ghost mated = old(info).time_limit_ms == 0 && !old(info).stop && old(info).nodes < 0x8000_0000_0000_0000
            && 0 < old(info).max_depth <= 0x7FFF_FFFF && mated_node(old(self).tt.entries(), *board, 1, 0, old(info).history@);
        let ghost stale = old(info).time_limit_ms == 0 && !old(info).stop && old(info).nodes < 0x8000_0000_0000_0000
            && 0 < old(info).max_depth <= 3 && stalemated_root(
            old(self).tt.entries(),
            old(self).eval_cache@,
            *board,
            old(info).max_depth,
        );
        let ghost sp0 = stand_pat_of(old(self).eval_cache@, *board);
        let mut best_move = Move::default();
        let mut best_score = -INF;
        let last: u32 = if info.max_depth == 0 {
            u32::MAX
        } else {
            info.max_depth
        };
        let mut depth: u32 = 0;
        while depth < last
            invariant_except_break
                depth > 0 ==> !info.stop,
                old(info).stop ==> depth == 0,
                depth > 0 ==> (table_move(self.tt.entries(), board.zobrist) matches Some(m) ==> best_move == m),
            invariant
                old(info).time_limit_ms == 0 && !old(info).stop ==> !info.stop,
                depth <= last,
                last == last_depth(old(info).max_depth),
                self.wf(),
                valid(*board),
                info.history@ == old(info).history@,
                info.excluded_move == old(info).excluded_move,
                info.excluded_ply == old(info).excluded_ply,
                info.max_depth == old(info).max_depth,
                info.time_limit_ms == old(info).time_limit_ms,
                depth > 0 ==> info.depth == depth,
                old(info).stop ==> info.stop && best_move == null_move() && best_score == -INF,
                mated == (old(info).time_limit_ms == 0 && !old(info).stop && old(info).nodes
                    < 0x8000_0000_0000_0000 && 0 < old(info).max_depth <= 0x7FFF_FFFF && mated_node(old(self).tt.entries(), *board, 1, 0, old(info).history@)),
                mated ==> *self == *old(self) && !info.stop && best_move == null_move() && (depth > 0
                    ==> best_score == -MATE_SCORE) && last <= 0x7FFF_FFFF && info.nodes == old(info).nodes
                    + depth,
                stale == (old(info).time_limit_ms == 0 && !old(info).stop && old(info).nodes
                    < 0x8000_0000_0000_0000 && 0 < old(info).max_depth <= 3 && stalemated_root(
                    old(self).tt.entries(),
                    old(self).eval_cache@,
                    *board,
                    old(info).max_depth,
                )),
                stale ==> self.tt == old(self).tt && stand_pat_of(self.eval_cache@, *board) == sp0 && !info.stop
                    && best_move == null_move() && (depth > 0 ==> best_score == 0) && last <= 3
                    && info.nodes == old(info).nodes + depth && stalemated_root(
                    self.tt.entries(),
                    self.eval_cache@,
                    *board,
                    old(info).max_depth,
                ) && last == old(info).max_depth,
            ensures
                1 <= depth <= last,
                info.depth == depth,
                !info.stop ==> depth == last,
                !info.stop ==> (table_move(self.tt.entries(), board.zobrist) matches Some(m) ==> best_move == m),
            decreases last - depth,
        {
            depth = depth + 1;
            info.depth = depth;
            let d = depth as i32;
            proof {
                if mated {
                    assert(d as int == depth as int);
                    assert(mated_node(self.tt.entries(), *board, d, 0, info.history@));
                }
                if stale {
                    assert(d as int == depth as int);
                    assert(stalemate_search_node(
                        self.tt.entries(),
                        self.eval_cache@,
                        *board,
                        (-INF) as i32,
                        INF,
                        d,
                        0,
                        true,
                        info.history@,
                    ));
                }
            }

            // ── Aspiration windows with gradual widening ──────────────────────
            let score: i32;
            if depth >= 4 && abs_below(best_score, MATE_SCORE / 2) {
                let mut window = 25i32;
                let mut lo = best_score.wrapping_sub(window);
                let mut hi = best_score.wrapping_add(window);
                let mut res = 0i32;
                loop
                    invariant_except_break
                        25 <= window <= 600,
                    invariant
                        self.wf(),
                        valid(*board),
                        info.history@ == old(info).history@,
                        info.excluded_move == old(info).excluded_move,
                        info.excluded_ply == old(info).excluded_ply,
                        info.max_depth == old(info).max_depth,
                        info.time_limit_ms == old(info).time_limit_ms,
                        info.depth == depth,
                        old(info).stop ==> info.stop,
                        old(info).time_limit_ms == 0 && !old(info).stop ==> !info.stop,
                    decreases 600 - window,
                {
                    let s = self.alpha_beta(board, lo, hi, d, 0, true, info);
                    if info.stop {
                        res = s;
                        break;
                    }
                    if s <= lo {
                        window = window * 2;
                        lo = s.wrapping_sub(window);
                        let h = hi.wrapping_add(10);
                        hi = if h < INF {
                            h
                        } else {
                            INF
                        };
                    } else if s >= hi {
                        window = window * 2;
                        hi = s.wrapping_add(window);
                    } else {
                        res = s;
                        break;
                    }
                    if window > 600 {
                        res = self.alpha_beta(board, -INF, INF, d, 0, true, info);
                        break;
                    }
                }
                score = res;
            } else {
                score = self.alpha_beta(board, -INF, INF, d, 0, true, info);
            }

            if info.stop {
                break;
            }
            best_score = score;

            // Retrieve best move from TT
            if let Some(entry) = self.tt.probe(board.zobrist) {
                if entry.best_move != Move::default() {
                    best_move = entry.best_move;
                }
            }

            let pv = self.extract_pv(board, depth as usize);
            info.env.report(depth, score, info.nodes, &pv);
        }
        (best_move, best_score)
    }
}

} // verus!
