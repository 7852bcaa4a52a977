use gambit::board::Board;
use gambit::book::{fen_key, probe};
use gambit::engine::{finalize_move, history_is_readable, Engine, BOOK_SALT_SEED};
use gambit::movegen::legal_moves;
use gambit::search::SearchEnv;
use gambit::types::{Move, FLAG_NONE};

struct QuietEnv;

impl SearchEnv for QuietEnv {
    fn elapsed_ms(&self) -> u64 {
        0
    }
    fn late_move_reduction(&self, depth: i32, move_index: usize) -> i32 {
        (0.75 + (depth as f64).ln() * (move_index as f64).ln() / 2.5) as i32
    }
    fn report(&mut self, _depth: u32, _score: i32, _nodes: u64, _pv: &Vec<Move>) {}
}

const START_FEN: &str = "rnbqkbnr/pppppppp/8/8/8/8/PPPPPPPP/RNBQKBNR w KQkq - 0 1";

#[test]
fn book_key_drops_counters() {
    assert_eq!(fen_key(START_FEN), "rnbqkbnr/pppppppp/8/8/8/8/PPPPPPPP/RNBQKBNR w KQkq -");
    assert_eq!(fen_key("8/8 w"), "8/8 w");
}

#[test]
fn book_probe_picks_by_salt() {
    assert_eq!(probe(START_FEN, 0), Some("e2e4".to_string()));
    assert_eq!(probe(START_FEN, 1), Some("d2d4".to_string()));
    assert_eq!(probe(START_FEN, 6), Some("g1f3".to_string()));
    assert_eq!(probe("4k3/8/8/8/8/8/8/4K3 w - - 0 1", 0), None);
}

#[test]
fn engine_starts_with_seed_salt() {
    let e = Engine::new();
    assert_eq!(e.book_salt, BOOK_SALT_SEED);
    assert!(e.game_history.is_empty());
}

#[test]
fn engine_plays_book_move_from_start() {
    let mut e = Engine::new();
    // The first salt step gives a salt that is 0 modulo 4: the first line move.
    assert_eq!(e.best_move(START_FEN, 3, QuietEnv), "e2e4");
    assert_eq!(
        e.book_salt,
        BOOK_SALT_SEED.wrapping_mul(6364136223846793005).wrapping_add(1442695040888963407)
    );
}

/// A clock that is always past any limit.
struct LateEnv;

impl SearchEnv for LateEnv {
    fn elapsed_ms(&self) -> u64 {
        u64::MAX
    }
    fn late_move_reduction(&self, _depth: i32, _move_index: usize) -> i32 {
        1
    }
    fn report(&mut self, _depth: u32, _score: i32, _nodes: u64, _pv: &Vec<Move>) {}
}

#[test]
fn engine_finds_mate_in_one() {
    let mut e = Engine::new();
    assert_eq!(e.best_move("6k1/5ppp/8/8/8/8/8/R5K1 w - - 0 1", 2, QuietEnv), "a1a8");
}

#[test]
fn engine_out_of_time_plays_first_legal_move() {
    let mut e = Engine::new();
    assert_eq!(e.best_move_time("6k1/5ppp/8/8/8/8/8/R5K1 w - - 0 1", 10, LateEnv), "a1b1");
}

#[test]
fn engine_answers_empty_when_mated() {
    let mut e = Engine::new();
    assert_eq!(e.best_move("R5k1/5ppp/8/8/8/8/8/6K1 b - - 0 1", 2, QuietEnv), "");
}

#[test]
fn engine_lists_legal_moves() {
    let e = Engine::new();
    let s = e.legal_moves_for(START_FEN);
    assert_eq!(s.split(',').count(), 20);
    assert!(s.starts_with("a2a3,b2b3"));
    assert_eq!(e.legal_moves_for("R5k1/5ppp/8/8/8/8/8/6K1 b - - 0 1"), "");
}

#[test]
fn engine_eval_is_from_whites_view() {
    let mut e = Engine::new();
    let w = e.eval_position("4k3/8/8/8/8/8/8/3QK3 w - - 0 1", 1, QuietEnv);
    let b = e.eval_position("4k3/8/8/8/8/8/8/3QK3 b - - 0 1", 1, QuietEnv);
    assert!(w > 500);
    assert!(b > 500);
}

#[test]
fn engine_ranks_candidates() {
    let mut e = Engine::new();
    let s = e.analyse_multi("6k1/5ppp/8/8/8/8/8/R5K1 w - - 0 1", 2, 3, QuietEnv);
    let parts: Vec<&str> = s.split(',').collect();
    assert_eq!(parts.len(), 3);
    assert!(parts[0].starts_with("a1a8:"));
    let scores: Vec<i32> = parts.iter().map(|p| p.split(':').nth(1).unwrap().parse().unwrap()).collect();
    assert!(scores[0] >= scores[1] && scores[1] >= scores[2]);
    assert_eq!(e.analyse_multi("R5k1/5ppp/8/8/8/8/8/6K1 b - - 0 1", 2, 3, QuietEnv), "");
}

#[test]
fn engine_history_hashes() {
    let mut e = Engine::new();
    let after_e4 = "rnbqkbnr/pppppppp/8/8/4P3/8/PPPP1PPP/RNBQKBNR b KQkq e3 0 1";
    let pipe = format!("{}| |{}|", START_FEN, after_e4);
    assert!(history_is_readable(&pipe));
    e.set_history(&pipe);
    assert_eq!(
        e.game_history,
        vec![Board::from_fen(START_FEN).zobrist, Board::from_fen(after_e4).zobrist]
    );
    e.set_history("");
    assert!(e.game_history.is_empty());
    assert!(!history_is_readable("rnbqkbnrrr/pppppppp/8/8/8/8/PPPPPPPP/RNBQKBNR w"));
}

#[test]
fn finalize_prefers_the_searched_move() {
    let b = Board::startpos();
    let legal = legal_moves(&b);
    assert_eq!(finalize_move(&b, legal[5]), legal[5].to_uci());
    assert_eq!(finalize_move(&b, Move::new(0, 63, FLAG_NONE, 0)), legal[0].to_uci());
    let mated = Board::from_fen("R5k1/5ppp/8/8/8/8/8/6K1 b - - 0 1");
    assert_eq!(finalize_move(&mated, Move::default()), "");
}

#[test]
fn engine_eval_of_mated_side_is_mate_score() {
    let mut e = Engine::new();
    assert_eq!(e.eval_position("R5k1/5ppp/8/8/8/8/8/6K1 b - - 0 1", 3, QuietEnv), gambit::eval::MATE_SCORE);
    assert_eq!(e.eval_position("6k1/8/8/8/8/8/5PPP/r5K1 w - - 0 1", 3, QuietEnv), -gambit::eval::MATE_SCORE);
}
