use gambit::board::Board;
use gambit::eval::{evaluate, insufficient_material, is_endgame, mvv_lva, see, INF, MATE_SCORE};
use gambit::movegen::{legal_moves, parse_uci_move};
use gambit::search::{SearchEnv, SearchInfo, Searcher};
use gambit::tt::{TTFlag, TranspositionTable};
use gambit::types::{Move, FLAG_NONE};

struct QuietEnv {
    depths: Vec<u32>,
}

impl SearchEnv for QuietEnv {
    fn elapsed_ms(&self) -> u64 {
        0
    }
    fn late_move_reduction(&self, depth: i32, move_index: usize) -> i32 {
        (0.75 + (depth as f64).ln() * (move_index as f64).ln() / 2.5) as i32
    }
    fn report(&mut self, depth: u32, _score: i32, _nodes: u64, _pv: &Vec<Move>) {
        self.depths.push(depth);
    }
}

fn env() -> QuietEnv {
    QuietEnv { depths: Vec::new() }
}

#[test]
fn table_slots_fill_the_megabytes() {
    assert_eq!(std::mem::size_of::<Option<gambit::tt::TTEntry>>(), gambit::tt::SLOT_BYTES);
    let t = TranspositionTable::new(1);
    assert_eq!(t.len(), 1024 * 1024 / 24);
}

#[test]
fn table_probe_after_store() {
    let mut t = TranspositionTable::new(1);
    let m = Move::new(12, 28, FLAG_NONE, 0);
    assert!(t.probe(12345).is_none());
    t.store(12345, 3, TTFlag::Exact, 42, m);
    let e = t.probe(12345).expect("stored");
    assert_eq!(e.score, 42);
    assert_eq!(e.depth, 3);
    assert_eq!(e.best_move, m);
    // Same slot, other key: not found, and a store replaces.
    let other = 12345 + t.len() as u64;
    assert!(t.probe(other).is_none());
    t.store(other, 1, TTFlag::Lower, -7, m);
    assert!(t.probe(12345).is_none());
    assert_eq!(t.probe(other).map(|e| e.score), Some(-7));
}

#[test]
fn evaluation_of_start_is_tempo() {
    let b = Board::startpos();
    assert_eq!(evaluate(&b), 10);
    let bb = Board::from_fen("rnbqkbnr/pppppppp/8/8/8/8/PPPPPPPP/RNBQKBNR b KQkq - 0 1");
    assert_eq!(evaluate(&bb), 10);
}

#[test]
fn evaluation_prefers_material() {
    let up = Board::from_fen("4k3/8/8/8/8/8/8/3QK3 w - - 0 1");
    let down = Board::from_fen("3qk3/8/8/8/8/8/8/4K3 w - - 0 1");
    assert!(evaluate(&up) > 500);
    assert!(evaluate(&down) < -500);
}

#[test]
fn capture_values() {
    let b = Board::from_fen("4k3/8/8/3q4/4P3/8/8/4K3 w - - 0 1");
    let m = parse_uci_move(&b, "e4d5").expect("pawn takes queen");
    assert_eq!(mvv_lva(&b, m), 8900);
    assert_eq!(see(&b, m), 900);
    let quiet = parse_uci_move(&b, "e1f1").expect("king step");
    assert_eq!(mvv_lva(&b, quiet), 0);
}

#[test]
fn material_flags() {
    assert!(insufficient_material(&Board::from_fen("4k3/8/8/8/8/8/8/2B1K3 w - - 0 1")));
    assert!(!insufficient_material(&Board::startpos()));
    assert!(is_endgame(&Board::from_fen("4k3/8/8/8/8/8/8/2B1K3 w - - 0 1")));
    assert!(!is_endgame(&Board::startpos()));
}

#[test]
fn search_finds_back_rank_mate() {
    let b = Board::from_fen("6k1/5ppp/8/8/8/8/8/R5K1 w - - 0 1");
    let mut s = Searcher::new();
    let mut info = SearchInfo::new_depth(2, env());
    let (m, score) = s.search(&b, &mut info);
    assert_eq!(m.to_uci(), "a1a8");
    assert_eq!(m, Move::new(0, 56, FLAG_NONE, 0));
    assert_eq!(score, MATE_SCORE - 1);
    assert_eq!(info.env.depths, vec![1, 2]);
    assert!(info.history.is_empty());
}

#[test]
fn search_returns_a_legal_move() {
    let b = Board::startpos();
    let mut s = Searcher::new();
    let mut info = SearchInfo::new_depth(3, env());
    info.history = vec![1, 2, 3];
    let (m, score) = s.search(&b, &mut info);
    assert!(legal_moves(&b).contains(&m));
    assert!(score > -INF && score < INF);
    assert_eq!(info.history, vec![1, 2, 3]);
    assert_eq!(info.depth, 3);
    let pv = s.extract_pv(&b, 3);
    assert!(!pv.is_empty());
    assert_eq!(pv[0], m);
}

#[test]
fn stopped_search_returns_nothing() {
    let b = Board::startpos();
    let mut s = Searcher::new();
    let mut info = SearchInfo::new_depth(3, env());
    info.stop = true;
    let (m, score) = s.search(&b, &mut info);
    assert_eq!(m, Move::default());
    assert_eq!(score, -INF);
    assert!(info.env.depths.is_empty());
}

#[test]
fn time_limited_search_reports_depths() {
    let b = Board::startpos();
    let mut s = Searcher::new();
    let mut info = SearchInfo::new_time_ms(1_000_000, env());
    info.max_depth = 2;
    let (m, _) = s.search(&b, &mut info);
    assert!(legal_moves(&b).contains(&m));
    assert_eq!(info.env.depths, vec![1, 2]);
}

#[test]
fn cached_eval_matches_evaluate() {
    let b = Board::from_fen("r1bqkbnr/pppp1ppp/2n5/4p3/2B1P3/5N2/PPPP1PPP/RNBQK2R b KQkq - 3 3");
    let mut s = Searcher::new();
    assert_eq!(s.cached_eval(&b), evaluate(&b));
    assert_eq!(s.cached_eval(&b), evaluate(&b));
}

#[test]
fn order_moves_puts_table_move_first() {
    let b = Board::startpos();
    let s = Searcher::new();
    let mut moves = legal_moves(&b);
    let tt = parse_uci_move(&b, "g1f3").unwrap();
    s.order_moves(&b, &mut moves, tt, 0);
    assert_eq!(moves[0], tt);
    assert_eq!(moves.len(), 20);
}

#[test]
fn extract_pv_stops_on_empty_table() {
    let b = Board::startpos();
    let s = Searcher::new();
    assert!(s.extract_pv(&b, 5).is_empty());
}

#[test]
fn clear_for_search_forgets_killers() {
    let mut s = Searcher::new();
    s.killer[3][0] = Move::new(1, 2, FLAG_NONE, 0);
    s.history[1][2] = 99;
    s.clear_for_search();
    assert_eq!(s.killer[3][0], Move::default());
    assert_eq!(s.history[1][2], 0);
}

#[test]
fn fifty_move_rule_draws_below_the_root() {
    // Every reply keeps counting the halfmove clock past 100: all score 0.
    let b = Board::from_fen("4k3/8/8/8/8/8/8/3QK3 w - - 150 80");
    let mut s = Searcher::new();
    let mut info = SearchInfo::new_depth(2, env());
    let (m, score) = s.search(&b, &mut info);
    assert_eq!(score, 0);
    assert!(legal_moves(&b).contains(&m));
}

#[test]
fn side_without_king_scores_as_mated() {
    let b = Board::from_fen("8/8/8/8/8/8/8/4K3 b - - 0 1");
    let mut s = Searcher::new();
    let mut info = SearchInfo::new_depth(1, env());
    let (m, score) = s.search(&b, &mut info);
    assert_eq!(m, Move::default());
    assert_eq!(score, -MATE_SCORE);
}

#[test]
fn evaluation_flips_with_the_side_to_move() {
    let pairs = [
        (
            "r1bqkb1r/pppp1ppp/2n2n2/4p3/2B1P3/5N2/PPPP1PPP/RNBQK2R w KQkq - 4 4",
            "r1bqkb1r/pppp1ppp/2n2n2/4p3/2B1P3/5N2/PPPP1PPP/RNBQK2R b KQkq - 4 4",
        ),
        ("4k3/8/8/8/8/8/8/3QK3 w - - 0 1", "4k3/8/8/8/8/8/8/3QK3 b - - 0 1"),
    ];
    for (w, b) in pairs.iter() {
        let bw = Board::from_fen(w);
        let bb = Board::from_fen(b);
        assert_eq!(evaluate(&bw) + evaluate(&bb), 20);
    }
}

#[test]
fn table_keeps_entries_of_other_slots_over_a_sequence_of_stores() {
    let mut t = TranspositionTable::new(1);
    let n = t.len() as u64;
    let m = Move::new(12, 28, FLAG_NONE, 0);
    let keys = [5u64, 6, 7, 5 + n, 8];
    for (i, k) in keys.iter().enumerate() {
        t.store(*k, i as i32, TTFlag::Exact, 10 * i as i32, m);
    }
    // 5 was overwritten in its slot by 5 + n; the others are found.
    assert!(t.probe(5).is_none());
    assert_eq!(t.probe(6).map(|e| e.score), Some(10));
    assert_eq!(t.probe(7).map(|e| e.score), Some(20));
    assert_eq!(t.probe(5 + n).map(|e| e.depth), Some(3));
    assert_eq!(t.probe(8).map(|e| e.key), Some(8));
    let fresh = TranspositionTable::new(1);
    for k in keys.iter() {
        assert!(fresh.probe(*k).is_none());
    }
}
