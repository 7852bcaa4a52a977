use gambit::board::Board;
use gambit::text::{parse_u32, parse_u64, utf8_bytes};
use gambit::search::Searcher;
use gambit::uci::{
    go_is_computable, parse_position, parse_time, position_is_readable, uci_command, uci_line_is_ok, UciOutcome,
};

#[test]
fn go_with_clock() {
    assert_eq!(parse_time(&["wtime", "60000", "btime", "30000"], true), 2000);
    assert_eq!(parse_time(&["wtime", "60000", "btime", "30000"], false), 1000);
    assert_eq!(parse_time(&["wtime", "60000", "winc", "500", "movestogo", "10"], true), 6500);
    assert_eq!(parse_time(&["wtime", "1000"], true), 50);
    assert_eq!(parse_time(&["wtime", "90"], true), 50);
}

#[test]
fn go_with_move_time_or_nothing() {
    assert_eq!(parse_time(&["movetime", "500", "wtime", "60000"], true), 500);
    assert_eq!(parse_time(&[], true), 1000);
    assert_eq!(parse_time(&["infinite"], false), 1000);
    assert_eq!(parse_time(&["wtime", "abc"], true), 1000);
    assert_eq!(parse_time(&["wtime"], true), 1000);
}

#[test]
fn go_with_zero_moves_to_go_is_refused() {
    assert!(!go_is_computable(&["wtime", "1000", "movestogo", "0"], true));
    assert!(go_is_computable(&["wtime", "1000", "movestogo", "0"], false));
    assert!(go_is_computable(&["movetime", "5", "movestogo", "0"], true));
}

#[test]
fn position_startpos_with_moves() {
    let b = parse_position("startpos moves e2e4 e7e5 g1f3");
    let f = Board::from_fen("rnbqkbnr/pppp1ppp/8/4p3/4P3/5N2/PPPP1PPP/RNBQKB1R b KQkq - 1 2");
    assert_eq!(b.pieces, f.pieces);
    assert_eq!(b.zobrist, f.zobrist);
}

#[test]
fn position_from_fen_with_moves() {
    let args = "fen rnbqkbnr/pppppppp/8/8/4P3/8/PPPP1PPP/RNBQKBNR b KQkq e3 0 1 moves c7c5";
    assert!(position_is_readable(args));
    let b = parse_position(args);
    let f = Board::from_fen("rnbqkbnr/pp1ppppp/8/2p5/4P3/8/PPPP1PPP/RNBQKBNR w KQkq c6 0 2");
    assert_eq!(b.pieces, f.pieces);
    assert_eq!(b.zobrist, f.zobrist);
}

#[test]
fn position_skips_illegal_moves() {
    let b = parse_position("startpos moves e2e5 e2e4 xx");
    let f = Board::from_fen("rnbqkbnr/pppppppp/8/8/4P3/8/PPPP1PPP/RNBQKBNR b KQkq e3 0 1");
    assert_eq!(b.zobrist, f.zobrist);
    assert_eq!(parse_position("").zobrist, Board::startpos().zobrist);
    assert_eq!(parse_position("startpos e2e4").zobrist, Board::startpos().zobrist);
}

#[test]
fn position_with_bad_fen_is_refused() {
    assert!(!position_is_readable("fen 4k3/8/8/8/8/8/8/4K3 w - z9 0 1"));
    assert!(position_is_readable("startpos moves e2e4"));
}

#[test]
fn numbers_parse_like_std() {
    let v = |s: &str| s.chars().collect::<Vec<char>>();
    assert_eq!(parse_u64(&v("+12")), Some(12));
    assert_eq!(parse_u64(&v("18446744073709551615")), Some(u64::MAX));
    assert_eq!(parse_u64(&v("18446744073709551616")), None);
    assert_eq!(parse_u64(&v("")), None);
    assert_eq!(parse_u64(&v("1a")), None);
    assert_eq!(parse_u32(&v("4294967296")), None);
    for s in ["0", "+7", "123", "-1", "+", "99999999999"] {
        assert_eq!(parse_u64(&v(s)), s.parse::<u64>().ok());
    }
}

#[test]
fn utf8_matches_std() {
    for s in ["e2e4", "é2e4", "日本", "𝄞x"] {
        let chars: Vec<char> = s.chars().collect();
        assert_eq!(utf8_bytes(&chars), s.as_bytes().to_vec());
    }
}

struct QuietEnv;

impl gambit::search::SearchEnv for QuietEnv {
    fn elapsed_ms(&self) -> u64 {
        0
    }
    fn late_move_reduction(&self, _depth: i32, _move_index: usize) -> i32 {
        1
    }
    fn report(&mut self, _d: u32, _s: i32, _n: u64, _pv: &Vec<gambit::types::Move>) {}
}

fn reply(o: gambit::uci::UciOutcome) -> Vec<String> {
    match o {
        gambit::uci::UciOutcome::Reply(v) => v,
        _ => panic!("expected a reply"),
    }
}

#[test]
fn uci_commands_answer() {
    let mut b = Board::startpos();
    let mut s = Searcher::new();
    assert_eq!(reply(uci_command(&mut b, &mut s, "uci", QuietEnv)), vec!["id name Gambit", "id author Navnita", "uciok"]);
    assert_eq!(reply(uci_command(&mut b, &mut s, "  isready ", QuietEnv)), vec!["readyok"]);
    assert!(reply(uci_command(&mut b, &mut s, "   ", QuietEnv)).is_empty());
    assert!(reply(uci_command(&mut b, &mut s, "position startpos moves e2e4", QuietEnv)).is_empty());
    let f = Board::from_fen("rnbqkbnr/pppppppp/8/8/4P3/8/PPPP1PPP/RNBQKBNR b KQkq e3 0 1");
    assert_eq!(b.zobrist, f.zobrist);
    assert!(matches!(uci_command(&mut b, &mut s, "frobnicate now", QuietEnv), UciOutcome::Unknown(c) if c == "frobnicate"));
    assert!(matches!(uci_command(&mut b, &mut s, "quit", QuietEnv), UciOutcome::Quit));
    assert!(reply(uci_command(&mut b, &mut s, "ucinewgame", QuietEnv)).is_empty());
    assert_eq!(b.zobrist, Board::startpos().zobrist);
    assert!(uci_line_is_ok("go wtime 1000", b.side));
    assert!(!uci_line_is_ok("go wtime 1000 movestogo 0", b.side));
    assert!(!uci_line_is_ok("position fen 4k3/8/8/8/8/8/8/4K3 w - z9 0 1", b.side));
}

#[test]
fn uci_go_answers_a_best_move() {
    let mut b = Board::startpos();
    let mut s = Searcher::new();
    reply(uci_command(&mut b, &mut s, "position fen 6k1/5ppp/8/8/8/8/8/R5K1 w - - 0 1", QuietEnv));
    // The clock is already past the budget, so the search stops before it
    // finishes an iteration and answers the null move.
    let lines = reply(uci_command(&mut b, &mut s, "go movetime 1", LateEnv));
    assert_eq!(lines, vec!["bestmove a1a1"]);
}

/// A clock that is always past any limit.
struct LateEnv;

impl gambit::search::SearchEnv for LateEnv {
    fn elapsed_ms(&self) -> u64 {
        u64::MAX
    }
    fn late_move_reduction(&self, _depth: i32, _move_index: usize) -> i32 {
        1
    }
    fn report(&mut self, _d: u32, _s: i32, _n: u64, _pv: &Vec<gambit::types::Move>) {}
}
