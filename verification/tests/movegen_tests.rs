use gambit::attacks::{bishop_attacks, init_attacks, knight_attacks, ray, rook_attacks};
use gambit::board::Board;
use gambit::movegen::{generate_moves, in_check, legal_moves, parse_uci_move, square_attacked};
use gambit::types::{Color, Move, FLAG_PROMO};

fn perft(b: &Board, depth: u32) -> u64 {
    if depth == 0 {
        return 1;
    }
    let mut n = 0;
    for m in legal_moves(b) {
        n += perft(&b.make_move(m), depth - 1);
    }
    n
}

#[test]
fn start_position_has_twenty_moves() {
    let b = Board::startpos();
    assert_eq!(legal_moves(&b).len(), 20);
    assert_eq!(generate_moves(&b).len(), 20);
}

#[test]
fn perft_start_position() {
    let b = Board::startpos();
    assert_eq!(perft(&b, 2), 400);
    assert_eq!(perft(&b, 3), 8902);
}

#[test]
fn perft_kiwipete() {
    let b = Board::from_fen("r3k2r/p1ppqpb1/bn2pnp1/3PN3/1p2P3/2N2Q1p/PPPBBPPP/R3K2R w KQkq - 0 1");
    assert_eq!(perft(&b, 1), 48);
    assert_eq!(perft(&b, 2), 2039);
}

#[test]
fn en_passant_is_generated() {
    let b = Board::from_fen("rnbqkbnr/ppp1p1pp/8/3pPp2/8/8/PPPP1PPP/RNBQKBNR w KQkq f6 0 3");
    let ep = parse_uci_move(&b, "e5f6").expect("en passant capture");
    assert_eq!(ep.flags(), gambit::types::FLAG_EP_CAPTURE);
    let after = b.make_move(ep);
    assert_eq!(after.piece_on(37), None);
}

#[test]
fn pinned_piece_cannot_move() {
    // The knight on e2 is pinned by the rook on e8.
    let b = Board::from_fen("4r1k1/8/8/8/8/8/4N3/4K3 w - - 0 1");
    let moves = legal_moves(&b);
    assert!(moves.iter().all(|m| m.from() != 12));
}

#[test]
fn check_detection() {
    let b = Board::from_fen("4k3/8/8/8/8/8/8/4K2r w - - 0 1");
    assert!(in_check(&b));
    assert!(square_attacked(&b, 4, Color::Black));
    assert!(!in_check(&Board::startpos()));
}

#[test]
fn parse_uci_moves() {
    let b = Board::startpos();
    let m = parse_uci_move(&b, "e2e4").expect("e2e4 is legal");
    assert_eq!(m.to_uci(), "e2e4");
    assert_eq!(parse_uci_move(&b, "e2e5"), None);
    assert_eq!(parse_uci_move(&b, "e2"), None);
    assert_eq!(parse_uci_move(&b, "\u{0}\u{0}e4"), None);
    let p = Board::from_fen("8/4P3/8/8/8/8/8/k6K w - - 0 1");
    let q = parse_uci_move(&p, "e7e8").expect("promotion");
    assert_eq!(q.flags(), FLAG_PROMO);
    assert_eq!(q.to_uci(), "e7e8q");
    assert_eq!(parse_uci_move(&p, "e7e8n").map(|m| m.to_uci()), Some("e7e8n".to_string()));
    assert_eq!(parse_uci_move(&p, "e7e8r").map(|m| m.to_uci()), Some("e7e8r".to_string()));
}

#[test]
fn attack_sets() {
    assert_eq!(knight_attacks(0), 0x0000000000020400);
    assert_eq!(rook_attacks(0, 0), 0x01010101010101FE);
    assert_eq!(bishop_attacks(0, 0), 0x8040201008040200);
    assert_eq!(rook_attacks(0, 0x0000000000000100 | 0x0000000000000004), 0x0000000000000106);
    let t = init_attacks();
    assert_eq!(t.knight[0], knight_attacks(0));
}

#[test]
fn ray_stops_at_blocker_and_edge() {
    assert_eq!(ray(0, 1, 0, u64::MAX), 0xFE);
    assert_eq!(ray(0, 1, 0x10, u64::MAX), 0x1E);
    assert_eq!(ray(7, 1, 0, u64::MAX), 0);
    assert_eq!(ray(0, 9, 0, u64::MAX), 0x8040201008040200);
    assert_eq!(ray(0, 8, 0, 0xFF00), 0x100);
}

#[test]
fn legal_move_text_round_trips() {
    let b = Board::from_fen("r3k2r/p1ppqpb1/bn2pnp1/3PN3/1p2P3/2N2Q1p/PPPBBPPP/R3K2R w KQkq - 0 1");
    for m in legal_moves(&b) {
        let back: Option<Move> = parse_uci_move(&b, &m.to_uci());
        assert_eq!(back, Some(m));
    }
}

#[test]
fn uci_text_of_every_legal_move_reads_back_as_the_move() {
    let fens = [
        "rnbqkbnr/pppppppp/8/8/8/8/PPPPPPPP/RNBQKBNR w KQkq - 0 1",
        "r3k2r/p1ppqpb1/bn2pnp1/3PN3/1p2P3/2N2Q1p/PPPBBPPP/R3K2R w KQkq - 0 1",
        "rnbqkbnr/ppp1p1pp/8/3pPp2/8/8/PPPP1PPP/RNBQKBNR w KQkq f6 0 3",
        "1n5k/P6p/8/8/8/8/6Kp/8 w - - 0 1",
        "r3k2r/8/8/8/8/8/8/R3K2R b KQkq - 0 1",
    ];
    for fen in fens.iter() {
        let b = gambit::board::Board::from_fen(fen);
        let moves = gambit::movegen::legal_moves(&b);
        assert!(!moves.is_empty());
        for mv in moves.iter() {
            assert_eq!(gambit::movegen::parse_uci_move(&b, &mv.to_uci()), Some(*mv), "{} {}", fen, mv.to_uci());
        }
    }
}
