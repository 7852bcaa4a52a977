use gambit::board::Board;
use gambit::types::{Color, Move, Piece, FLAG_DOUBLE_PUSH, FLAG_NONE, FLAG_PROMO};

const START_FEN: &str = "rnbqkbnr/pppppppp/8/8/8/8/PPPPPPPP/RNBQKBNR w KQkq - 0 1";

#[test]
fn move_fields_round_trip() {
    let m = Move::new(12, 28, FLAG_DOUBLE_PUSH, 0);
    assert_eq!(m.from(), 12);
    assert_eq!(m.to(), 28);
    assert_eq!(m.flags(), FLAG_DOUBLE_PUSH);
    let p = Move::new(52, 60, FLAG_PROMO, 3);
    assert_eq!(p.promo(), Piece::Queen);
    assert_eq!(Move::new(52, 60, FLAG_PROMO, 0).promo(), Piece::Knight);
}

#[test]
fn move_uci_text() {
    assert_eq!(Move::new(12, 28, FLAG_DOUBLE_PUSH, 0).to_uci(), "e2e4");
    assert_eq!(Move::new(52, 60, FLAG_PROMO, 3).to_uci(), "e7e8q");
    assert_eq!(Move::new(52, 61, FLAG_PROMO, 0).to_uci(), "e7f8n");
    assert_eq!(Move::new(6, 21, FLAG_NONE, 0).to_uci(), "g1f3");
}

#[test]
fn color_flip_twice_is_identity() {
    assert_eq!(Color::White.flip(), Color::Black);
    assert_eq!(Color::White.flip().flip(), Color::White);
}

#[test]
fn startpos_matches_start_fen() {
    let a = Board::startpos();
    let b = Board::from_fen(START_FEN);
    assert_eq!(a.pieces, b.pieces);
    assert_eq!(a.occ, b.occ);
    assert_eq!(a.all, b.all);
    assert_eq!(a.castling, 15);
    assert_eq!(b.castling, 15);
    assert_eq!(a.ep_sq, 255);
    assert_eq!(a.zobrist, b.zobrist);
    assert_ne!(a.zobrist, 0);
}

#[test]
fn piece_on_start_squares() {
    let b = Board::startpos();
    assert_eq!(b.piece_on(4), Some((Color::White, Piece::King)));
    assert_eq!(b.piece_on(59), Some((Color::Black, Piece::Queen)));
    assert_eq!(b.piece_on(8), Some((Color::White, Piece::Pawn)));
    assert_eq!(b.piece_on(30), None);
}

#[test]
fn incremental_hash_matches_fresh_hash() {
    let b = Board::startpos();
    let e4 = b.make_move(Move::new(12, 28, FLAG_DOUBLE_PUSH, 0));
    let fresh = Board::from_fen("rnbqkbnr/pppppppp/8/8/4P3/8/PPPP1PPP/RNBQKBNR b KQkq e3 0 1");
    assert_eq!(e4.ep_sq, 20);
    assert_eq!(e4.side, Color::Black);
    assert_eq!(e4.pieces, fresh.pieces);
    assert_eq!(e4.zobrist, fresh.zobrist);
    let nf6 = e4.make_move(Move::new(62, 45, FLAG_NONE, 0));
    let fresh2 = Board::from_fen("rnbqkb1r/pppppppp/5n2/8/4P3/8/PPPP1PPP/RNBQKBNR w KQkq - 1 2");
    assert_eq!(nf6.zobrist, fresh2.zobrist);
    assert_eq!(nf6.halfmove, 1);
    assert_eq!(nf6.fullmove, 2);
}

#[test]
fn castling_moves_rook_and_rights() {
    let b = Board::from_fen("r3k2r/8/8/8/8/8/8/R3K2R w KQkq - 0 1");
    let c = b.make_move(Move::new(4, 6, gambit::types::FLAG_KINGSIDE_CASTLE, 0));
    assert_eq!(c.piece_on(6), Some((Color::White, Piece::King)));
    assert_eq!(c.piece_on(5), Some((Color::White, Piece::Rook)));
    assert_eq!(c.piece_on(7), None);
    assert_eq!(c.castling, 12);
    let fresh = Board::from_fen("r3k2r/8/8/8/8/8/8/R4RK1 b kq - 1 1");
    assert_eq!(c.zobrist, fresh.zobrist);
}

#[test]
fn null_move_flips_side_and_clears_ep() {
    let b = Board::from_fen("rnbqkbnr/pppppppp/8/8/4P3/8/PPPP1PPP/RNBQKBNR b KQkq e3 0 1");
    let n = b.make_null_move();
    assert_eq!(n.side, Color::White);
    assert_eq!(n.ep_sq, 255);
    let fresh = Board::from_fen("rnbqkbnr/pppppppp/8/8/4P3/8/PPPP1PPP/RNBQKBNR w KQkq - 1 1");
    assert_eq!(n.zobrist, fresh.zobrist);
}

#[test]
fn empty_fen_gives_empty_board() {
    let b = Board::from_fen("");
    assert_eq!(b.all, 0);
    assert_eq!(b.zobrist, 0);
    assert_eq!(b.fullmove, 1);
}

#[test]
fn fen_checks() {
    assert!(gambit::fen::fen_is_readable(START_FEN));
    assert!(gambit::fen::fen_is_playable(START_FEN));
    assert!(!gambit::fen::fen_is_playable("8/8/8/8/8/8/8/8 w - - 0 1"));
    assert!(!gambit::fen::fen_is_readable("rnbqkbnrrr/pppppppp/8/8/8/8/PPPPPPPP/RNBQKBNR w KQkq - 0 1"));
    assert!(!gambit::fen::fen_is_valid("4k3/8/8/8/8/8/8/4K3 w - z9 0 1"));
}

#[test]
fn move_bit_layout_puts_promotion_before_flags() {
    assert_eq!(Move::new(0, 0, 1, 0).0, 1 << 15);
    assert_eq!(Move::new(0, 0, 0, 3).0, 3 << 12);
    assert_eq!(Move::new(12, 28, 0, 0).0, 12 | (28 << 6));
}

#[test]
fn halfmove_clock_follows_fifty_move_rule() {
    // A knight capture resets the clock.
    let b = Board::from_fen("4k3/8/8/3p4/8/4N3/8/4K3 w - - 7 20");
    let cap = gambit::movegen::parse_uci_move(&b, "e3d5").expect("knight takes pawn");
    assert_eq!(b.make_move(cap).halfmove, 0);
    // A quiet knight move counts up.
    let quiet = gambit::movegen::parse_uci_move(&b, "e3c2").expect("knight move");
    assert_eq!(b.make_move(quiet).halfmove, 8);
    // Castling counts up; a pawn move resets.
    let c = Board::from_fen("r3k2r/pppppppp/8/8/8/8/PPPPPPPP/R3K2R w KQkq - 5 9");
    let oo = gambit::movegen::parse_uci_move(&c, "e1g1").expect("castling");
    assert_eq!(c.make_move(oo).halfmove, 6);
    let push = gambit::movegen::parse_uci_move(&c, "a2a3").expect("pawn push");
    assert_eq!(c.make_move(push).halfmove, 0);
}

fn scratch_hash(b: &Board) -> u64 {
    let z = gambit::board::zobrist();
    let mut h = 0u64;
    for c in 0..2 {
        for p in 0..6 {
            for s in 0..64 {
                if b.pieces[c][p] & (1u64 << s) != 0 {
                    h ^= z.pieces[c][p][s];
                }
            }
        }
    }
    if b.side == Color::Black {
        h ^= z.side;
    }
    h ^= z.castling[b.castling as usize];
    if b.ep_sq != 255 {
        h ^= z.ep[(b.ep_sq % 8) as usize];
    }
    h
}

#[test]
fn every_legal_move_keeps_the_hash_exact() {
    let fens = [
        START_FEN,
        "r3k2r/p1ppqpb1/bn2pnp1/3PN3/1p2P3/2N2Q1p/PPPBBPPP/R3K2R w KQkq - 0 1",
        "rnbqkbnr/ppp1p1pp/8/3pPp2/8/8/PPPP1PPP/RNBQKBNR w KQkq f6 0 3",
        "8/P6k/8/8/8/8/6Kp/8 w - - 0 1",
        "r3k2r/8/8/8/8/8/8/R3K2R b KQkq - 0 1",
    ];
    for fen in fens.iter() {
        let b = Board::from_fen(fen);
        assert_eq!(b.zobrist, scratch_hash(&b));
        let moves = gambit::movegen::legal_moves(&b);
        assert!(!moves.is_empty());
        for mv in moves.iter() {
            let after = b.make_move(*mv);
            assert_eq!(after.zobrist, scratch_hash(&after), "{} {}", fen, mv.to_uci());
        }
    }
}

#[test]
fn zobrist_keys_are_not_zero() {
    let z = gambit::board::zobrist();
    for c in 0..2 {
        for p in 0..6 {
            for s in 0..64 {
                assert_ne!(z.pieces[c][p][s], 0);
            }
        }
    }
    assert_ne!(z.side, 0);
    assert!(z.castling.iter().all(|k| *k != 0));
    assert!(z.ep.iter().all(|k| *k != 0));
}
