//! The computing half of the UCI protocol: reading a `position` command
//! into a board, and the time budget of a `go` command.
use vstd::prelude::*;
use crate::board::{Board, valid};
use crate::book::{join_fields, views_str};
use crate::fen::{fen_board, fen_valid, fen_is_valid, start_board, lemma_fen_playable, lemma_start_board};
use crate::movegen::{
    has_king, legal_list, uci_lookup, uci_move_from_bytes, uci_square, wanted_promo, lemma_legal_in_range,
    lemma_first_uci_in,
};
use crate::search::{is_child, Searcher, SearchInfo, SearchEnv};
use crate::tt::TranspositionTable;
use crate::text::{
    tokens, views, str_chars, split_tokens, chars_eq, chars_to_string, parse_u64, parse_u64_spec, all_digits,
    utf8, utf8_bytes,
};
use crate::types::{Move, Color, null_move, uci_chars};

verus! {

// ── position ──────────────────────────────────────────────────────────────────

/// The index of the first "moves" token at or after `k`, or the number of
/// tokens when there is none.
pub open spec fn moves_keyword_from(t: Seq<Seq<char>>, k: int) -> int
    decreases t.len() - k,
{
    if k < 0 || k >= t.len() {
        t.len() as int
    } else if t[k] == "moves"@ {
        k
    } else {
        moves_keyword_from(t, k + 1)
    }
}

/// The command sets a position from a FEN ("fen ..."); any other start
/// means the starting position.
pub open spec fn is_fen_command(t: Seq<Seq<char>>) -> bool {
    t.len() > 0 && t[0] == "fen"@
}

/// The FEN of a "fen" command: the tokens up to "moves", joined by spaces.
pub open spec fn position_fen(t: Seq<Seq<char>>) -> Seq<char> {
    join_fields(t.subrange(1, moves_keyword_from(t, 1)))
}

/// The index of the token after the position.
pub open spec fn after_setup(t: Seq<Seq<char>>) -> int {
    if is_fen_command(t) {
        moves_keyword_from(t, 1)
    } else {
        1
    }
}

/// The move tokens of the command: those after a "moves" that directly
/// follows the position.
pub open spec fn position_moves(t: Seq<Seq<char>>) -> Seq<Seq<char>> {
    let k = after_setup(t);
    if k < t.len() && t[k] == "moves"@ {
        t.subrange(k + 1, t.len() as int)
    } else {
        Seq::empty()
    }
}

/// The position the command starts from.
pub open spec fn setup_board(t: Seq<Seq<char>>, b: Board) -> bool {
    if is_fen_command(t) {
        fen_board(position_fen(t), b)
    } else {
        start_board(b)
    }
}

/// A position command that can be read: its FEN, if it has one, is sound.
pub open spec fn position_args_ok(args: Seq<char>) -> bool {
    let t = tokens(args);
    is_fen_command(t) ==> fen_valid(position_fen(t))
}

/// The legal move that a move token names; a side without a king has no
/// legal moves.
pub open spec fn move_named(b: Board, m: Seq<char>) -> Option<Move> {
    if has_king(b) {
        uci_lookup(legal_list(b), utf8(m))
    } else {
        None
    }
}

/// `r` is `b` after the moves `ms` that name legal moves, played in turn;
/// the others are passed over.
pub open spec fn replay(b: Board, ms: Seq<Seq<char>>, r: Board) -> bool
    decreases ms.len(),
{
    if ms.len() == 0 {
        r == b
    } else {
        match move_named(b, ms[0]) {
            Some(mv) => exists|c: Board| #[trigger] is_child(b, mv, c) && replay(c, ms.drop_first(), r),
            None => replay(b, ms.drop_first(), r),
        }
    }
}

/// The tokens `lo..hi` joined by single spaces.
fn join_tokens(parts: &Vec<Vec<char>>, lo: usize, hi: usize) -> (r: Vec<char>)
    requires
        lo <= hi <= parts@.len(),
    ensures
        r@ == join_fields(views(parts@).subrange(lo as int, hi as int)),
{
    let ghost ts = views(parts@).subrange(lo as int, hi as int);
    let mut out: Vec<char> = Vec::new();
    let mut i: usize = lo;
    while i < hi
        invariant
            lo <= i <= hi,
            hi <= parts@.len(),
            ts == views(parts@).subrange(lo as int, hi as int),
            out@ == join_fields(ts.take(i - lo)),
        decreases hi - i,
    {
        if i > lo {
            out.push(' ');
        }
        let ghost before = out@;
        let part = &parts[i];
        let mut j: usize = 0;
        while j < part.len()
            invariant
                j <= part@.len(),
                out@ == before + part@.take(j as int),
            decreases part@.len() - j,
        {
            out.push(part[j]);
            j = j + 1;
        }
        proof {
            let n = i - lo;
            assert(part@.take(part@.len() as int) =~= part@);
            assert(ts.take(n + 1).drop_last() =~= ts.take(n));
            assert(ts[n] == views(parts@)[i as int]);
            assert(ts.take(n + 1).last() == part@);
            if n == 0 {
                assert(ts.take(1) =~= seq![part@]);
            }
        }
        i = i + 1;
    }
    assert(ts.take(hi - lo) =~= ts);
    out
}

/// Checks that a `position` command can be read (see `position_args_ok`).
pub fn position_is_readable(args: &str) -> (r: bool)
    ensures
        r == position_args_ok(args@),
{
    let chars = str_chars(args);
    let parts = split_tokens(&chars);
    let ghost t = tokens(args@);
    assert(views(parts@) == t);
    assert forall|i: int| 0 <= i < parts@.len() implies parts@[i]@ == t[i] by {}
    let kw_fen = str_chars("fen");
    let kw_moves = str_chars("moves");
    if parts.len() > 0 && chars_eq(&parts[0], &kw_fen) {
        let mut j: usize = 1;
        while j < parts.len() && !chars_eq(&parts[j], &kw_moves)
            invariant
                1 <= j <= parts@.len(),
                views(parts@) == t,
                kw_moves@ == "moves"@,
                moves_keyword_from(t, 1) == moves_keyword_from(t, j as int),
            decreases parts@.len() - j,
        {
            j = j + 1;
        }
        let fen_chars = join_tokens(&parts, 1, j);
        let fen = chars_to_string(&fen_chars);
        return fen_is_valid(fen.as_str());
    }
    true
}

/// Reads the arguments of a UCI `position` command: "startpos" or
/// "fen <fields>", then optionally "moves" and moves in UCI text; moves
/// that name no legal move are passed over.
pub fn parse_position(args: &str) -> (b: Board)
    requires
        position_args_ok(args@),
    ensures
        valid(b),
        exists|b0: Board| setup_board(tokens(args@), b0) && replay(b0, position_moves(tokens(args@)), b),
{
    let chars = str_chars(args);
    let parts = split_tokens(&chars);
    let ghost t = tokens(args@);
    assert(views(parts@) == t);
    assert forall|i: int| 0 <= i < parts@.len() implies parts@[i]@ == t[i] by {}
    let kw_fen = str_chars("fen");
    let kw_moves = str_chars("moves");
    let mut board;
    let k: usize;
    if parts.len() > 0 && chars_eq(&parts[0], &kw_fen) {
        // collect up to "moves" keyword
        let mut j: usize = 1;
        while j < parts.len() && !chars_eq(&parts[j], &kw_moves)
            invariant
                1 <= j <= parts@.len(),
                views(parts@) == t,
                kw_moves@ == "moves"@,
                moves_keyword_from(t, 1) == moves_keyword_from(t, j as int),
            decreases parts@.len() - j,
        {
            j = j + 1;
        }
        let fen_chars = join_tokens(&parts, 1, j);
        let fen = chars_to_string(&fen_chars);
        board = Board::from_fen(fen.as_str());
        proof {
            lemma_fen_playable(fen@, board);
        }
        k = j;
    } else {
        board = Board::startpos();
        proof {
            lemma_start_board(board);
        }
        k = 1;
    }
    let ghost b0 = board;
    assert(setup_board(t, b0));
    assert(k as int == after_setup(t));
    let ghost ms = position_moves(t);
    if k < parts.len() && chars_eq(&parts[k], &kw_moves) {
        assert(ms =~= t.subrange(k + 1, t.len() as int));
        let mut m: usize = k + 1;
        while m < parts.len()
            invariant
                k + 1 <= m <= parts@.len(),
                views(parts@) == t,
                ms == t.subrange(k + 1, t.len() as int),
                valid(board),
                forall|r: Board|
                    #[trigger] replay(board, t.subrange(m as int, t.len() as int), r) ==> replay(b0, ms, r),
            decreases parts@.len() - m,
        {
            let ghost cur = board;
            let ghost rest = t.subrange(m as int, t.len() as int);
            assert(rest[0] == parts@[m as int]@);
            assert(rest.drop_first() =~= t.subrange(m + 1, t.len() as int));
            if board.pieces[board.side.index()][5] != 0 {
                let bytes = utf8_bytes(&parts[m]);
                if let Some(mv) = uci_move_from_bytes(&board, bytes.as_slice()) {
                    proof {
                        let ls = legal_list(cur);
                        let bs = utf8(rest[0]);
                        lemma_legal_in_range(cur);
                        lemma_first_uci_in(ls, 0, uci_square(bs[0], bs[1]), uci_square(bs[2], bs[3]), wanted_promo(bs));
                        let j = choose|j: int| 0 <= j < ls.len() && ls[j] == mv;
                        assert(crate::board::move_in_range(cur, ls[j]));
                    }
                    board = board.make_move(mv);
                    proof {
                        assert(is_child(cur, mv, board));
                    }
                }
            }
            proof {
                assert forall|r: Board|
                    #[trigger] replay(board, t.subrange(m + 1, t.len() as int), r) implies replay(b0, ms, r) by {
                    assert(replay(cur, rest, r));
                }
            }
            m = m + 1;
        }
        assert(replay(board, t.subrange(m as int, t.len() as int), board));
    } else {
        assert(ms =~= Seq::<Seq<char>>::empty());
        assert(replay(b0, ms, board));
    }
    board
}


// ── go ────────────────────────────────────────────────────────────────────────

/// The number in the token at `i`, or `default` when there is no token
/// there or it is no number.
pub open spec fn arg_number(args: Seq<Seq<char>>, i: int, default: u64) -> u64 {
    if 0 <= i < args.len() {
        match parse_u64_spec(args[i]) {
            Some(v) => v,
            None => default,
        }
    } else {
        default
    }
}

/// The time fields of a `go` command read from token `i` on, starting from
/// `f`: (wtime, btime, winc, binc, movetime, movestogo). A keyword takes the
/// token after it as its value; later keywords win.
pub open spec fn go_fields(args: Seq<Seq<char>>, i: int, f: (u64, u64, u64, u64, u64, u64)) -> (
    u64,
    u64,
    u64,
    u64,
    u64,
    u64,
)
    decreases args.len() + 1 - i,
{
    if i < 0 || i >= args.len() {
        f
    } else if args[i] == "wtime"@ {
        go_fields(args, i + 2, (arg_number(args, i + 1, 0), f.1, f.2, f.3, f.4, f.5))
    } else if args[i] == "btime"@ {
        go_fields(args, i + 2, (f.0, arg_number(args, i + 1, 0), f.2, f.3, f.4, f.5))
    } else if args[i] == "winc"@ {
        go_fields(args, i + 2, (f.0, f.1, arg_number(args, i + 1, 0), f.3, f.4, f.5))
    } else if args[i] == "binc"@ {
        go_fields(args, i + 2, (f.0, f.1, f.2, arg_number(args, i + 1, 0), f.4, f.5))
    } else if args[i] == "movetime"@ {
        go_fields(args, i + 2, (f.0, f.1, f.2, f.3, arg_number(args, i + 1, 0), f.5))
    } else if args[i] == "movestogo"@ {
        go_fields(args, i + 2, (f.0, f.1, f.2, f.3, f.4, arg_number(args, i + 1, 30)))
    } else {
        go_fields(args, i + 1, f)
    }
}

/// The fields of a whole `go` command, with no clock, no increment, no move
/// time and 30 moves to go by default.
pub open spec fn go_command(args: Seq<Seq<char>>) -> (u64, u64, u64, u64, u64, u64) {
    go_fields(args, 0, (0, 0, 0, 0, 0, 30))
}

/// A `go` command whose budget can be worked out: one that divides the
/// clock by the moves to go has a nonzero number of moves to go.
pub open spec fn go_args_ok(args: Seq<Seq<char>>, white: bool) -> bool {
    let f = go_command(args);
    let time = if white {
        f.0
    } else {
        f.1
    };
    f.4 == 0 && time != 0 ==> f.5 != 0
}

/// The milliseconds to think: the move time if one is given; else a second
/// when the side has no clock; else its clock over the moves to go plus its
/// increment (wrapping), at most half the clock, at least 50.
pub open spec fn time_budget(args: Seq<Seq<char>>, white: bool) -> u64 {
    let f = go_command(args);
    let time = if white {
        f.0
    } else {
        f.1
    };
    let inc = if white {
        f.2
    } else {
        f.3
    };
    if f.4 > 0 {
        f.4
    } else if time == 0 {
        1000
    } else {
        let alloc = (time / f.5).wrapping_add(inc);
        let capped = if alloc < time / 2 {
            alloc
        } else {
            time / 2
        };
        if capped > 50 {
            capped
        } else {
            50
        }
    }
}

/// A budget from the clock is at least 50 ms, and with at least 100 ms on
/// the clock it never takes more than half of it.
pub proof fn lemma_budget_within_clock(args: Seq<Seq<char>>, white: bool)
    ensures
        ({
            let f = go_command(args);
            let time = if white {
                f.0
            } else {
                f.1
            };
            f.4 == 0 && time > 0 ==> 50 <= time_budget(args, white) && (time >= 100 ==> time_budget(
                args,
                white,
            ) <= time / 2)
        }),
{
}

/// The same word for the other side's clock: "wtime" and "btime", "winc"
/// and "binc" trade places; any other token stays as it is.
pub open spec fn other_side_word(w: Seq<char>) -> Seq<char> {
    if w == "wtime"@ {
        "btime"@
    } else if w == "btime"@ {
        "wtime"@
    } else if w == "winc"@ {
        "binc"@
    } else if w == "binc"@ {
        "winc"@
    } else {
        w
    }
}

/// A `go` command with White's and Black's clock fields traded.
pub open spec fn other_side_args(args: Seq<Seq<char>>) -> Seq<Seq<char>> {
    Seq::new(args.len(), |i: int| other_side_word(args[i]))
}

/// Time fields with White's and Black's clock and increment traded.
pub open spec fn other_side_fields(f: (u64, u64, u64, u64, u64, u64)) -> (u64, u64, u64, u64, u64, u64) {
    (f.1, f.0, f.3, f.2, f.4, f.5)
}

proof fn lemma_other_side_word(w: Seq<char>)
    ensures
        other_side_word(w) == "wtime"@ <==> w == "btime"@,
        other_side_word(w) == "btime"@ <==> w == "wtime"@,
        other_side_word(w) == "winc"@ <==> w == "binc"@,
        other_side_word(w) == "binc"@ <==> w == "winc"@,
        other_side_word(w) == "movetime"@ <==> w == "movetime"@,
        other_side_word(w) == "movestogo"@ <==> w == "movestogo"@,
        parse_u64_spec(other_side_word(w)) == parse_u64_spec(w),
        "wtime"@ != "btime"@,
        "winc"@ != "binc"@,
        "wtime"@ != "winc"@ && "wtime"@ != "binc"@ && "btime"@ != "winc"@ && "btime"@ != "binc"@,
        "movetime"@ != "wtime"@ && "movetime"@ != "btime"@ && "movetime"@ != "winc"@ && "movetime"@ != "binc"@,
        "movestogo"@ != "wtime"@ && "movestogo"@ != "btime"@ && "movestogo"@ != "winc"@ && "movestogo"@
            != "binc"@ && "movestogo"@ != "movetime"@,
{
    reveal_strlit("wtime");
    reveal_strlit("btime");
    reveal_strlit("winc");
    reveal_strlit("binc");
    reveal_strlit("movetime");
    reveal_strlit("movestogo");
    assert("wtime"@ != "btime"@) by {
        assert("wtime"@[0] != "btime"@[0]);
    }
    assert("winc"@ != "binc"@) by {
        assert("winc"@[0] != "binc"@[0]);
    }
    assert("wtime"@ != "winc"@ && "wtime"@ != "binc"@ && "btime"@ != "winc"@ && "btime"@ != "binc"@) by {
        assert("wtime"@.len() == 5 && "btime"@.len() == 5);
        assert("winc"@.len() == 4 && "binc"@.len() == 4);
    }
    assert("movetime"@ != "wtime"@ && "movetime"@ != "btime"@ && "movetime"@ != "winc"@ && "movetime"@
        != "binc"@) by {
        assert("movetime"@.len() == 8 && "wtime"@.len() == 5 && "btime"@.len() == 5);
        assert("winc"@.len() == 4 && "binc"@.len() == 4);
    }
    assert("movestogo"@ != "wtime"@ && "movestogo"@ != "btime"@ && "movestogo"@ != "winc"@
        && "movestogo"@ != "binc"@) by {
        assert("movestogo"@.len() == 9 && "wtime"@.len() == 5 && "btime"@.len() == 5);
        assert("winc"@.len() == 4 && "binc"@.len() == 4 && "movetime"@.len() == 8);
    }
    // A keyword is no number.
    if w == "wtime"@ || w == "btime"@ || w == "winc"@ || w == "binc"@ {
        let o = other_side_word(w);
        assert(!all_digits(w) && w[0] != '+') by {
            assert(!('0' <= w[0] <= '9'));
        }
        assert(!all_digits(o) && o[0] != '+') by {
            assert(!('0' <= o[0] <= '9'));
        }
    }
}

proof fn lemma_go_fields_other_side(args: Seq<Seq<char>>, i: int, f: (u64, u64, u64, u64, u64, u64))
    ensures
        go_fields(other_side_args(args), i, other_side_fields(f)) == other_side_fields(go_fields(args, i, f)),
    decreases args.len() + 1 - i,
{
    let o = other_side_args(args);
    if 0 <= i < args.len() {
        lemma_other_side_word(args[i]);
        assert(o[i] == other_side_word(args[i]));
        if i + 1 < args.len() {
            lemma_other_side_word(args[i + 1]);
            assert(o[i + 1] == other_side_word(args[i + 1]));
        }
        assert(arg_number(o, i + 1, 0) == arg_number(args, i + 1, 0));
        assert(arg_number(o, i + 1, 30) == arg_number(args, i + 1, 30));
        let sf = other_side_fields(f);
        let a0 = arg_number(args, i + 1, 0);
        let a30 = arg_number(args, i + 1, 30);
        if args[i] == "wtime"@ {
            assert(o[i] == "btime"@);
            assert(go_fields(o, i, sf) == go_fields(o, i + 2, (sf.0, a0, sf.2, sf.3, sf.4, sf.5)));
            lemma_go_fields_other_side(args, i + 2, (arg_number(args, i + 1, 0), f.1, f.2, f.3, f.4, f.5));
        } else if args[i] == "btime"@ {
            lemma_go_fields_other_side(args, i + 2, (f.0, arg_number(args, i + 1, 0), f.2, f.3, f.4, f.5));
        } else if args[i] == "winc"@ {
            lemma_go_fields_other_side(args, i + 2, (f.0, f.1, arg_number(args, i + 1, 0), f.3, f.4, f.5));
        } else if args[i] == "binc"@ {
            lemma_go_fields_other_side(args, i + 2, (f.0, f.1, f.2, arg_number(args, i + 1, 0), f.4, f.5));
        } else if args[i] == "movetime"@ {
            lemma_go_fields_other_side(args, i + 2, (f.0, f.1, f.2, f.3, arg_number(args, i + 1, 0), f.5));
        } else if args[i] == "movestogo"@ {
            lemma_go_fields_other_side(args, i + 2, (f.0, f.1, f.2, f.3, f.4, arg_number(args, i + 1, 30)));
        } else {
            lemma_go_fields_other_side(args, i + 1, f);
        }
    }
}

/// The two sides are budgeted alike: Black's budget for a `go` command is
/// White's budget for the same command with the sides' clock fields
/// traded, so each side's budget comes from its own clock and increment.
pub proof fn lemma_budget_by_own_clock(args: Seq<Seq<char>>)
    ensures
        time_budget(other_side_args(args), true) == time_budget(args, false),
        time_budget(other_side_args(args), false) == time_budget(args, true),
        go_args_ok(other_side_args(args), true) == go_args_ok(args, false),
        go_args_ok(other_side_args(args), false) == go_args_ok(args, true),
{
    lemma_go_fields_other_side(args, 0, (0, 0, 0, 0, 0, 30));
}

/// A side's budget reads only its own clock and increment, the move time
/// and the moves to go: commands that agree on those give it the same
/// budget, whatever the other side's fields say.
pub proof fn lemma_budget_ignores_other_side(a1: Seq<Seq<char>>, a2: Seq<Seq<char>>, white: bool)
    requires
        go_command(a1).4 == go_command(a2).4,
        go_command(a1).5 == go_command(a2).5,
        white ==> go_command(a1).0 == go_command(a2).0 && go_command(a1).2 == go_command(a2).2,
        !white ==> go_command(a1).1 == go_command(a2).1 && go_command(a1).3 == go_command(a2).3,
    ensures
        time_budget(a1, white) == time_budget(a2, white),
{
}

/// Reads the time fields of a `go` command (see `go_command`).
fn read_go_fields(args: &[&str]) -> (r: (u64, u64, u64, u64, u64, u64))
    ensures
        r == go_command(views_str(args@)),
{
    let ghost a = views_str(args@);
    let kw_wtime = str_chars("wtime");
    let kw_btime = str_chars("btime");
    let kw_movetime = str_chars("movetime");
    let kw_movestogo = str_chars("movestogo");
    let kw_winc = str_chars("winc");
    let kw_binc = str_chars("binc");
    let mut f = (0u64, 0u64, 0u64, 0u64, 0u64, 30u64);
    let mut i: usize = 0;
    while i < args.len()
        invariant
            i <= args@.len(),
            a == views_str(args@),
            kw_wtime@ == "wtime"@,
            kw_btime@ == "btime"@,
            kw_winc@ == "winc"@,
            kw_binc@ == "binc"@,
            kw_movetime@ == "movetime"@,
            kw_movestogo@ == "movestogo"@,
            go_command(a) == go_fields(a, i as int, f),
        decreases args@.len() - i,
    {
        let tok = str_chars(args[i]);
        assert(tok@ == a[i as int]);
        let ghost i0 = i as int;
        if chars_eq(&tok, &kw_wtime) {
            f = (arg_number_at(args, i + 1, 0), f.1, f.2, f.3, f.4, f.5);
            i = skip_value(i, args.len());
        } else if chars_eq(&tok, &kw_btime) {
            f = (f.0, arg_number_at(args, i + 1, 0), f.2, f.3, f.4, f.5);
            i = skip_value(i, args.len());
        } else if chars_eq(&tok, &kw_winc) {
            f = (f.0, f.1, arg_number_at(args, i + 1, 0), f.3, f.4, f.5);
            i = skip_value(i, args.len());
        } else if chars_eq(&tok, &kw_binc) {
            f = (f.0, f.1, f.2, arg_number_at(args, i + 1, 0), f.4, f.5);
            i = skip_value(i, args.len());
        } else if chars_eq(&tok, &kw_movetime) {
            f = (f.0, f.1, f.2, f.3, arg_number_at(args, i + 1, 0), f.5);
            i = skip_value(i, args.len());
        } else if chars_eq(&tok, &kw_movestogo) {
            f = (f.0, f.1, f.2, f.3, f.4, arg_number_at(args, i + 1, 30));
            i = skip_value(i, args.len());
        } else {
            i = i + 1;
        }
        proof {
            if i0 + 2 > a.len() && i as int == a.len() as int {
                assert(go_fields(a, i0 + 2, f) == f);
                assert(go_fields(a, i as int, f) == f);
            }
        }
    }
    f
}

/// Checks that the budget of a `go` command can be worked out (see
/// `go_args_ok`).
pub fn go_is_computable(args: &[&str], white: bool) -> (r: bool)
    ensures
        r == go_args_ok(views_str(args@), white),
{
    let f = read_go_fields(args);
    let time = if white {
        f.0
    } else {
        f.1
    };
    !(f.4 == 0 && time != 0) || f.5 != 0
}

/// The number in token `i`, or `default`.
fn arg_number_at(args: &[&str], i: usize, default: u64) -> (r: u64)
    ensures
        r == arg_number(views_str(args@), i as int, default),
{
    if i < args.len() {
        let v = str_chars(args[i]);
        match parse_u64(&v) {
            Some(n) => n,
            None => default,
        }
    } else {
        default
    }
}

/// The index after a keyword at `i` and its value, or `len` when the
/// value would lie past the end.
fn skip_value(i: usize, len: usize) -> (r: usize)
    requires
        i < len,
    ensures
        r <= len,
        r > i,
        i + 2 <= len ==> r == i + 2,
        i + 2 > len ==> r == len,
{
    if i + 1 < len {
        i + 2
    } else {
        len
    }
}

/// The time budget in milliseconds for a UCI `go` command (see
/// `time_budget`).
pub fn parse_time(args: &[&str], white: bool) -> (r: u64)
    requires
        go_args_ok(views_str(args@), white),
    ensures
        r == time_budget(views_str(args@), white),
{
    let (wtime, btime, winc, binc, movetime, movestogo) = read_go_fields(args);

    if movetime > 0 {
        return movetime;
    }
    let (time, inc) = if white {
        (wtime, winc)
    } else {
        (btime, binc)
    };
    if time == 0 {
        return 1000;
    }  // fallback 1s

    // Allocate: time/movestogo + increment with overhead buffer
    let alloc = (time / movestogo).wrapping_add(inc);
    let capped = if alloc < time / 2 {
        alloc
    } else {
        time / 2
    };
    if capped > 50 {
        capped
    } else {
        50
    }  // never use more than half remaining time
}


// ── The command loop's decisions ──────────────────────────────────────────────

/// What one UCI command line comes to.
pub enum UciOutcome {
    /// Lines to write to standard output (none for a command that only
    /// changes state, or for a line without a command).
    Reply(Vec<String>),
    /// A command word the engine does not know, to report on standard error.
    Unknown(String),
    /// The session ends.
    Quit,
}

/// The characters of each of a list of strings.
pub open spec fn lines_of(v: Seq<String>) -> Seq<Seq<char>> {
    Seq::new(v.len(), |i: int| v[i]@)
}

/// `r` replies with exactly the lines `ls`.
pub open spec fn replies(r: UciOutcome, ls: Seq<Seq<char>>) -> bool {
    r matches UciOutcome::Reply(v) && lines_of(v@) == ls
}

/// A command line the engine can act on: a `position` command's position
/// can be read, and a `go` command's budget can be worked out for the side
/// to move.
pub open spec fn uci_line_ok(line: Seq<char>, side: Color) -> bool {
    let t = tokens(line);
    &&& (t.len() > 0 && t[0] == "position"@ ==> position_args_ok(join_fields(t.drop_first())))
    &&& (t.len() > 0 && t[0] == "go"@ ==> go_args_ok(t.drop_first(), side == Color::White))
}

/// The searcher as it was, up to its killers and history.
pub open spec fn same_tables(a: Searcher, b: Searcher) -> bool {
    a.tt == b.tt && a.eval_cache == b.eval_cache
}

/// An owned copy of a string slice's text.
fn owned(s: &str) -> (r: String)
    ensures
        r@ == s@,
{
    s.to_owned()
}

/// Owned copies of the tokens from `lo` on.
fn owned_tokens(parts: &Vec<Vec<char>>, lo: usize) -> (r: Vec<String>)
    requires
        lo <= parts@.len(),
    ensures
        lines_of(r@) == views(parts@).subrange(lo as int, parts@.len() as int),
{
    let mut strs: Vec<String> = Vec::new();
    let mut i: usize = lo;
    while i < parts.len()
        invariant
            lo <= i <= parts@.len(),
            strs@.len() == i - lo,
            forall|j: int| 0 <= j < strs@.len() ==> #[trigger] strs@[j]@ == parts@[j + lo]@,
        decreases parts@.len() - i,
    {
        strs.push(chars_to_string(&parts[i]));
        i = i + 1;
    }
    assert(lines_of(strs@) =~= views(parts@).subrange(lo as int, parts@.len() as int));
    strs
}

/// The strings as string slices.
fn str_refs<'a>(v: &'a Vec<String>) -> (r: Vec<&'a str>)
    ensures
        views_str(r@) == lines_of(v@),
{
    let mut args: Vec<&str> = Vec::new();
    let mut j: usize = 0;
    while j < v.len()
        invariant
            j <= v@.len(),
            args@.len() == j,
            forall|k: int| 0 <= k < j ==> #[trigger] args@[k]@ == v@[k]@,
        decreases v@.len() - j,
    {
        args.push(v[j].as_str());
        j = j + 1;
    }
    assert(views_str(args@) =~= lines_of(v@));
    args
}

/// Checks that the engine can act on a command line (see `uci_line_ok`).
pub fn uci_line_is_ok(line: &str, side: Color) -> (r: bool)
    ensures
        r == uci_line_ok(line@, side),
{
    let chars = str_chars(line);
    let parts = split_tokens(&chars);
    let ghost t = tokens(line@);
    assert(views(parts@) == t);
    assert forall|i: int| 0 <= i < parts@.len() implies parts@[i]@ == t[i] by {}
    if parts.len() == 0 {
        return true;
    }
    assert(views(parts@).subrange(1, parts@.len() as int) =~= t.drop_first());
    proof {
        reveal_strlit("position");
        reveal_strlit("go");
        assert("position"@.len() != "go"@.len());
    }
    if chars_eq(&parts[0], &str_chars("position")) {
        let rest = join_tokens(&parts, 1, parts.len());
        let args = chars_to_string(&rest);
        return position_is_readable(args.as_str());
    }
    if chars_eq(&parts[0], &str_chars("go")) {
        let strs = owned_tokens(&parts, 1);
        let args = str_refs(&strs);
        return go_is_computable(args.as_slice(), side == Color::White);
    }
    true
}

/// Acts on one line of the UCI protocol: "uci" answers with the engine's
/// name, author and "uciok"; "isready" with "readyok"; "ucinewgame" resets
/// the board to the start and empties the table; "position" sets the board
/// as `parse_position` reads the rest of the line; "go" searches within the
/// `parse_time` budget and answers "bestmove" and the move found; "stop"
/// does nothing (the time limit stops a search); "quit" ends the session;
/// a line without a command is passed over, any other command is unknown.
pub fn uci_command<E: SearchEnv>(board: &mut Board, searcher: &mut Searcher, line: &str, env: E) -> (r: UciOutcome)
    requires
        valid(*old(board)),
        old(searcher).wf(),
        uci_line_ok(line@, old(board).side),
    ensures
        valid(*final(board)),
        final(searcher).wf(),
        ({
            let t = tokens(line@);
            if t.len() == 0 {
                replies(r, Seq::empty()) && *final(board) == *old(board) && *final(searcher) == *old(searcher)
            } else if t[0] == "uci"@ {
                replies(r, seq!["id name Gambit"@, "id author Navnita"@, "uciok"@])
                    && *final(board) == *old(board) && *final(searcher) == *old(searcher)
            } else if t[0] == "isready"@ {
                replies(r, seq!["readyok"@]) && *final(board) == *old(board) && *final(searcher)
                    == *old(searcher)
            } else if t[0] == "ucinewgame"@ {
                &&& replies(r, Seq::empty())
                &&& start_board(*final(board))
                &&& final(searcher).eval_cache == old(searcher).eval_cache
                &&& final(searcher).tt.entries().len() == (64 * 1048576) as nat / 24
                &&& forall|i: int|
                    0 <= i < final(searcher).tt.entries().len() ==> #[trigger] final(searcher).tt.entries()[i] is None
                &&& forall|p: int, k: int|
                    0 <= p < 128 && 0 <= k < 2 ==> #[trigger] final(searcher).killer[p][k] == null_move()
                &&& forall|f: int, s: int|
                    0 <= f < 64 && 0 <= s < 64 ==> #[trigger] final(searcher).history[f][s] == 0
            } else if t[0] == "position"@ {
                let pt = tokens(join_fields(t.drop_first()));
                &&& replies(r, Seq::empty())
                &&& *final(searcher) == *old(searcher)
                &&& exists|b0: Board| setup_board(pt, b0) && #[trigger] replay(b0, position_moves(pt), *final(board))
            } else if t[0] == "go"@ {
                &&& *final(board) == *old(board)
                &&& exists|m: Move| #[trigger] replies(r, seq!["bestmove "@ + uci_chars(m)])
            } else if t[0] == "stop"@ {
                replies(r, Seq::empty()) && *final(board) == *old(board) && *final(searcher) == *old(searcher)
            } else if t[0] == "quit"@ {
                r is Quit && *final(board) == *old(board) && *final(searcher) == *old(searcher)
            } else {
                (r matches UciOutcome::Unknown(c) && c@ == t[0]) && *final(board) == *old(board)
                    && *final(searcher) == *old(searcher)
            }
        }),
{
    let chars = str_chars(line);
    let parts = split_tokens(&chars);
    let ghost t = tokens(line@);
    assert(views(parts@) == t);
    assert forall|i: int| 0 <= i < parts@.len() implies parts@[i]@ == t[i] by {}
    if parts.len() == 0 {
        let v: Vec<String> = Vec::new();
        assert(lines_of(v@) =~= Seq::<Seq<char>>::empty());
        return UciOutcome::Reply(v);
    }
    let cmd = &parts[0];
    if chars_eq(cmd, &str_chars("uci")) {
        let mut v: Vec<String> = Vec::new();
        v.push(owned("id name Gambit"));
        v.push(owned("id author Navnita"));
        v.push(owned("uciok"));
        assert(lines_of(v@) =~= seq!["id name Gambit"@, "id author Navnita"@, "uciok"@]);
        return UciOutcome::Reply(v);
    }
    if chars_eq(cmd, &str_chars("isready")) {
        let mut v: Vec<String> = Vec::new();
        v.push(owned("readyok"));
        assert(lines_of(v@) =~= seq!["readyok"@]);
        return UciOutcome::Reply(v);
    }
    if chars_eq(cmd, &str_chars("ucinewgame")) {
        *board = Board::startpos();
        proof {
            lemma_start_board(*board);
        }
        searcher.clear_for_search();
        searcher.tt = TranspositionTable::new(64);
        proof {
            assert((64 * 1048576) as nat / 24 > 0);
        }
        let v: Vec<String> = Vec::new();
        assert(lines_of(v@) =~= Seq::<Seq<char>>::empty());
        return UciOutcome::Reply(v);
    }
    if chars_eq(cmd, &str_chars("position")) {
        let rest = join_tokens(&parts, 1, parts.len());
        assert(views(parts@).subrange(1, parts@.len() as int) =~= t.drop_first());
        let args = chars_to_string(&rest);
        *board = parse_position(args.as_str());
        let v: Vec<String> = Vec::new();
        assert(lines_of(v@) =~= Seq::<Seq<char>>::empty());
        return UciOutcome::Reply(v);
    }
    if chars_eq(cmd, &str_chars("go")) {
        // The arguments as string slices.
        let strs = owned_tokens(&parts, 1);
        let args = str_refs(&strs);
        assert(views(parts@).subrange(1, parts@.len() as int) =~= t.drop_first());
        assert(views_str(args@) =~= t.drop_first());
        let white = board.side == Color::White;
        let time_ms = parse_time(args.as_slice(), white);
        searcher.clear_for_search();
        let mut info = SearchInfo::new_time_ms(time_ms, env);
        let (best_move, _) = searcher.search(board, &mut info);
        let mut text = str_chars("bestmove ");
        let mv = best_move.to_uci();
        let mv_chars = str_chars(mv.as_str());
        let ghost prefix = text@;
        let mut k: usize = 0;
        while k < mv_chars.len()
            invariant
                k <= mv_chars@.len(),
                text@ == prefix + mv_chars@.take(k as int),
            decreases mv_chars@.len() - k,
        {
            text.push(mv_chars[k]);
            k = k + 1;
        }
        assert(mv_chars@.take(mv_chars@.len() as int) =~= mv_chars@);
        let mut v: Vec<String> = Vec::new();
        v.push(chars_to_string(&text));
        assert(lines_of(v@) =~= seq!["bestmove "@ + uci_chars(best_move)]);
        let out = UciOutcome::Reply(v);
        assert(replies(out, seq!["bestmove "@ + uci_chars(best_move)]));
        return out;
    }
    if chars_eq(cmd, &str_chars("stop")) {
        let v: Vec<String> = Vec::new();
        assert(lines_of(v@) =~= Seq::<Seq<char>>::empty());
        return UciOutcome::Reply(v);
    }
    if chars_eq(cmd, &str_chars("quit")) {
        return UciOutcome::Quit;
    }
    UciOutcome::Unknown(chars_to_string(cmd))
}

} // verus!
