//! A small hand-curated opening book.
//! Keys are FEN prefixes (board, side, castling, en passant: the first four
//! FEN fields). Values: candidate UCI moves; one is picked by a salt per call.
use vstd::prelude::*;
use crate::text::{str_chars, split_tokens, tokens, views, chars_eq, chars_to_string};

verus! {

/// The book: each line a FEN prefix and its candidate moves.
pub open spec fn book_lines() -> Seq<(Seq<char>, Seq<Seq<char>>)> {
    seq![
        ("rnbqkbnr/pppppppp/8/8/8/8/PPPPPPPP/RNBQKBNR w KQkq -"@, seq!["e2e4"@, "d2d4"@, "g1f3"@, "c2c4"@]),
        ("rnbqkbnr/pppppppp/8/8/4P3/8/PPPP1PPP/RNBQKBNR b KQkq e3"@, seq!["e7e5"@, "c7c5"@, "e7e6"@, "c7c6"@, "g8f6"@]),
        ("rnbqkbnr/pppp1ppp/8/4p3/4P3/8/PPPP1PPP/RNBQKBNR w KQkq -"@, seq!["g1f3"@, "f1c4"@, "b1c3"@]),
        ("rnbqkbnr/pppp1ppp/8/4p3/4P3/5N2/PPPP1PPP/RNBQKB1R b KQkq -"@, seq!["b8c6"@, "g8f6"@, "d7d6"@]),
        ("r1bqkbnr/pppp1ppp/2n5/4p3/2B1P3/5N2/PPPP1PPP/RNBQK2R b KQkq -"@, seq!["g8f6"@, "f8c5"@, "f8e7"@]),
        ("rnbqkbnr/pp1ppppp/8/2p5/4P3/8/PPPP1PPP/RNBQKBNR w KQkq c6"@, seq!["g1f3"@, "b1c3"@, "c2c3"@]),
        ("rnbqkbnr/pppp1ppp/4p3/8/4P3/8/PPPP1PPP/RNBQKBNR w KQkq -"@, seq!["d2d4"@, "g1f3"@]),
        ("rnbqkbnr/pp1ppppp/2p5/8/4P3/8/PPPP1PPP/RNBQKBNR w KQkq -"@, seq!["d2d4"@, "b1c3"@]),
        ("rnbqkbnr/pppppppp/8/8/3P4/8/PPP1PPPP/RNBQKBNR b KQkq d3"@, seq!["g8f6"@, "d7d5"@, "e7e6"@]),
        ("rnbqkbnr/ppp1pppp/8/3p4/3P4/8/PPP1PPPP/RNBQKBNR w KQkq -"@, seq!["c2c4"@, "g1f3"@]),
        ("rnbqkb1r/pppppppp/5n2/8/3P4/8/PPP1PPPP/RNBQKBNR w KQkq -"@, seq!["c2c4"@, "g1f3"@]),
        ("rnbqkbnr/pppppppp/8/8/8/5N2/PPPPPPPP/RNBQKB1R b KQkq -"@, seq!["g8f6"@, "d7d5"@, "c7c5"@]),
        ("rnbqkbnr/pppppppp/8/8/2P5/8/PP1PPPPP/RNBQKBNR b KQkq c3"@, seq!["e7e5"@, "g8f6"@, "c7c5"@]),
    ]
}

fn book_table() -> (r: Vec<(&'static str, Vec<&'static str>)>)
    ensures
        r@.len() == book_lines().len(),
        forall|i: int|
            0 <= i < r@.len() ==> (#[trigger] r@[i]).0@ == book_lines()[i].0 && views_str(r@[i].1@)
                == book_lines()[i].1,
{
    let r = vec![
            ("rnbqkbnr/pppppppp/8/8/8/8/PPPPPPPP/RNBQKBNR w KQkq -", vec!["e2e4", "d2d4", "g1f3", "c2c4"]),
            ("rnbqkbnr/pppppppp/8/8/4P3/8/PPPP1PPP/RNBQKBNR b KQkq e3", vec!["e7e5", "c7c5", "e7e6", "c7c6", "g8f6"]),
            ("rnbqkbnr/pppp1ppp/8/4p3/4P3/8/PPPP1PPP/RNBQKBNR w KQkq -", vec!["g1f3", "f1c4", "b1c3"]),
            ("rnbqkbnr/pppp1ppp/8/4p3/4P3/5N2/PPPP1PPP/RNBQKB1R b KQkq -", vec!["b8c6", "g8f6", "d7d6"]),
            ("r1bqkbnr/pppp1ppp/2n5/4p3/2B1P3/5N2/PPPP1PPP/RNBQK2R b KQkq -", vec!["g8f6", "f8c5", "f8e7"]),
            ("rnbqkbnr/pp1ppppp/8/2p5/4P3/8/PPPP1PPP/RNBQKBNR w KQkq c6", vec!["g1f3", "b1c3", "c2c3"]),
            ("rnbqkbnr/pppp1ppp/4p3/8/4P3/8/PPPP1PPP/RNBQKBNR w KQkq -", vec!["d2d4", "g1f3"]),
            ("rnbqkbnr/pp1ppppp/2p5/8/4P3/8/PPPP1PPP/RNBQKBNR w KQkq -", vec!["d2d4", "b1c3"]),
            ("rnbqkbnr/pppppppp/8/8/3P4/8/PPP1PPPP/RNBQKBNR b KQkq d3", vec!["g8f6", "d7d5", "e7e6"]),
            ("rnbqkbnr/ppp1pppp/8/3p4/3P4/8/PPP1PPPP/RNBQKBNR w KQkq -", vec!["c2c4", "g1f3"]),
            ("rnbqkb1r/pppppppp/5n2/8/3P4/8/PPP1PPPP/RNBQKBNR w KQkq -", vec!["c2c4", "g1f3"]),
            ("rnbqkbnr/pppppppp/8/8/8/5N2/PPPPPPPP/RNBQKB1R b KQkq -", vec!["g8f6", "d7d5", "c7c5"]),
            ("rnbqkbnr/pppppppp/8/8/2P5/8/PP1PPPPP/RNBQKBNR b KQkq c3", vec!["e7e5", "g8f6", "c7c5"]),
        ];
    proof {
        assert forall|i: int| 0 <= i < r@.len() implies (#[trigger] r@[i]).0@ == book_lines()[i].0
            && views_str(r@[i].1@) == book_lines()[i].1 by {
            assert(views_str(r@[i].1@) =~= book_lines()[i].1);
        }
    }
    r
}

/// The character sequences of string slices.
pub open spec fn views_str(v: Seq<&str>) -> Seq<Seq<char>> {
    Seq::new(v.len(), |i: int| v[i]@)
}

/// The fields of a FEN joined by single spaces.
pub open spec fn join_fields(ts: Seq<Seq<char>>) -> Seq<char>
    decreases ts.len(),
{
    if ts.len() == 0 {
        Seq::empty()
    } else if ts.len() == 1 {
        ts[0]
    } else {
        join_fields(ts.drop_last()) + seq![' '] + ts.last()
    }
}

/// The book key of a FEN: its first four fields, joined by single spaces,
/// so that lookups ignore the move counters.
pub open spec fn fen_key_spec(fen: Seq<char>) -> Seq<char> {
    let t = tokens(fen);
    join_fields(t.take(if t.len() < 4 { t.len() as int } else { 4 }))
}

fn fen_key_chars(fen: &str) -> (r: Vec<char>)
    ensures
        r@ == fen_key_spec(fen@),
{
    let chars = str_chars(fen);
    let parts = split_tokens(&chars);
    let n = if parts.len() < 4 {
        parts.len()
    } else {
        4
    };
    let ghost ts = views(parts@).take(n as int);
    assert(views(parts@) == tokens(fen@));
    let mut out: Vec<char> = Vec::new();
    let mut i: usize = 0;
    while i < n
        invariant
            n <= parts@.len(),
            ts == views(parts@).take(n as int),
            i <= n,
            out@ == join_fields(ts.take(i as int)),
        decreases n - i,
    {
        if i > 0 {
            out.push(' ');
        }
        let ghost before = out@;
        let part = &parts[i];
        let mut j: usize = 0;
        while j < part.len()
            invariant
                j <= part@.len(),
                out@ == before + part@.take(j as int),
            decreases part@.len() - j,
        {
            out.push(part[j]);
            j = j + 1;
        }
        proof {
            assert(part@.take(part@.len() as int) =~= part@);
            assert(ts.take(i + 1).drop_last() =~= ts.take(i as int));
            assert(ts.take(i + 1).last() == part@);
            if i == 0 {
                assert(ts.take(1) =~= seq![part@]);
            }
        }
        i = i + 1;
    }
    assert(ts.take(n as int) =~= ts);
    out
}

/// Strip halfmove + fullmove counters from a FEN so book lookups ignore them.
pub fn fen_key(fen: &str) -> (r: String)
    ensures
        r@ == fen_key_spec(fen@),
{
    let v = fen_key_chars(fen);
    chars_to_string(&v)
}

/// The book move for a key: the first line with that key, its candidate at
/// the salt modulo the number of candidates.
pub open spec fn book_probe_from(key: Seq<char>, salt: u64, i: int) -> Option<Seq<char>>
    decreases book_lines().len() - i,
{
    if i < 0 || i >= book_lines().len() {
        None
    } else if book_lines()[i].0 == key {
        let moves = book_lines()[i].1;
        if moves.len() == 0 {
            None
        } else {
            Some(moves[((salt as usize) as int) % (moves.len() as int)])
        }
    } else {
        book_probe_from(key, salt, i + 1)
    }
}

/// Look up a book move. Returns UCI string if found.
pub fn probe(fen: &str, salt: u64) -> (r: Option<String>)
    ensures
        r matches Some(s) ==> book_probe_from(fen_key_spec(fen@), salt, 0) == Some(s@),
        r is None ==> book_probe_from(fen_key_spec(fen@), salt, 0) is None,
{
    let key = fen_key_chars(fen);
    let book = book_table();
    let mut i: usize = 0;
    while i < book.len()
        invariant
            i <= book@.len(),
            book@.len() == book_lines().len(),
            forall|k: int|
                0 <= k < book@.len() ==> (#[trigger] book@[k]).0@ == book_lines()[k].0 && views_str(
                    book@[k].1@,
                ) == book_lines()[k].1,
            book_probe_from(key@, salt, 0) == book_probe_from(key@, salt, i as int),
            key@ == fen_key_spec(fen@),
        decreases book@.len() - i,
    {
        let book_fen = str_chars(book[i].0);
        if chars_eq(&book_fen, &key) {
            let moves = &book[i].1;
            if moves.len() == 0 {
                return None;
            }
            let idx = (salt as usize) % moves.len();
            proof {
                let ms = book_lines()[i as int].1;
                assert(book_fen@ == key@);
                assert(book_lines()[i as int].0 == key@);
                assert(ms == views_str(moves@));
                assert(ms.len() == moves@.len());
                assert(views_str(moves@)[idx as int] == moves@[idx as int]@);
                assert(book_probe_from(key@, salt, i as int) == Some(ms[idx as int]));
            }
            let chosen: &str = moves[idx];
            let out = chosen.to_owned();
            assert(out@ == moves@[idx as int]@);
            return Some(out);
        }
        i = i + 1;
    }
    None
}

} // verus!
