//! The engine as the browser front end drives it: positions come as FEN
//! text, moves go back as UCI text, searches keep their table between
//! calls, and the game's earlier positions take part in repetition checks.
use vstd::prelude::*;
use crate::board::Board;
use crate::book::{probe, book_probe_from, fen_key_spec};
use crate::fen::{fen_board, fen_ok, fen_valid, fen_is_readable, lemma_fen_playable, fen_playable};
use crate::movegen::{legal_moves, legal_list, checked, lemma_legal_in_range};
use crate::tt::probe_spec;
use crate::eval::MATE_SCORE;
use crate::search::{Searcher, SearchInfo, SearchEnv, contains_move, table_move};
use crate::text::{tokens, views, str_chars, split_tokens, chars_eq, chars_to_string};
use crate::types::{Move, Color, uci_chars};

verus! {

// ── Text ──────────────────────────────────────────────────────────────────────

/// The character of a decimal digit.
pub open spec fn digit_char(d: int) -> char {
    (48 + d) as char
}

/// The decimal digits of a natural number, most significant first.
pub open spec fn nat_text(n: nat) -> Seq<char>
    decreases n,
{
    if n < 10 {
        seq![digit_char(n as int)]
    } else {
        nat_text(n / 10).push(digit_char((n % 10) as int))
    }
}

/// The decimal text of an integer, with a minus sign when negative.
pub open spec fn int_text(x: int) -> Seq<char> {
    if x < 0 {
        seq!['-'] + nat_text((-x) as nat)
    } else {
        nat_text(x as nat)
    }
}

fn push_digits(out: &mut Vec<char>, n: u64)
    ensures
        final(out)@ == old(out)@ + nat_text(n as nat),
    decreases n,
{
    if n >= 10 {
        push_digits(out, n / 10);
    }
    let d = (n % 10) as u8;
    let c = (48u8 + d) as char;
    out.push(c);
    proof {
        if n < 10 {
            assert(nat_text(n as nat) == seq![digit_char(n as int)]);
        }
    }
}

/// Appends the decimal text of `x`.
pub fn push_int(out: &mut Vec<char>, x: i32)
    ensures
        final(out)@ == old(out)@ + int_text(x as int),
{
    if x < 0 {
        out.push('-');
        let m: u64 = (0i64 - (x as i64)) as u64;
        push_digits(out, m);
    } else {
        push_digits(out, x as u64);
    }
}

/// Texts joined by commas.
pub open spec fn comma_join(parts: Seq<Seq<char>>) -> Seq<char>
    decreases parts.len(),
{
    if parts.len() == 0 {
        Seq::empty()
    } else if parts.len() == 1 {
        parts[0]
    } else {
        comma_join(parts.drop_last()) + seq![','] + parts.last()
    }
}

/// The UCI texts of moves.
pub open spec fn uci_texts(ms: Seq<Move>) -> Seq<Seq<char>> {
    Seq::new(ms.len(), |i: int| uci_chars(ms[i]))
}

/// The fields of a text split at each '|', as `str::split('|')` gives them
/// (empty fields included).
pub open spec fn pipe_fields_from(s: Seq<char>, i: int, cur: Seq<char>) -> Seq<Seq<char>>
    decreases s.len() - i,
{
    if i < 0 || i >= s.len() {
        seq![cur]
    } else if s[i] == '|' {
        seq![cur] + pipe_fields_from(s, i + 1, Seq::empty())
    } else {
        pipe_fields_from(s, i + 1, cur.push(s[i]))
    }
}

pub open spec fn pipe_fields(s: Seq<char>) -> Seq<Seq<char>> {
    pipe_fields_from(s, 0, Seq::empty())
}

fn split_pipes(s: &Vec<char>) -> (r: Vec<Vec<char>>)
    ensures
        views(r@) == pipe_fields(s@),
{
    let mut out: Vec<Vec<char>> = Vec::new();
    let mut cur: Vec<char> = Vec::new();
    let mut i: usize = 0;
    while i < s.len()
        invariant
            i <= s@.len(),
            views(out@) + pipe_fields_from(s@, i as int, cur@) == pipe_fields(s@),
        decreases s@.len() - i,
    {
        let c = s[i];
        if c == '|' {
            let ghost before = views(out@);
            let ghost cur_v = cur@;
            out.push(cur);
            cur = Vec::new();
            proof {
                assert(views(out@) =~= before.push(cur_v));
                assert(pipe_fields_from(s@, i as int, cur_v) == seq![cur_v] + pipe_fields_from(
                    s@,
                    i + 1,
                    Seq::empty(),
                ));
                assert(before + (seq![cur_v] + pipe_fields_from(s@, i + 1, Seq::empty())) =~= before.push(
                    cur_v,
                ) + pipe_fields_from(s@, i + 1, cur@));
            }
        } else {
            cur.push(c);
        }
        i = i + 1;
    }
    let ghost before = views(out@);
    let ghost cur_v = cur@;
    out.push(cur);
    proof {
        assert(views(out@) =~= before.push(cur_v));
        assert(before + seq![cur_v] =~= before.push(cur_v));
    }
    out
}


/// Appends `part` to `out`.
fn push_all(out: &mut Vec<char>, part: &Vec<char>)
    ensures
        final(out)@ == old(out)@ + part@,
{
    let mut j: usize = 0;
    while j < part.len()
        invariant
            j <= part@.len(),
            out@ == old(out)@ + part@.take(j as int),
        decreases part@.len() - j,
    {
        out.push(part[j]);
        j = j + 1;
    }
    assert(part@.take(part@.len() as int) =~= part@);
}

/// Appends a comma-joined list's next part: a comma first unless it is the
/// first part.
proof fn lemma_comma_join_push(parts: Seq<Seq<char>>, p: Seq<char>)
    ensures
        comma_join(parts.push(p)) == (if parts.len() == 0 {
            p
        } else {
            comma_join(parts) + seq![','] + p
        }),
{
    assert(parts.push(p).drop_last() =~= parts);
    if parts.len() == 0 {
        assert(parts.push(p) =~= seq![p]);
    }
}

/// A copy of a list of hashes.
fn copy_keys(v: &Vec<u64>) -> (r: Vec<u64>)
    ensures
        r@ == v@,
{
    let mut out: Vec<u64> = Vec::new();
    let mut i: usize = 0;
    while i < v.len()
        invariant
            i <= v@.len(),
            out@ == v@.take(i as int),
        decreases v@.len() - i,
    {
        out.push(v[i]);
        proof {
            assert(v@.take(i + 1) =~= v@.take(i as int).push(v@[i as int]));
        }
        i = i + 1;
    }
    assert(v@.take(v@.len() as int) =~= v@);
    out
}

// ── Ranking candidate moves ───────────────────────────────────────────────────

/// Score `a` ranks strictly before score `b`: the higher first when `desc`,
/// else the lower first.
pub open spec fn beats(a: i32, b: i32, desc: bool) -> bool {
    if desc {
        a > b
    } else {
        a < b
    }
}

fn ranks_before(a: i32, b: i32, desc: bool) -> (r: bool)
    ensures
        r == beats(a, b, desc),
{
    if desc {
        a > b
    } else {
        a < b
    }
}

/// Where a stable insertion puts `x` into `sorted`, searching from `k`:
/// before the first entry whose score it beats.
pub open spec fn insert_at(sorted: Seq<(usize, i32)>, x: (usize, i32), desc: bool, k: int) -> int
    decreases sorted.len() - k,
{
    if k < 0 || k >= sorted.len() {
        sorted.len() as int
    } else if beats(x.1, sorted[k].1, desc) {
        k
    } else {
        insert_at(sorted, x, desc, k + 1)
    }
}

/// The entries ordered by score, entries with equal scores in their first
/// order: what a stable sort by score gives.
pub open spec fn stable_sorted(s: Seq<(usize, i32)>, desc: bool) -> Seq<(usize, i32)>
    decreases s.len(),
{
    if s.len() == 0 {
        s
    } else {
        let p = stable_sorted(s.drop_last(), desc);
        p.insert(insert_at(p, s.last(), desc, 0), s.last())
    }
}

proof fn lemma_insert_at_bound(sorted: Seq<(usize, i32)>, x: (usize, i32), desc: bool, k: int)
    requires
        0 <= k,
    ensures
        0 <= insert_at(sorted, x, desc, k) <= sorted.len(),
    decreases sorted.len() - k,
{
    if k < sorted.len() {
        lemma_insert_at_bound(sorted, x, desc, k + 1);
    }
}

/// A stable sort keeps the entries: as many, and each one of the input.
proof fn lemma_stable_sorted_elems(s: Seq<(usize, i32)>, desc: bool)
    ensures
        stable_sorted(s, desc).len() == s.len(),
        forall|i: int|
            0 <= i < stable_sorted(s, desc).len() ==> s.contains(#[trigger] stable_sorted(s, desc)[i]),
    decreases s.len(),
{
    if s.len() > 0 {
        let p = stable_sorted(s.drop_last(), desc);
        lemma_stable_sorted_elems(s.drop_last(), desc);
        let k = insert_at(p, s.last(), desc, 0);
        lemma_insert_at_bound(p, s.last(), desc, 0);
        let q = p.insert(k, s.last());
        assert forall|i: int| 0 <= i < q.len() implies s.contains(#[trigger] q[i]) by {
            if i < k {
                assert(q[i] == p[i]);
                let j = choose|j: int| 0 <= j < s.drop_last().len() && s.drop_last()[j] == p[i];
                assert(s[j] == p[i]);
            } else if i == k {
                assert(s[s.len() - 1] == s.last());
            } else {
                assert(q[i] == p[i - 1]);
                let j = choose|j: int| 0 <= j < s.drop_last().len() && s.drop_last()[j] == p[i - 1];
                assert(s[j] == p[i - 1]);
            }
        }
    }
}

/// A stable sort orders the entries: no entry is beaten by one after it.
pub proof fn lemma_stable_sorted_ordered(s: Seq<(usize, i32)>, desc: bool)
    ensures
        forall|i: int, j: int|
            0 <= i < j < stable_sorted(s, desc).len() ==> !beats(
                #[trigger] stable_sorted(s, desc)[j].1,
                #[trigger] stable_sorted(s, desc)[i].1,
                desc,
            ),
    decreases s.len(),
{
    if s.len() > 0 {
        let p = stable_sorted(s.drop_last(), desc);
        lemma_stable_sorted_ordered(s.drop_last(), desc);
        let x = s.last();
        let k = insert_at(p, x, desc, 0);
        lemma_insert_at_bound(p, x, desc, 0);
        lemma_insert_at_first(p, x, desc, 0);
        let q = p.insert(k, x);
        assert forall|i: int, j: int| 0 <= i < j < q.len() implies !beats(
            #[trigger] q[j].1,
            #[trigger] q[i].1,
            desc,
        ) by {
            let pi = if i < k { i } else if i == k { -1 } else { i - 1 };
            let pj = if j < k { j } else if j == k { -1 } else { j - 1 };
            if i == k {
                // x against a later entry, which x beats or ties.
                assert(q[j] == p[pj]);
                assert(!beats(p[pj].1, p[k].1, desc) || pj == k);
            } else if j == k {
                assert(q[i] == p[pi]);
                assert(!beats(x.1, p[pi].1, desc));
            } else {
                assert(q[i] == p[pi]);
                assert(q[j] == p[pj]);
            }
        }
    }
}

/// What `insert_at` finds from `k`: no entry from `k` up to the place is
/// beaten by `x`, and the entry at the place, if any, is.
proof fn lemma_insert_at_first(sorted: Seq<(usize, i32)>, x: (usize, i32), desc: bool, k: int)
    requires
        0 <= k,
    ensures
        forall|i: int| k <= i < insert_at(sorted, x, desc, k) ==> !beats(x.1, #[trigger] sorted[i].1, desc),
        insert_at(sorted, x, desc, k) < sorted.len() ==> beats(x.1, sorted[insert_at(sorted, x, desc, k)].1, desc),
    decreases sorted.len() - k,
{
    if k < sorted.len() && !beats(x.1, sorted[k].1, desc) {
        lemma_insert_at_first(sorted, x, desc, k + 1);
    }
}

/// Sorts scored entries by score, stably.
fn sort_scores(s: &Vec<(usize, i32)>, desc: bool) -> (r: Vec<(usize, i32)>)
    ensures
        r@ == stable_sorted(s@, desc),
{
    let mut out: Vec<(usize, i32)> = Vec::new();
    let mut i: usize = 0;
    while i < s.len()
        invariant
            i <= s@.len(),
            out@ == stable_sorted(s@.take(i as int), desc),
        decreases s@.len() - i,
    {
        let x = s[i];
        let mut k: usize = 0;
        while k < out.len() && !ranks_before(x.1, out[k].1, desc)
            invariant
                k <= out@.len(),
                insert_at(out@, x, desc, 0) == insert_at(out@, x, desc, k as int),
            decreases out@.len() - k,
        {
            k = k + 1;
        }
        proof {
            lemma_insert_at_bound(out@, x, desc, 0);
            assert(s@.take(i + 1).drop_last() =~= s@.take(i as int));
            assert(s@.take(i + 1).last() == x);
        }
        out.insert(k, x);
        i = i + 1;
    }
    assert(s@.take(s@.len() as int) =~= s@);
    out
}

/// The text of a ranked entry: the move's UCI text, a colon, the score.
pub open spec fn entry_text(ms: Seq<Move>, e: (usize, i32)) -> Seq<char> {
    uci_chars(ms[e.0 as int]) + seq![':'] + int_text(e.1 as int)
}

/// The comma-joined texts of the first `n` ranked entries.
pub open spec fn ranking_text(ms: Seq<Move>, ranked: Seq<(usize, i32)>, n: int) -> Seq<char> {
    let k = if n < ranked.len() {
        n
    } else {
        ranked.len() as int
    };
    comma_join(Seq::new(k as nat, |i: int| entry_text(ms, ranked[i])))
}

// ── The engine ────────────────────────────────────────────────────────────────

/// White is to move.
pub open spec fn white_to_move(b: Board) -> bool {
    b.side == Color::White
}

/// The seed of the opening-book salt.
pub const BOOK_SALT_SEED: u64 = 0x9E3779B97F4A7C15;

/// The next book salt: one step of a 64-bit linear congruential generator.
pub open spec fn next_salt(s: u64) -> u64 {
    s.wrapping_mul(6364136223846793005u64).wrapping_add(1442695040888963407u64)
}

/// A list of FENs whose non-blank entries `from_fen` can read.
pub open spec fn history_ok(s: Seq<char>) -> bool {
    let f = pipe_fields(s);
    forall|i: int| 0 <= i < f.len() && tokens(#[trigger] f[i]).len() > 0 ==> fen_ok(f[i])
}

/// `hs` are the hashes of the positions of the non-blank FENs of `fields`,
/// in order.
pub open spec fn history_hashes(fields: Seq<Seq<char>>, hs: Seq<u64>) -> bool
    decreases fields.len(),
{
    if fields.len() == 0 {
        hs.len() == 0
    } else if tokens(fields.last()).len() == 0 {
        history_hashes(fields.drop_last(), hs)
    } else {
        &&& hs.len() > 0
        &&& history_hashes(fields.drop_last(), hs.drop_last())
        &&& exists|b: Board| #[trigger] fen_board(fields.last(), b) && b.zobrist == hs.last()
    }
}

/// The book move the engine plays from a position: the book's choice for
/// the FEN at this salt, when it is the UCI text of a legal move.
pub open spec fn book_choice(b: Board, fen: Seq<char>, salt: u64) -> Option<Seq<char>> {
    match book_probe_from(fen_key_spec(fen), salt, 0) {
        Some(u) => if uci_texts(legal_list(b)).contains(u) {
            Some(u)
        } else {
            None
        },
        None => None,
    }
}

/// The move text the engine answers with after a search found `mv`: `mv`
/// when it is legal, else the first legal move, else nothing.
pub open spec fn final_text(b: Board, mv: Move) -> Seq<char> {
    let legal = legal_list(b);
    if legal.contains(mv) {
        uci_chars(mv)
    } else if legal.len() > 0 {
        uci_chars(legal[0])
    } else {
        Seq::empty()
    }
}

/// The text is the UCI text of a legal move of `b`, or empty when `b` has
/// none.
pub open spec fn legal_answer(b: Board, s: Seq<char>) -> bool {
    if legal_list(b).len() == 0 {
        s.len() == 0
    } else {
        uci_texts(legal_list(b)).contains(s)
    }
}

/// The answer to a search result: `mv` when it is legal, else the first
/// legal move, else the empty string.
pub fn finalize_move(board: &Board, mv: Move) -> (r: String)
    requires
        crate::board::valid(*board),
        crate::movegen::has_king(*board),
    ensures
        r@ == final_text(*board, mv),
        legal_answer(*board, r@),
{
    let legal = legal_moves(board);
    if contains_move(&legal, mv) {
        let s = mv.to_uci();
        proof {
            let j = choose|j: int| 0 <= j < legal@.len() && legal@[j] == mv;
            assert(uci_texts(legal@)[j] == uci_chars(mv));
        }
        return s;
    }
    if legal.len() > 0 {
        let s = legal[0].to_uci();
        proof {
            assert(uci_texts(legal@)[0] == uci_chars(legal@[0]));
        }
        return s;
    }
    String::new()
}


/// Checks that every non-blank FEN of a "|"-separated list can be read
/// (see `history_ok`).
pub fn history_is_readable(fens_pipe: &str) -> (r: bool)
    ensures
        r == history_ok(fens_pipe@),
{
    let chars = str_chars(fens_pipe);
    let fields = split_pipes(&chars);
    let ghost fs = pipe_fields(fens_pipe@);
    let mut i: usize = 0;
    while i < fields.len()
        invariant
            i <= fields@.len(),
            views(fields@) == fs,
            fs == pipe_fields(fens_pipe@),
            forall|j: int| 0 <= j < i && tokens(#[trigger] fs[j]).len() > 0 ==> fen_ok(fs[j]),
        decreases fields@.len() - i,
    {
        let f = &fields[i];
        assert(f@ == fs[i as int]);
        let toks = split_tokens(f);
        if toks.len() > 0 {
            let st = chars_to_string(f);
            if !fen_is_readable(st.as_str()) {
                return false;
            }
        }
        i = i + 1;
    }
    true
}

pub struct Engine {
    pub searcher: Searcher,
    pub book_salt: u64,
    /// Zobrist hashes of every prior game position (excluding current).
    pub game_history: Vec<u64>,
}

impl Engine {
    pub fn new() -> (e: Engine)
        ensures
            e.searcher.wf(),
            e.book_salt == BOOK_SALT_SEED,
            e.game_history@ == Seq::<u64>::empty(),
    {
        Engine { searcher: Searcher::new(), book_salt: BOOK_SALT_SEED, game_history: Vec::new() }
    }

    /// Provide the game's prior positions as a "|"-delimited FEN list.
    /// Drives threefold-repetition detection in search.
    pub fn set_history(&mut self, fens_pipe: &str)
        requires
            history_ok(fens_pipe@),
        ensures
            final(self).searcher == old(self).searcher,
            final(self).book_salt == old(self).book_salt,
            history_hashes(pipe_fields(fens_pipe@), final(self).game_history@),
    {
        self.game_history = Vec::new();
        let chars = str_chars(fens_pipe);
        let fields = split_pipes(&chars);
        let ghost fs = pipe_fields(fens_pipe@);
        let mut i: usize = 0;
        while i < fields.len()
            invariant
                i <= fields@.len(),
                views(fields@) == fs,
                fs == pipe_fields(fens_pipe@),
                history_ok(fens_pipe@),
                self.searcher == old(self).searcher,
                self.book_salt == old(self).book_salt,
                history_hashes(fs.take(i as int), self.game_history@),
            decreases fields@.len() - i,
        {
            let f = &fields[i];
            assert(f@ == fs[i as int]);
            let toks = split_tokens(f);
            let ghost before = self.game_history@;
            if toks.len() > 0 {
                let st = chars_to_string(f);
                let b = Board::from_fen(st.as_str());
                self.game_history.push(b.zobrist);
                proof {
                    assert(self.game_history@.drop_last() =~= before);
                    assert(fen_board(fs[i as int], b));
                }
            }
            proof {
                assert(fs.take(i + 1).drop_last() =~= fs.take(i as int));
                assert(fs.take(i + 1).last() == fs[i as int]);
            }
            i = i + 1;
        }
        assert(fs.take(fields@.len() as int) =~= fs);
    }

    /// Steps the book salt and looks the position up in the opening book;
    /// the book's move is played only when it is legal here.
    pub fn book_move(&mut self, board: &Board, fen: &str) -> (r: Option<String>)
        requires
            crate::board::valid(*board),
            crate::movegen::has_king(*board),
        ensures
            final(self).searcher == old(self).searcher,
            final(self).game_history == old(self).game_history,
            final(self).book_salt == next_salt(old(self).book_salt),
            r matches Some(s) ==> book_choice(*board, fen@, final(self).book_salt) == Some(s@),
            r is None ==> book_choice(*board, fen@, final(self).book_salt) is None,
    {
        self.book_salt = self.book_salt.wrapping_mul(6364136223846793005).wrapping_add(1442695040888963407);
        let uci = match probe(fen, self.book_salt) {
            Some(u) => u,
            None => {
                return None;
            },
        };
        let wanted = str_chars(uci.as_str());
        let legal = legal_moves(board);
        let mut i: usize = 0;
        while i < legal.len()
            invariant
                i <= legal@.len(),
                legal@ == legal_list(*board),
                wanted@ == uci@,
                forall|j: int| 0 <= j < i ==> uci_texts(legal@)[j] != uci@,
                self.searcher == old(self).searcher,
                self.game_history == old(self).game_history,
                self.book_salt == next_salt(old(self).book_salt),
                book_probe_from(fen_key_spec(fen@), self.book_salt, 0) == Some(uci@),
            decreases legal@.len() - i,
        {
            let text = legal[i].to_uci();
            let got = str_chars(text.as_str());
            if chars_eq(&got, &wanted) {
                proof {
                    assert(uci_texts(legal@)[i as int] == uci@);
                }
                return Some(uci);
            }
            i = i + 1;
        }
        proof {
            if uci_texts(legal@).contains(uci@) {
                let j = choose|j: int| 0 <= j < uci_texts(legal@).len() && uci_texts(legal@)[j] == uci@;
                assert(false);
            }
        }
        None
    }

    /// Best move at fixed depth: the book's move when it has a legal one,
    /// else the move the search leaves in the table for the position (see
    /// `final_text`).
    pub fn best_move<E: SearchEnv>(&mut self, fen: &str, depth: u32, env: E) -> (r: String)
        requires
            old(self).searcher.wf(),
            fen_playable(fen@),
        ensures
            final(self).searcher.wf(),
            final(self).game_history == old(self).game_history,
            final(self).book_salt == next_salt(old(self).book_salt),
            exists|b: Board|
                #[trigger] fen_board(fen@, b) && legal_answer(b, r@) && (book_choice(
                    b,
                    fen@,
                    next_salt(old(self).book_salt),
                ) matches Some(u) ==> r@ == u) && (book_choice(b, fen@, next_salt(old(self).book_salt))
                    is None ==> (table_move(final(self).searcher.tt.entries(), b.zobrist) matches Some(m)
                    ==> r@ == final_text(b, m))),
    {
        let board = Board::from_fen(fen);
        proof {
            lemma_fen_playable(fen@, board);
        }
        if let Some(m) = self.book_move(&board, fen) {
            proof {
                let u = m@;
                let j = choose|j: int| 0 <= j < uci_texts(legal_list(board)).len() && uci_texts(legal_list(board))[j] == u;
                assert(uci_texts(legal_list(board)).contains(u));
            }
            return m;
        }
        let mut info = SearchInfo::new_depth(depth, env);
        info.history = copy_keys(&self.game_history);
        self.searcher.clear_for_search();
        let (mv, _) = self.searcher.search(&board, &mut info);
        finalize_move(&board, mv)
    }

    /// Best move with a time budget in milliseconds (iterative deepening).
    pub fn best_move_time<E: SearchEnv>(&mut self, fen: &str, ms: u32, env: E) -> (r: String)
        requires
            old(self).searcher.wf(),
            fen_playable(fen@),
        ensures
            final(self).searcher.wf(),
            final(self).game_history == old(self).game_history,
            final(self).book_salt == next_salt(old(self).book_salt),
            exists|b: Board|
                #[trigger] fen_board(fen@, b) && legal_answer(b, r@) && (book_choice(
                    b,
                    fen@,
                    next_salt(old(self).book_salt),
                ) matches Some(u) ==> r@ == u),
    {
        let board = Board::from_fen(fen);
        proof {
            lemma_fen_playable(fen@, board);
        }
        if let Some(m) = self.book_move(&board, fen) {
            proof {
                let u = m@;
                assert(uci_texts(legal_list(board)).contains(u));
            }
            return m;
        }
        let mut info = SearchInfo::new_time_ms(ms as u64, env);
        info.history = copy_keys(&self.game_history);
        self.searcher.clear_for_search();
        let (mv, _) = self.searcher.search(&board, &mut info);
        finalize_move(&board, mv)
    }

    /// Position eval in centipawns from White's perspective. A side to move
    /// that is checkmated, in a position the table holds nothing for, is
    /// scored as mated.
    pub fn eval_position<E: SearchEnv>(&mut self, fen: &str, depth: u32, env: E) -> (r: i32)
        requires
            old(self).searcher.wf(),
            fen_valid(fen@),
        ensures
            final(self).searcher.wf(),
            final(self).game_history == old(self).game_history,
            final(self).book_salt == old(self).book_salt,
            exists|b: Board|
                #[trigger] fen_board(fen@, b) && (0 < depth <= 0x7FFF_FFFF && probe_spec(
                    old(self).searcher.tt.entries(),
                    b.zobrist,
                ) is None && checked(b) && legal_list(b).len() == 0 ==> r == (if white_to_move(b) {
                    -MATE_SCORE
                } else {
                    MATE_SCORE as int
                })) && (0 < depth <= 3 && crate::search::stalemated_root(
                    old(self).searcher.tt.entries(),
                    old(self).searcher.eval_cache@,
                    b,
                    depth,
                ) ==> r == 0),
    {
        let board = Board::from_fen(fen);
        proof {
            lemma_fen_playable(fen@, board);
        }
        self.searcher.clear_for_search();
        let mut info = SearchInfo::new_depth(depth, env);
        info.history = copy_keys(&self.game_history);
        let ghost entries = self.searcher.tt.entries();
        let (_, score) = self.searcher.search(&board, &mut info);
        proof {
            assert(entries == old(self).searcher.tt.entries());
            assert(!crate::search::forced_draw(board, 0, info.history@));
        }
        if board.side == Color::White {
            score
        } else {
            0i32.wrapping_sub(score)
        }
    }

    /// Top-N candidate moves. Returns "uci:cp" entries joined by "," —
    /// cp is from White's perspective. Sorted best-for-side-to-move first.
    pub fn analyse_multi<E: SearchEnv>(&mut self, fen: &str, depth: u32, n: u32, env: E) -> (r: String)
        requires
            old(self).searcher.wf(),
            fen_playable(fen@),
        ensures
            final(self).searcher.wf(),
            final(self).game_history == old(self).game_history,
            final(self).book_salt == old(self).book_salt,
            exists|b: Board, scores: Seq<(usize, i32)>|
                fen_board(fen@, b) && scores.len() == legal_list(b).len() && (forall|i: int|
                    0 <= i < scores.len() ==> (#[trigger] scores[i]).0 == i) && r@ == #[trigger] ranking_text(
                    legal_list(b),
                    stable_sorted(scores, white_to_move(b)),
                    n as int,
                ),
    {
        let board = Board::from_fen(fen);
        proof {
            lemma_fen_playable(fen@, board);
            lemma_legal_in_range(board);
        }
        let moves = legal_moves(&board);
        let inner_depth = if depth > 1 {
            depth - 1
        } else {
            1
        };
        let stm_white = board.side == Color::White;
        let mut env = env;
        let mut results: Vec<(usize, i32)> = Vec::with_capacity(moves.len());
        let mut i: usize = 0;
        while i < moves.len()
            invariant
                i <= moves@.len(),
                moves@ == legal_list(board),
                crate::movegen::all_in_range(board, moves@),
                crate::board::valid(board),
                self.searcher.wf(),
                self.game_history == old(self).game_history,
                self.book_salt == old(self).book_salt,
                results@.len() == i,
                forall|j: int| 0 <= j < i ==> (#[trigger] results@[j]).0 == j,
            decreases moves@.len() - i,
        {
            let mv = moves[i];
            assert(crate::board::move_in_range(board, moves@[i as int]));
            let child = board.make_move(mv);
            self.searcher.clear_for_search();
            let mut info = SearchInfo::new_depth(inner_depth, env);
            info.history = copy_keys(&self.game_history);
            info.history.push(board.zobrist);
            let (_, raw) = self.searcher.search(&child, &mut info);
            env = info.env;
            // raw is from child's STM (= opponent) perspective.
            let from_us = 0i32.wrapping_sub(raw);
            let white_cp = if stm_white {
                from_us
            } else {
                0i32.wrapping_sub(from_us)
            };
            results.push((i, white_cp));
            i = i + 1;
        }
        let ranked = sort_scores(&results, stm_white);
        let ghost ms = moves@;
        let ghost rk = ranked@;
        proof {
            lemma_stable_sorted_elems(results@, stm_white);
            assert forall|x: int| 0 <= x < rk.len() implies (#[trigger] rk[x]).0 < ms.len() by {
                let j = choose|j: int| 0 <= j < results@.len() && results@[j] == rk[x];
                assert(results@[j].0 == j);
            }
        }
        let k: usize = if (n as usize) < ranked.len() {
            n as usize
        } else {
            ranked.len()
        };
        let ghost texts = Seq::new(k as nat, |j: int| entry_text(ms, rk[j]));
        let mut out: Vec<char> = Vec::new();
        let mut j: usize = 0;
        while j < k
            invariant
                j <= k,
                k <= ranked@.len(),
                ranked@ == rk,
                moves@ == ms,
                texts == Seq::new(k as nat, |x: int| entry_text(ms, rk[x])),
                forall|x: int| 0 <= x < rk.len() ==> (#[trigger] rk[x]).0 < ms.len(),
                out@ == comma_join(texts.take(j as int)),
            decreases k - j,
        {
            if j > 0 {
                out.push(',');
            }
            let ghost before = out@;
            let e = ranked[j];
            let text = moves[e.0].to_uci();
            let t = str_chars(text.as_str());
            push_all(&mut out, &t);
            out.push(':');
            push_int(&mut out, e.1);
            proof {
                lemma_comma_join_push(texts.take(j as int), texts[j as int]);
                assert(texts.take(j + 1) =~= texts.take(j as int).push(texts[j as int]));
                assert(texts[j as int] == entry_text(ms, rk[j as int]));
                if j > 0 {
                    assert(out@ =~= comma_join(texts.take(j as int)) + seq![','] + texts[j as int]);
                } else {
                    assert(out@ =~= texts[j as int]);
                }
            }
            j = j + 1;
        }
        assert(texts.take(k as int) =~= texts);
        assert(out@ == ranking_text(legal_list(board), stable_sorted(results@, white_to_move(board)), n as int));
        chars_to_string(&out)
    }

    /// All legal moves for given FEN as comma-separated UCI strings.
    pub fn legal_moves_for(&self, fen: &str) -> (r: String)
        requires
            fen_playable(fen@),
        ensures
            exists|b: Board| #[trigger] fen_board(fen@, b) && r@ == comma_join(uci_texts(legal_list(b))),
    {
        let board = Board::from_fen(fen);
        proof {
            lemma_fen_playable(fen@, board);
        }
        let legal = legal_moves(&board);
        let mut out: Vec<char> = Vec::new();
        let mut i: usize = 0;
        while i < legal.len()
            invariant
                i <= legal@.len(),
                out@ == comma_join(uci_texts(legal@).take(i as int)),
            decreases legal@.len() - i,
        {
            if i > 0 {
                out.push(',');
            }
            let text = legal[i].to_uci();
            let t = str_chars(text.as_str());
            push_all(&mut out, &t);
            proof {
                let ts = uci_texts(legal@);
                lemma_comma_join_push(ts.take(i as int), uci_chars(legal@[i as int]));
                assert(ts.take(i + 1) =~= ts.take(i as int).push(uci_chars(legal@[i as int])));
            }
            i = i + 1;
        }
        assert(uci_texts(legal@).take(legal@.len() as int) =~= uci_texts(legal@));
        chars_to_string(&out)
    }
}

} // verus!
