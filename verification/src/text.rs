//! Character-level helpers: turning strings into character sequences and back,
//! splitting on whitespace, and reading unsigned decimal numbers.
use vstd::prelude::*;

verus! {

/// What `char::is_uppercase` answers for a character outside ASCII (the
/// Unicode `Uppercase` property).
pub uninterp spec fn wide_is_uppercase(c: char) -> bool;

/// Whitespace as `char::is_whitespace` decides it, the Unicode
/// `White_Space` property: the space, U+0009 to U+000D, U+0085, U+00A0,
/// U+1680, U+2000 to U+200A, U+2028, U+2029, U+202F, U+205F and U+3000.
pub open spec fn char_is_whitespace(c: char) -> bool {
    let x = c as u32;
    ||| x == 0x20
    ||| (0x09 <= x && x <= 0x0D)
    ||| x == 0x85
    ||| x == 0xA0
    ||| x == 0x1680
    ||| (0x2000 <= x && x <= 0x200A)
    ||| x == 0x2028
    ||| x == 0x2029
    ||| x == 0x202F
    ||| x == 0x205F
    ||| x == 0x3000
}

/// Upper case as `char::is_uppercase` decides it: in ASCII, 'A' to 'Z'.
pub open spec fn char_is_uppercase(c: char) -> bool {
    if (c as u32) < 128 {
        'A' <= c && c <= 'Z'
    } else {
        wide_is_uppercase(c)
    }
}

/// Whether a character is whitespace, as `char::is_whitespace` answers.
pub fn is_whitespace(c: char) -> (r: bool)
    ensures
        r == char_is_whitespace(c),
{
    let x = c as u32;
    x == 0x20 || (0x09 <= x && x <= 0x0D) || x == 0x85 || x == 0xA0 || x == 0x1680 || (0x2000 <= x
        && x <= 0x200A) || x == 0x2028 || x == 0x2029 || x == 0x202F || x == 0x205F || x == 0x3000
}

/// Calls `char::is_uppercase`, which std documents as the Unicode
/// `Uppercase` property; in ASCII it holds of 'A' to 'Z'. Outside ASCII the
/// answer is only named.
#[verifier::external_body]
pub(crate) fn is_uppercase(c: char) -> (r: bool)
    ensures
        r == char_is_uppercase(c),
        (c as u32) >= 128 ==> r == wide_is_uppercase(c),
{
    c.is_uppercase()
}

/// Builds a `String` from characters by `Iterator::collect`; std documents
/// that the string holds exactly these characters, in order.
#[verifier::external_body]
pub(crate) fn chars_to_string(v: &Vec<char>) -> (r: String)
    ensures
        r@ == v@,
{
    v.iter().collect()
}

/// The characters of a string slice.
pub fn str_chars(s: &str) -> (v: Vec<char>)
    ensures
        v@ == s@,
{
    let mut v: Vec<char> = Vec::new();
    for c in it: s.chars()
        invariant
            v@ == it.seq().take(it.index() as int),
            it.seq() == s@,
    {
        v.push(c);
    }
    v
}

/// `c` lowered as `char::to_ascii_lowercase` does: ASCII capitals become
/// small letters, everything else is kept.
pub open spec fn ascii_lower(c: char) -> char {
    if 'A' <= c <= 'Z' {
        ((c as u32) + 32) as char
    } else {
        c
    }
}

pub fn to_ascii_lower(c: char) -> (r: char)
    ensures
        r == ascii_lower(c),
{
    if 'A' <= c && c <= 'Z' {
        ((c as u8) + 32) as char
    } else {
        c
    }
}

/// The tokens of `s` from position `i` on, `cur` being the part of a token
/// already read: maximal runs of non-whitespace characters.
pub open spec fn tokens_from(s: Seq<char>, i: int, cur: Seq<char>) -> Seq<Seq<char>>
    decreases s.len() - i,
{
    if i >= s.len() || i < 0 {
        if cur.len() > 0 {
            seq![cur]
        } else {
            Seq::empty()
        }
    } else if char_is_whitespace(s[i]) {
        (if cur.len() > 0 {
            seq![cur]
        } else {
            Seq::empty()
        }) + tokens_from(s, i + 1, Seq::empty())
    } else {
        tokens_from(s, i + 1, cur.push(s[i]))
    }
}

/// The whitespace-separated tokens of `s`, in order, as
/// `str::split_whitespace` yields them.
pub open spec fn tokens(s: Seq<char>) -> Seq<Seq<char>> {
    tokens_from(s, 0, Seq::empty())
}

/// The character sequences held by a vector of character vectors.
pub open spec fn views(v: Seq<Vec<char>>) -> Seq<Seq<char>> {
    Seq::new(v.len(), |i: int| v[i]@)
}

/// Splits characters at whitespace.
pub fn split_tokens(s: &Vec<char>) -> (r: Vec<Vec<char>>)
    ensures
        views(r@) == tokens(s@),
{
    let mut out: Vec<Vec<char>> = Vec::new();
    let mut cur: Vec<char> = Vec::new();
    let mut i: usize = 0;
    while i < s.len()
        invariant
            i <= s.len(),
            views(out@) + tokens_from(s@, i as int, cur@) == tokens(s@),
        decreases s.len() - i,
    {
        let c = s[i];
        if is_whitespace(c) {
            let ghost t = tokens_from(s@, i as int + 1, Seq::empty());
            let ghost o = views(out@);
            let ghost cv = cur@;
            if cur.len() > 0 {
                assert(tokens_from(s@, i as int, cv) == seq![cv] + t);
                out.push(cur);
                assert(views(out@) =~= o.push(cv));
                assert(o + (seq![cv] + t) =~= o.push(cv) + t);
                cur = Vec::new();
            } else {
                assert(tokens_from(s@, i as int, cv) == Seq::<Seq<char>>::empty() + t);
                assert(Seq::<Seq<char>>::empty() + t =~= t);
            }
            assert(cur@ =~= Seq::<char>::empty());
        } else {
            cur.push(c);
        }
        i = i + 1;
    }
    if cur.len() > 0 {
        let ghost before = views(out@);
        out.push(cur);
        assert(views(out@) =~= before.push(cur@));
    }
    assert(views(out@) =~= tokens(s@)) by {
        if cur@.len() == 0 {
            assert(tokens_from(s@, i as int, cur@) =~= Seq::<Seq<char>>::empty());
        }
    }
    out
}

/// The value of a string of decimal digits.
pub open spec fn digits_value(s: Seq<char>) -> int
    decreases s.len(),
{
    if s.len() == 0 {
        0
    } else {
        10 * digits_value(s.drop_last()) + ((s.last() as u32) - ('0' as u32))
    }
}

pub open spec fn all_digits(s: Seq<char>) -> bool {
    forall|i: int| 0 <= i < s.len() ==> '0' <= #[trigger] s[i] <= '9'
}

/// What `str::parse::<u32>` gives back: an optional `+`, then at least one
/// ASCII digit and nothing else, with a value that fits in a `u32`.
pub open spec fn parse_u32_spec(s: Seq<char>) -> Option<u32> {
    let d = if s.len() > 0 && s[0] == '+' {
        s.drop_first()
    } else {
        s
    };
    if d.len() > 0 && all_digits(d) && digits_value(d) <= u32::MAX {
        Some(digits_value(d) as u32)
    } else {
        None
    }
}

proof fn lemma_digits_value_nonneg(s: Seq<char>)
    requires
        all_digits(s),
    ensures
        digits_value(s) >= 0,
    decreases s.len(),
{
    if s.len() > 0 {
        assert(all_digits(s.drop_last()));
        lemma_digits_value_nonneg(s.drop_last());
        assert('0' <= s[s.len() - 1] <= '9');
    }
}

/// Reads an unsigned decimal number as `str::parse::<u32>` does.
pub fn parse_u32(s: &Vec<char>) -> (r: Option<u32>)
    ensures
        r == parse_u32_spec(s@),
{
    let start: usize = if s.len() > 0 && s[0] == '+' {
        1
    } else {
        0
    };
    let ghost d = if s@.len() > 0 && s@[0] == '+' {
        s@.drop_first()
    } else {
        s@
    };
    assert(d =~= s@.subrange(start as int, s@.len() as int));
    if start >= s.len() {
        return None;
    }
    let mut value: u64 = 0;
    let mut i: usize = start;
    while i < s.len()
        invariant
            start <= i <= s.len(),
            start < s.len(),
            d == (if s@.len() > 0 && s@[0] == '+' {
                s@.drop_first()
            } else {
                s@
            }),
            d =~= s@.subrange(start as int, s@.len() as int),
            all_digits(s@.subrange(start as int, i as int)),
            value == digits_value(s@.subrange(start as int, i as int)),
            value <= u32::MAX,
        decreases s.len() - i,
    {
        let c = s[i];
        if c < '0' || c > '9' {
            proof {
                let k = i - start;
                assert(d[k] == c);
                assert(!('0' <= d[k] <= '9'));
                assert(!all_digits(d));
            }
            return None;
        }
        let digit = (c as u32) - ('0' as u32);
        let ghost prev = s@.subrange(start as int, i as int);
        let ghost next = s@.subrange(start as int, i + 1);
        assert(next.drop_last() =~= prev);
        assert(next.last() == c);
        assert(all_digits(next));
        assert(digits_value(next) == 10 * digits_value(prev) + digit);
        value = value * 10 + digit as u64;
        if value > 0xFFFF_FFFF {
            proof {
                assert(d.subrange(0, (i + 1 - start) as int) =~= next);
                // Every further digit only makes the value larger.
                lemma_digits_grow(d, (i + 1 - start) as int);
            }
            return None;
        }
        i = i + 1;
    }
    assert(s@.subrange(start as int, s@.len() as int) =~= d);
    Some(value as u32)
}

/// What `str::parse::<u64>` gives back: an optional `+`, then at least one
/// ASCII digit and nothing else, with a value that fits in a `u64`.
pub open spec fn parse_u64_spec(s: Seq<char>) -> Option<u64> {
    let d = if s.len() > 0 && s[0] == '+' {
        s.drop_first()
    } else {
        s
    };
    if d.len() > 0 && all_digits(d) && digits_value(d) <= u64::MAX {
        Some(digits_value(d) as u64)
    } else {
        None
    }
}

/// Reads an unsigned decimal number as `str::parse::<u64>` does.
pub fn parse_u64(s: &Vec<char>) -> (r: Option<u64>)
    ensures
        r == parse_u64_spec(s@),
{
    let start: usize = if s.len() > 0 && s[0] == '+' {
        1
    } else {
        0
    };
    let ghost d = if s@.len() > 0 && s@[0] == '+' {
        s@.drop_first()
    } else {
        s@
    };
    assert(d =~= s@.subrange(start as int, s@.len() as int));
    if start >= s.len() {
        return None;
    }
    let mut value: u128 = 0;
    let mut i: usize = start;
    while i < s.len()
        invariant
            start <= i <= s.len(),
            start < s.len(),
            d == (if s@.len() > 0 && s@[0] == '+' {
                s@.drop_first()
            } else {
                s@
            }),
            d =~= s@.subrange(start as int, s@.len() as int),
            all_digits(s@.subrange(start as int, i as int)),
            value == digits_value(s@.subrange(start as int, i as int)),
            value <= u64::MAX,
        decreases s.len() - i,
    {
        let c = s[i];
        if c < '0' || c > '9' {
            proof {
                let k = i - start;
                assert(d[k] == c);
                assert(!('0' <= d[k] <= '9'));
                assert(!all_digits(d));
            }
            return None;
        }
        let digit = (c as u32) - ('0' as u32);
        let ghost prev = s@.subrange(start as int, i as int);
        let ghost next = s@.subrange(start as int, i + 1);
        assert(next.drop_last() =~= prev);
        assert(next.last() == c);
        assert(all_digits(next));
        assert(digits_value(next) == 10 * digits_value(prev) + digit);
        value = value * 10 + digit as u128;
        if value > 0xFFFF_FFFF_FFFF_FFFF {
            proof {
                assert(d.subrange(0, (i + 1 - start) as int) =~= next);
                // Every further digit only makes the value larger.
                lemma_digits_grow(d, (i + 1 - start) as int);
            }
            return None;
        }
        i = i + 1;
    }
    assert(s@.subrange(start as int, s@.len() as int) =~= d);
    Some(value as u64)
}

/// The UTF-8 encoding of one character.
pub open spec fn utf8_char(c: char) -> Seq<u8> {
    let x = c as u32;
    if x < 0x80 {
        seq![x as u8]
    } else if x < 0x800 {
        seq![(0xC0 | (x >> 6u32)) as u8, (0x80 | (x & 0x3F)) as u8]
    } else if x < 0x10000 {
        seq![
            (0xE0 | (x >> 12u32)) as u8,
            (0x80 | ((x >> 6u32) & 0x3F)) as u8,
            (0x80 | (x & 0x3F)) as u8,
        ]
    } else {
        seq![
            (0xF0 | (x >> 18u32)) as u8,
            (0x80 | ((x >> 12u32) & 0x3F)) as u8,
            (0x80 | ((x >> 6u32) & 0x3F)) as u8,
            (0x80 | (x & 0x3F)) as u8,
        ]
    }
}

/// The UTF-8 encoding of a character sequence: the bytes a `str` of these
/// characters holds.
pub open spec fn utf8(s: Seq<char>) -> Seq<u8>
    decreases s.len(),
{
    if s.len() == 0 {
        Seq::empty()
    } else {
        utf8(s.drop_last()) + utf8_char(s.last())
    }
}

/// Encodes characters as UTF-8.
pub fn utf8_bytes(s: &Vec<char>) -> (r: Vec<u8>)
    ensures
        r@ == utf8(s@),
{
    let mut out: Vec<u8> = Vec::new();
    let mut i: usize = 0;
    while i < s.len()
        invariant
            i <= s@.len(),
            out@ == utf8(s@.take(i as int)),
        decreases s@.len() - i,
    {
        let c = s[i];
        let x = c as u32;
        let ghost before = out@;
        if x < 0x80 {
            out.push(x as u8);
        } else if x < 0x800 {
            out.push((0xC0 | (x >> 6)) as u8);
            out.push((0x80 | (x & 0x3F)) as u8);
        } else if x < 0x10000 {
            out.push((0xE0 | (x >> 12)) as u8);
            out.push((0x80 | ((x >> 6) & 0x3F)) as u8);
            out.push((0x80 | (x & 0x3F)) as u8);
        } else {
            out.push((0xF0 | (x >> 18)) as u8);
            out.push((0x80 | ((x >> 12) & 0x3F)) as u8);
            out.push((0x80 | ((x >> 6) & 0x3F)) as u8);
            out.push((0x80 | (x & 0x3F)) as u8);
        }
        proof {
            assert(s@.take(i + 1).drop_last() =~= s@.take(i as int));
            assert(s@.take(i + 1).last() == c);
            assert(out@ =~= before + utf8_char(c));
        }
        i = i + 1;
    }
    assert(s@.take(s@.len() as int) =~= s@);
    out
}

/// A string of digits is worth at least as much as each of its prefixes.
proof fn lemma_digits_grow(d: Seq<char>, n: int)
    requires
        0 <= n <= d.len(),
        all_digits(d.subrange(0, n)),
    ensures
        all_digits(d) ==> digits_value(d) >= digits_value(d.subrange(0, n)),
    decreases d.len() - n,
{
    if n < d.len() && all_digits(d) {
        let a = d.subrange(0, n);
        let b = d.subrange(0, n + 1);
        assert(b.drop_last() =~= a);
        assert(all_digits(b));
        lemma_digits_value_nonneg(a);
        assert('0' <= d[n] <= '9');
        assert(digits_value(b) >= digits_value(a));
        lemma_digits_grow(d, n + 1);
    } else if n == d.len() {
        assert(d.subrange(0, n) =~= d);
    }
}

/// Two character sequences are equal.
pub fn chars_eq(a: &Vec<char>, b: &Vec<char>) -> (r: bool)
    ensures
        r == (a@ == b@),
{
    if a.len() != b.len() {
        return false;
    }
    let mut i: usize = 0;
    while i < a.len()
        invariant
            a.len() == b.len(),
            i <= a.len(),
            forall|j: int| 0 <= j < i ==> a@[j] == b@[j],
        decreases a.len() - i,
    {
        if a[i] != b[i] {
            return false;
        }
        i = i + 1;
    }
    assert(a@ =~= b@);
    true
}

} // verus!
