//! Bitboards as sets of squares: bit `s` of a `u64` stands for square `s`
//! (a1 = 0, h8 = 63). The lemmas here read the bitwise operators as
//! set operations on squares.
use vstd::prelude::*;
use vstd::std_specs::bits::u64_trailing_zeros;
use vstd::std_specs::bits::axiom_u64_trailing_zeros;

verus! {

/// Square `s` is a member of bitboard `bb`.
pub open spec fn bit(bb: u64, s: int) -> bool {
    0 <= s < 64 && (bb >> (s as u64)) & 1u64 == 1u64
}

/// The single-square bitboard of `s` (empty when `s` is off the board).
pub open spec fn sq_bb(s: int) -> u64 {
    if 0 <= s < 64 { 1u64 << (s as u64) } else { 0u64 }
}

/// Number of members of `bb` among squares `0..n`.
pub open spec fn count_below(bb: u64, n: int) -> nat
    decreases n,
{
    if n <= 0 {
        0
    } else {
        count_below(bb, n - 1) + (if bit(bb, n - 1) { 1nat } else { 0nat })
    }
}

/// Number of members of `bb`.
pub open spec fn popcount(bb: u64) -> nat {
    count_below(bb, 64)
}

/// The members of `bb` that are `>= k`, in ascending order.
pub open spec fn squares_from(bb: u64, k: int) -> Seq<int>
    decreases 64 - k,
{
    if k >= 64 || k < 0 {
        Seq::empty()
    } else if bit(bb, k) {
        seq![k] + squares_from(bb, k + 1)
    } else {
        squares_from(bb, k + 1)
    }
}

/// The members of `bb` in ascending order.
pub open spec fn squares(bb: u64) -> Seq<int> {
    squares_from(bb, 0)
}

proof fn bv_or(a: u64, b: u64, s: u64)
    by (bit_vector)
    requires
        s < 64,
    ensures
        ((a | b) >> s) & 1u64 == 1u64 <==> ((a >> s) & 1u64 == 1u64 || (b >> s) & 1u64 == 1u64),
{
}

proof fn bv_and(a: u64, b: u64, s: u64)
    by (bit_vector)
    requires
        s < 64,
    ensures
        ((a & b) >> s) & 1u64 == 1u64 <==> ((a >> s) & 1u64 == 1u64 && (b >> s) & 1u64 == 1u64),
{
}

proof fn bv_not(a: u64, s: u64)
    by (bit_vector)
    requires
        s < 64,
    ensures
        ((!a) >> s) & 1u64 == 1u64 <==> !((a >> s) & 1u64 == 1u64),
{
}

proof fn bv_single(t: u64, s: u64)
    by (bit_vector)
    requires
        s < 64,
        t < 64,
    ensures
        ((1u64 << t) >> s) & 1u64 == 1u64 <==> s == t,
{
}

proof fn bv_zero(s: u64)
    by (bit_vector)
    requires
        s < 64,
    ensures
        (0u64 >> s) & 1u64 != 1u64,
{
}

proof fn bv_xor_differs(a: u64, b: u64, t: u64)
    by (bit_vector)
    requires
        t < 64,
        ((a ^ b) >> t) & 1u64 == 1u64,
    ensures
        ((a >> t) & 1u64 == 1u64) != ((b >> t) & 1u64 == 1u64),
{
}

proof fn bv_ne_xor(a: u64, b: u64)
    by (bit_vector)
    requires
        a != b,
    ensures
        a ^ b != 0,
{
}

proof fn bv_pop_lowest(x: u64, t: u64)
    by (bit_vector)
    requires
        t < 64,
        (x >> t) & 1u64 == 1u64,
        x << ((64 - t) as u64) == 0,
    ensures
        x & ((x - 1) as u64) == x & !(1u64 << t),
        x != 0,
{
}

proof fn bv_shl8(x: u64, s: u64)
    by (bit_vector)
    requires
        s < 64,
    ensures
        ((x << 8u64) >> s) & 1u64 == 1u64 <==> (s >= 8 && (x >> ((s - 8) as u64)) & 1u64 == 1u64),
{
}

proof fn bv_shr8(x: u64, s: u64)
    by (bit_vector)
    requires
        s < 64,
    ensures
        ((x >> 8u64) >> s) & 1u64 == 1u64 <==> (s < 56 && (x >> ((s + 8) as u64)) & 1u64 == 1u64),
{
}

proof fn bv_rank_mask(r: u64, s: u64)
    by (bit_vector)
    requires
        s < 64,
        r < 8,
    ensures
        ((0xFFu64 << ((8 * r) as u64)) >> s) & 1u64 == 1u64 <==> s / 8 == r,
{
}

proof fn bv_test(a: u64, t: u64)
    by (bit_vector)
    requires
        t < 64,
    ensures
        (a & (1u64 << t) != 0) <==> ((a >> t) & 1u64 == 1u64),
{
}

/// Testing a square with a single-square mask.
pub proof fn lemma_test_bit(a: u64, t: int)
    requires
        0 <= t < 64,
    ensures
        (a & (1u64 << (t as u64)) != 0) <==> bit(a, t),
{
    bv_test(a, t as u64);
}

pub proof fn lemma_bit_or(a: u64, b: u64, s: int)
    ensures
        bit(a | b, s) <==> bit(a, s) || bit(b, s),
{
    if 0 <= s < 64 {
        bv_or(a, b, s as u64);
    }
}

pub proof fn lemma_bit_and(a: u64, b: u64, s: int)
    ensures
        bit(a & b, s) <==> bit(a, s) && bit(b, s),
{
    if 0 <= s < 64 {
        bv_and(a, b, s as u64);
    }
}

pub proof fn lemma_bit_and_not(a: u64, b: u64, s: int)
    ensures
        bit(a & !b, s) <==> bit(a, s) && !bit(b, s),
{
    if 0 <= s < 64 {
        bv_and(a, !b, s as u64);
        bv_not(b, s as u64);
    }
}

pub proof fn lemma_bit_single(t: int, s: int)
    requires
        0 <= t < 64,
    ensures
        bit(1u64 << (t as u64), s) <==> s == t,
{
    if 0 <= s < 64 {
        bv_single(t as u64, s as u64);
    }
}

pub proof fn lemma_bit_sq_bb(t: int, s: int)
    ensures
        bit(sq_bb(t), s) <==> (s == t && 0 <= t < 64),
{
    if 0 <= t < 64 {
        lemma_bit_single(t, s);
    } else {
        lemma_bit_zero(s);
    }
}

pub proof fn lemma_bit_zero(s: int)
    ensures
        !bit(0u64, s),
{
    if 0 <= s < 64 {
        bv_zero(s as u64);
    }
}

/// Two bitboards with the same members are equal.
pub proof fn lemma_bits_ext(a: u64, b: u64)
    requires
        forall|s: int| 0 <= s < 64 ==> bit(a, s) == bit(b, s),
    ensures
        a == b,
{
    if a != b {
        bv_ne_xor(a, b);
        let x = a ^ b;
        axiom_u64_trailing_zeros(x);
        let t = u64_trailing_zeros(x);
        bv_xor_differs(a, b, t as u64);
        assert(bit(a, t as int) != bit(b, t as int));
    }
}

/// The lowest member of a non-empty bitboard, and the bitboard left when it
/// is taken out.
pub proof fn lemma_lowest(x: u64)
    requires
        x != 0,
    ensures
        0 <= u64_trailing_zeros(x) < 64,
        bit(x, u64_trailing_zeros(x) as int),
        forall|s: int| 0 <= s < u64_trailing_zeros(x) ==> !bit(x, s),
        x & ((x - 1) as u64) == x & !(1u64 << u64_trailing_zeros(x)),
        forall|s: int|
            bit(x & ((x - 1) as u64), s) <==> (bit(x, s) && s != u64_trailing_zeros(x) as int),
{
    axiom_u64_trailing_zeros(x);
    let t = u64_trailing_zeros(x);
    bv_pop_lowest(x, t as u64);
    assert forall|s: int| 0 <= s < t implies !bit(x, s) by {
        assert((x >> (s as u64)) & 1u64 == 0u64);
    }
    assert forall|s: int| bit(x & ((x - 1) as u64), s) <==> (bit(x, s) && s != t as int) by {
        lemma_bit_and_not(x, 1u64 << t, s);
        lemma_bit_single(t as int, s);
    }
}

pub proof fn lemma_bit_shl8(x: u64, s: int)
    ensures
        bit(x << 8u64, s) <==> (8 <= s < 64 && bit(x, s - 8)),
{
    if 0 <= s < 64 {
        bv_shl8(x, s as u64);
    }
}

pub proof fn lemma_bit_shr8(x: u64, s: int)
    ensures
        bit(x >> 8u64, s) <==> (0 <= s < 56 && bit(x, s + 8)),
{
    if 0 <= s < 64 {
        bv_shr8(x, s as u64);
    }
}

pub proof fn lemma_bit_rank_mask(r: int, s: int)
    requires
        0 <= r < 8,
    ensures
        bit(0xFFu64 << ((8 * r) as u64), s) <==> (0 <= s < 64 && s / 8 == r),
{
    if 0 <= s < 64 {
        bv_rank_mask(r as u64, s as u64);
    }
}

/// `squares_from` only looks at members `>= k`.
pub proof fn lemma_squares_from_agree(a: u64, b: u64, k: int)
    requires
        forall|s: int| k <= s < 64 ==> bit(a, s) == bit(b, s),
    ensures
        squares_from(a, k) == squares_from(b, k),
    decreases 64 - k,
{
    if 0 <= k < 64 {
        lemma_squares_from_agree(a, b, k + 1);
    }
}

/// Skipping a stretch without members does not change `squares_from`.
pub proof fn lemma_squares_from_skip(a: u64, k: int, j: int)
    requires
        0 <= k <= j <= 64,
        forall|s: int| k <= s < j ==> !bit(a, s),
    ensures
        squares_from(a, k) == squares_from(a, j),
    decreases j - k,
{
    if k < j {
        lemma_squares_from_skip(a, k + 1, j);
    }
}

/// The squares of a non-empty bitboard start with its lowest member, and go
/// on with the squares of what is left without it.
pub proof fn lemma_squares_pop(x: u64)
    requires
        x != 0,
    ensures
        squares(x) == seq![u64_trailing_zeros(x) as int] + squares(x & ((x - 1) as u64)),
{
    lemma_lowest(x);
    let t = u64_trailing_zeros(x) as int;
    let y = x & ((x - 1) as u64);
    lemma_squares_from_skip(x, 0, t);
    assert forall|s: int| 0 <= s < t + 1 implies !bit(y, s) by {
        assert(bit(y, s) <==> (bit(x, s) && s != t));
    }
    assert forall|s: int| t + 1 <= s < 64 implies bit(x, s) == bit(y, s) by {
        assert(bit(y, s) <==> (bit(x, s) && s != t));
    }
    lemma_squares_from_skip(y, 0, t + 1);
    lemma_squares_from_agree(x, y, t + 1);
}

/// An empty bitboard lists no squares.
pub proof fn lemma_squares_zero(k: int)
    ensures
        squares_from(0u64, k) =~= Seq::<int>::empty(),
    decreases 64 - k,
{
    if 0 <= k < 64 {
        lemma_bit_zero(k);
        lemma_squares_zero(k + 1);
    }
}

/// The squares listed by `squares_from` are members, ascending and `>= k`.
pub proof fn lemma_squares_from_members(bb: u64, k: int)
    requires
        0 <= k,
    ensures
        forall|i: int|
            0 <= i < squares_from(bb, k).len() ==> k <= #[trigger] squares_from(bb, k)[i] < 64
                && bit(bb, squares_from(bb, k)[i]),
        forall|i: int, j: int|
            0 <= i < j < squares_from(bb, k).len() ==> squares_from(bb, k)[i] < squares_from(
                bb,
                k,
            )[j],
        forall|s: int| k <= s < 64 && bit(bb, s) ==> squares_from(bb, k).contains(s),
        squares_from(bb, k).len() <= 64 - k || k >= 64,
    decreases 64 - k,
{
    if 0 <= k < 64 {
        lemma_squares_from_members(bb, k + 1);
        let rest = squares_from(bb, k + 1);
        if bit(bb, k) {
            let all = seq![k] + rest;
            assert(squares_from(bb, k) == all);
            assert forall|s: int| k <= s < 64 && bit(bb, s) implies all.contains(s) by {
                if s == k {
                    assert(all[0] == k);
                } else {
                    assert(rest.contains(s));
                    let i = choose|i: int| 0 <= i < rest.len() && rest[i] == s;
                    assert(all[i + 1] == s);
                }
            }
        } else {
            assert forall|s: int| k <= s < 64 && bit(bb, s) implies squares_from(bb, k).contains(s) by {
                assert(s != k);
                assert(rest.contains(s));
            }
        }
    }
}

/// The members of `bb` below `n` number at most `n`.
pub proof fn lemma_count_below_bound(bb: u64, n: int)
    ensures
        count_below(bb, n) <= if n < 0 { 0 } else { n },
    decreases n,
{
    if n > 0 {
        lemma_count_below_bound(bb, n - 1);
    }
}

/// Taking the lowest member out of a bitboard lowers its count by one.
pub proof fn lemma_count_pop(x: u64)
    requires
        x != 0,
    ensures
        popcount(x) == popcount(x & ((x - 1) as u64)) + 1,
{
    lemma_lowest(x);
    let t = u64_trailing_zeros(x) as int;
    lemma_count_pop_below(x, t, 64);
}

proof fn lemma_count_pop_below(x: u64, t: int, n: int)
    requires
        0 <= t < 64,
        bit(x, t),
        0 <= n <= 64,
        forall|s: int| bit(x & ((x - 1) as u64), s) <==> (bit(x, s) && s != t),
    ensures
        count_below(x, n) == count_below(x & ((x - 1) as u64), n) + (if t < n { 1nat } else { 0nat }),
    decreases n,
{
    if n > 0 {
        lemma_count_pop_below(x, t, n - 1);
    }
}

/// The number of members of a bitboard, taking out the lowest member until
/// none is left.
pub fn count_ones(bb: u64) -> (r: u32)
    ensures
        r as nat == popcount(bb),
{
    let mut x = bb;
    let mut n: u32 = 0;
    proof {
        lemma_popcount_bound(bb);
    }
    while x != 0
        invariant
            popcount(bb) == n + popcount(x),
            popcount(bb) <= 64,
        decreases popcount(x),
    {
        proof {
            lemma_count_pop(x);
        }
        x = x & (x - 1);
        n = n + 1;
    }
    proof {
        lemma_count_zero();
    }
    n
}

/// The empty bitboard has no members.
proof fn lemma_count_zero()
    ensures
        popcount(0u64) == 0,
{
    lemma_count_zero_below(64);
}

proof fn lemma_count_zero_below(n: int)
    ensures
        count_below(0u64, n) == 0,
    decreases n,
{
    if n > 0 {
        lemma_count_zero_below(n - 1);
        lemma_bit_zero(n - 1);
    }
}


/// The sum of `f` over the members of `bb` below `n`.
pub open spec fn bb_sum(bb: u64, f: spec_fn(int) -> int, n: int) -> int
    decreases n,
{
    if n <= 0 {
        0
    } else {
        bb_sum(bb, f, n - 1) + (if bit(bb, n - 1) { f(n - 1) } else { 0 })
    }
}

proof fn lemma_bb_sum_pop_below(x: u64, f: spec_fn(int) -> int, t: int, n: int)
    requires
        0 <= t < 64,
        bit(x, t),
        0 <= n <= 64,
        forall|s: int| bit(x & ((x - 1) as u64), s) <==> (bit(x, s) && s != t),
    ensures
        bb_sum(x, f, n) == bb_sum(x & ((x - 1) as u64), f, n) + (if t < n { f(t) } else { 0 }),
    decreases n,
{
    if n > 0 {
        lemma_bb_sum_pop_below(x, f, t, n - 1);
    }
}

/// Taking the lowest member out of a bitboard takes its term out of a sum.
pub proof fn lemma_bb_sum_pop(x: u64, f: spec_fn(int) -> int)
    requires
        x != 0,
    ensures
        bb_sum(x, f, 64) == f(u64_trailing_zeros(x) as int) + bb_sum(x & ((x - 1) as u64), f, 64),
{
    lemma_lowest(x);
    lemma_bb_sum_pop_below(x, f, u64_trailing_zeros(x) as int, 64);
}

pub proof fn lemma_bb_sum_zero(f: spec_fn(int) -> int, n: int)
    ensures
        bb_sum(0u64, f, n) == 0,
    decreases n,
{
    if n > 0 {
        lemma_bit_zero(n - 1);
        lemma_bb_sum_zero(f, n - 1);
    }
}

/// A sum of terms between `lo` and `hi` over the members below `n`.
pub proof fn lemma_bb_sum_bounds(bb: u64, f: spec_fn(int) -> int, n: int, lo: int, hi: int)
    requires
        0 <= n <= 64,
        lo <= 0 <= hi,
        forall|s: int| 0 <= s < 64 ==> lo <= #[trigger] f(s) <= hi,
    ensures
        n * lo <= bb_sum(bb, f, n) <= n * hi,
    decreases n,
{
    if n > 0 {
        lemma_bb_sum_bounds(bb, f, n - 1, lo, hi);
        assert(lo <= f(n - 1) <= hi);
        assert((n - 1) * lo + lo == n * lo) by (nonlinear_arith);
        assert((n - 1) * hi + hi == n * hi) by (nonlinear_arith);
    } else {
        assert(n * lo == 0 && n * hi == 0) by (nonlinear_arith)
            requires
                n == 0,
        ;
    }
}

pub proof fn lemma_popcount_bound(bb: u64)
    ensures
        popcount(bb) <= 64,
{
    lemma_count_below_bound(bb, 64);
}


/// Taking a member out of a bitboard lowers its count by one.
pub proof fn lemma_count_remove(x: u64, y: u64, t: int)
    requires
        0 <= t < 64,
        bit(x, t),
        forall|s: int| #[trigger] bit(y, s) <==> (bit(x, s) && s != t),
    ensures
        popcount(x) == popcount(y) + 1,
{
    lemma_count_remove_below(x, y, t, 64);
}

proof fn lemma_count_remove_below(x: u64, y: u64, t: int, n: int)
    requires
        0 <= t < 64,
        bit(x, t),
        0 <= n <= 64,
        forall|s: int| #[trigger] bit(y, s) <==> (bit(x, s) && s != t),
    ensures
        count_below(x, n) == count_below(y, n) + (if t < n { 1nat } else { 0nat }),
    decreases n,
{
    if n > 0 {
        lemma_count_remove_below(x, y, t, n - 1);
        assert(bit(y, n - 1) <==> (bit(x, n - 1) && n - 1 != t));
    }
}

} // verus!
