//! Bitboards as 64-bit square sets: membership, counting, and the bit
//! tricks that enumerate members and subsets.

use vstd::prelude::*;
use vstd::arithmetic::power2::{pow2, lemma_pow2_unfold};

verus! {

/// Whether square `sq` is a member of the bitboard `bb`.
pub open spec fn is_set(bb: u64, sq: u64) -> bool {
    (bb >> sq) & 1u64 == 1u64
}

/// The bitboard holding exactly the squares below `n` on which `p` holds.
pub open spec fn bits_below(p: spec_fn(u64) -> bool, n: nat) -> u64
    decreases n,
{
    if n == 0 {
        0u64
    } else {
        let rest = bits_below(p, (n - 1) as nat);
        if p((n - 1) as u64) {
            rest | (1u64 << ((n - 1) as u64))
        } else {
            rest
        }
    }
}

/// The bitboard holding exactly the squares on which `p` holds.
pub open spec fn bits_of(p: spec_fn(u64) -> bool) -> u64 {
    bits_below(p, 64)
}

/// Number of members of `bb` below square `n`.
pub open spec fn count_below(bb: u64, n: nat) -> nat
    decreases n,
{
    if n == 0 {
        0
    } else {
        count_below(bb, (n - 1) as nat) + if is_set(bb, (n - 1) as u64) {
            1nat
        } else {
            0nat
        }
    }
}

/// Number of members of `bb`.
pub open spec fn popcount_spec(bb: u64) -> nat {
    count_below(bb, 64)
}

/// `b` holds no square outside `mask`.
pub open spec fn is_subset(b: u64, mask: u64) -> bool {
    b & mask == b
}

/// Membership through the bitwise operators.
pub proof fn lemma_bit_ops()
    by (bit_vector)
    ensures
        forall|a: u64, b: u64, x: u64|
            x < 64 ==> #[trigger] is_set(a | b, x) == (is_set(a, x) || is_set(b, x)),
        forall|a: u64, b: u64, x: u64|
            x < 64 ==> #[trigger] is_set(a & b, x) == (is_set(a, x) && is_set(b, x)),
        forall|a: u64, x: u64| x < 64 ==> #[trigger] is_set(!a, x) == !is_set(a, x),
        forall|t: u64, x: u64| t < 64 && x < 64 ==> #[trigger] is_set(1u64 << t, x) == (x == t),
        forall|x: u64| x < 64 ==> !#[trigger] is_set(0u64, x),
{
}

proof fn lemma_equal_above(a: u64, b: u64, k: u64)
    requires
        k < 64,
        forall|x: u64| k <= x < 64 ==> is_set(a, x) == is_set(b, x),
    ensures
        a >> k == b >> k,
    decreases 64 - k,
{
    if k == 63 {
        assert(is_set(a, 63u64) == is_set(b, 63u64));
        assert(a >> k == b >> k) by (bit_vector)
            requires
                k == 63,
                is_set(a, k) == is_set(b, k),
        ;
    } else {
        let k1: u64 = (k + 1) as u64;
        lemma_equal_above(a, b, k1);
        assert(is_set(a, k) == is_set(b, k));
        assert(a >> k == b >> k) by (bit_vector)
            requires
                k < 63,
                k1 == k + 1,
                a >> k1 == b >> k1,
                is_set(a, k) == is_set(b, k),
        ;
    }
}

/// Two bitboards with the same members are equal.
pub proof fn lemma_bits_ext(a: u64, b: u64)
    requires
        forall|x: u64| x < 64 ==> is_set(a, x) == is_set(b, x),
    ensures
        a == b,
{
    lemma_equal_above(a, b, 0);
    assert(a >> 0u64 == b >> 0u64 ==> a == b) by (bit_vector);
}

/// The members of `bits_below(p, n)` are the squares below `n` on which `p` holds.
pub proof fn lemma_bits_below(p: spec_fn(u64) -> bool, n: nat)
    requires
        n <= 64,
    ensures
        forall|x: u64| x < 64 ==> #[trigger] is_set(bits_below(p, n), x) == (x < n && p(x)),
    decreases n,
{
    lemma_bit_ops();
    if n > 0 {
        let m = (n - 1) as nat;
        lemma_bits_below(p, m);
        let rest = bits_below(p, m);
        assert forall|x: u64| x < 64 implies #[trigger] is_set(bits_below(p, n), x) == (x < n
            && p(x)) by {
            assert(is_set(rest, x) == (x < m && p(x)));
            if p(m as u64) {
                assert(is_set(rest | (1u64 << (m as u64)), x) == (is_set(rest, x) || is_set(
                    1u64 << (m as u64),
                    x,
                )));
            }
        }
    }
}

/// The members of `bits_of(p)` are the squares on which `p` holds.
pub proof fn lemma_bits_of(p: spec_fn(u64) -> bool)
    ensures
        forall|x: u64| x < 64 ==> #[trigger] is_set(bits_of(p), x) == p(x),
{
    lemma_bits_below(p, 64);
}

/// A bitboard is `bits_of` its own membership predicate.
pub proof fn lemma_bits_of_members(a: u64, p: spec_fn(u64) -> bool)
    requires
        forall|x: u64| x < 64 ==> is_set(a, x) == p(x),
    ensures
        a == bits_of(p),
{
    lemma_bits_of(p);
    lemma_bits_ext(a, bits_of(p));
}

/// The lowest member of `bb` at or above square `i`; 64 when there is none.
pub open spec fn lowest_from(bb: u64, i: nat) -> nat
    decreases 64 - i,
{
    if i >= 64 {
        64
    } else if is_set(bb, i as u64) {
        i
    } else {
        lowest_from(bb, i + 1)
    }
}

/// The lowest member of `bb`; 64 when `bb` is empty.
pub open spec fn lowest(bb: u64) -> nat {
    lowest_from(bb, 0)
}

proof fn lemma_lowest_from(bb: u64, i: nat)
    requires
        i <= 64,
    ensures
        i <= lowest_from(bb, i) <= 64,
        lowest_from(bb, i) < 64 ==> is_set(bb, lowest_from(bb, i) as u64),
        forall|j: u64| i <= j < lowest_from(bb, i) ==> !is_set(bb, j),
    decreases 64 - i,
{
    if i < 64 && !is_set(bb, i as u64) {
        lemma_lowest_from(bb, i + 1);
    }
}

/// The lowest member of a non-empty bitboard is a member, and nothing below it is.
pub proof fn lemma_lowest(bb: u64)
    requires
        bb != 0,
    ensures
        lowest(bb) < 64,
        is_set(bb, lowest(bb) as u64),
        forall|j: u64| j < lowest(bb) ==> !is_set(bb, j),
{
    lemma_lowest_from(bb, 0);
    lemma_bit_ops();
    if lowest(bb) == 64 {
        lemma_bits_ext(bb, 0);
    }
}

/// Isolating and clearing the lowest member with arithmetic.
pub proof fn lemma_lowest_bit_tricks(bb: u64)
    requires
        bb != 0,
    ensures
        !bb < 0xffff_ffff_ffff_ffffu64,
        bb & ((!bb + 1) as u64) == 1u64 << (lowest(bb) as u64),
        bb & ((bb - 1) as u64) == bb & !(1u64 << (lowest(bb) as u64)),
        bb & ((bb - 1) as u64) < bb,
{
    lemma_lowest(bb);
    lemma_bit_ops();
    let t = lowest(bb) as u64;
    let low = bb & !(0xffff_ffff_ffff_ffffu64 << t);
    assert forall|x: u64| x < 64 implies is_set(low, x) == is_set(0u64, x) by {
        assert(is_set(!(0xffff_ffff_ffff_ffffu64 << t), x) == (x < t)) by (bit_vector)
            requires
                x < 64,
                t < 64,
        ;
    }
    lemma_bits_ext(low, 0);
    assert(!bb < 0xffff_ffff_ffff_ffffu64 && bb & ((!bb + 1) as u64) == 1u64 << t && bb & ((bb
        - 1) as u64) == bb & !(1u64 << t) && bb & ((bb - 1) as u64) < bb) by (bit_vector)
        requires
            t < 64,
            bb != 0,
            is_set(bb, t),
            bb & !(0xffff_ffff_ffff_ffffu64 << t) == 0,
    ;
}

/// Two bitboards that differ only in square `t`, which only `b` holds,
/// differ by one in their counts at and above `t + 1`.
pub proof fn lemma_count_one_more(a: u64, b: u64, t: u64, n: nat)
    requires
        t < 64,
        n <= 64,
        is_set(b, t),
        !is_set(a, t),
        forall|x: u64| x < 64 && x != t ==> is_set(a, x) == is_set(b, x),
    ensures
        count_below(b, n) == count_below(a, n) + if t < n {
            1nat
        } else {
            0nat
        },
    decreases n,
{
    if n > 0 {
        lemma_count_one_more(a, b, t, (n - 1) as nat);
    }
}

/// The empty bitboard has no members.
pub proof fn lemma_count_empty(n: nat)
    requires
        n <= 64,
    ensures
        count_below(0u64, n) == 0,
    decreases n,
{
    lemma_bit_ops();
    if n > 0 {
        lemma_count_empty((n - 1) as nat);
    }
}

/// A bitboard with a member below `n` has a member counted below `n`.
pub proof fn lemma_count_nonzero(bb: u64, t: u64, n: nat)
    requires
        t < n,
        is_set(bb, t),
    ensures
        count_below(bb, n) >= 1,
    decreases n,
{
    if n > t + 1 {
        lemma_count_nonzero(bb, t, (n - 1) as nat);
    }
}

/// A union has at most as many members as its parts together.
pub proof fn lemma_count_union(a: u64, b: u64, n: nat)
    requires
        n <= 64,
    ensures
        count_below(a | b, n) <= count_below(a, n) + count_below(b, n),
    decreases n,
{
    lemma_bit_ops();
    if n > 0 {
        lemma_count_union(a, b, (n - 1) as nat);
    }
}

/// A bitboard has at most `n` members below square `n`.
pub proof fn lemma_count_below_le(bb: u64, n: nat)
    ensures
        count_below(bb, n) <= n,
    decreases n,
{
    if n > 0 {
        lemma_count_below_le(bb, (n - 1) as nat);
    }
}

/// Number of members of `bb`, clearing the lowest member until none is left.
pub fn popcount(bb: u64) -> (r: u64)
    ensures
        r == popcount_spec(bb),
{
    let mut b = bb;
    let mut count: u64 = 0;
    proof {
        lemma_count_below_le(bb, 64);
    }
    while b != 0
        invariant
            count + popcount_spec(b) == popcount_spec(bb),
            popcount_spec(bb) <= 64,
        decreases b,
    {
        proof {
            lemma_lowest_bit_tricks(b);
            lemma_lowest(b);
            lemma_bit_ops();
            let t = lowest(b) as u64;
            let c = b & !(1u64 << t);
            assert forall|x: u64| x < 64 && x != t implies is_set(c, x) == is_set(b, x) by {}
            lemma_count_one_more(c, b, t, 64);
        }
        count = count + 1;
        b = b & (b - 1);
    }
    proof {
        lemma_count_empty(64);
    }
    count
}

const LOG_2_DE_BRUIJN: u64 = 0x218a392cd3d5dbf;

const LOG_2_TABLE: [u64; 64] = [
    0, 1, 2, 7, 3, 13, 8, 19, 4, 25, 14, 28, 9, 34, 20, 40, 5, 17, 26, 38, 15, 46, 29, 48, 10, 31,
    35, 54, 21, 50, 41, 57, 63, 6, 12, 18, 24, 27, 33, 39, 16, 37, 45, 47, 30, 53, 49, 56, 62, 11,
    23, 32, 36, 44, 52, 55, 61, 22, 43, 51, 60, 42, 59, 58,
];

/// `x` has exactly one member.
pub open spec fn is_single_bit(x: u64) -> bool {
    x != 0 && x & ((x - 1) as u64) == 0
}

/// The square of the single member of `x`: a de Bruijn multiply places a
/// distinct 6-bit pattern in the top bits for each square, and a table maps
/// the pattern back.
pub fn log2(x: u64) -> (r: u64)
    requires
        is_single_bit(x),
    ensures
        r < 64,
        x == 1u64 << r,
        r == lowest(x),
{
    let i: u64 = x.wrapping_mul(LOG_2_DE_BRUIJN) >> 58;
    proof {
        lemma_lowest_bit_tricks(x);
        lemma_lowest(x);
        let t = lowest(x) as u64;
        assert(x == 1u64 << t) by (bit_vector)
            requires
                x != 0,
                x & ((x - 1) as u64) == 0,
                x & ((!x + 1) as u64) == 1u64 << t,
        ;
        assert((t == 0 && i == 0) || (t == 1 && i == 1) || (t == 2 && i == 2) || (t == 3 && i == 4) || (t == 4 && i == 8) || (t == 5 && i == 16) || (t == 6 && i == 33) || (t == 7 && i == 3) || (t == 8 && i == 6) || (t == 9 && i == 12) || (t == 10 && i == 24) || (t == 11 && i == 49) || (t == 12 && i == 34) || (t == 13 && i == 5) || (t == 14 && i == 10) || (t == 15 && i == 20) || (t == 16 && i == 40) || (t == 17 && i == 17) || (t == 18 && i == 35) || (t == 19 && i == 7) || (t == 20 && i == 14) || (t == 21 && i == 28) || (t == 22 && i == 57) || (t == 23 && i == 50) || (t == 24 && i == 36) || (t == 25 && i == 9) || (t == 26 && i == 18) || (t == 27 && i == 37) || (t == 28 && i == 11) || (t == 29 && i == 22) || (t == 30 && i == 44) || (t == 31 && i == 25) || (t == 32 && i == 51) || (t == 33 && i == 38) || (t == 34 && i == 13) || (t == 35 && i == 26) || (t == 36 && i == 52) || (t == 37 && i == 41) || (t == 38 && i == 19) || (t == 39 && i == 39) || (t == 40 && i == 15) || (t == 41 && i == 30) || (t == 42 && i == 61) || (t == 43 && i == 58) || (t == 44 && i == 53) || (t == 45 && i == 42) || (t == 46 && i == 21) || (t == 47 && i == 43) || (t == 48 && i == 23) || (t == 49 && i == 46) || (t == 50 && i == 29) || (t == 51 && i == 59) || (t == 52 && i == 54) || (t == 53 && i == 45) || (t == 54 && i == 27) || (t == 55 && i == 55) || (t == 56 && i == 47) || (t == 57 && i == 31) || (t == 58 && i == 63) || (t == 59 && i == 62) || (t == 60 && i == 60) || (t == 61 && i == 56) || (t == 62 && i == 48) || (t == 63 && i == 32)) by (bit_vector)
            requires
                t < 64,
                x == 1u64 << t,
                i == x.wrapping_mul(0x218a392cd3d5dbfu64) >> 58u64,
        ;
    }
    LOG_2_TABLE[i as usize]
}

/// The members of `bb` from square `i` upwards, in ascending order.
pub open spec fn members_from(bb: u64, i: nat) -> Seq<u64>
    decreases 64 - i,
{
    if i >= 64 {
        Seq::empty()
    } else {
        let rest = members_from(bb, i + 1);
        if is_set(bb, i as u64) {
            seq![i as u64] + rest
        } else {
            rest
        }
    }
}

/// The members of `bb` in ascending order.
pub open spec fn members(bb: u64) -> Seq<u64> {
    members_from(bb, 0)
}

/// `members_from` holds each member at or above `i` once, in ascending
/// order, and as many as the count says.
pub proof fn lemma_members_from(bb: u64, i: nat)
    requires
        i <= 64,
    ensures
        members_from(bb, i).len() + count_below(bb, i) == count_below(bb, 64),
        forall|k: int|
            0 <= k < members_from(bb, i).len() ==> i <= #[trigger] members_from(bb, i)[k] < 64
                && is_set(bb, members_from(bb, i)[k]),
        forall|x: u64| i <= x < 64 && is_set(bb, x) ==> #[trigger] members_from(bb, i).contains(x),
        forall|k1: int, k2: int|
            0 <= k1 < k2 < members_from(bb, i).len() ==> #[trigger] members_from(bb, i)[k1]
                < #[trigger] members_from(bb, i)[k2],
    decreases 64 - i,
{
    if i < 64 {
        lemma_members_from(bb, i + 1);
        let rest = members_from(bb, i + 1);
        let s = members_from(bb, i);
        if is_set(bb, i as u64) {
            assert forall|k: int| 0 <= k < s.len() implies i <= #[trigger] s[k] < 64 && is_set(
                bb,
                s[k],
            ) by {
                if k > 0 {
                    assert(s[k] == rest[k - 1]);
                }
            }
            assert forall|x: u64| i <= x < 64 && is_set(bb, x) implies #[trigger] s.contains(x) by {
                if x == i {
                    assert(s[0] == x);
                } else {
                    assert(rest.contains(x));
                    let k = choose|k: int| 0 <= k < rest.len() && rest[k] == x;
                    assert(s[k + 1] == x);
                }
            }
            assert forall|k1: int, k2: int| 0 <= k1 < k2 < s.len() implies #[trigger] s[k1]
                < #[trigger] s[k2] by {
                if k1 > 0 {
                    assert(s[k1] == rest[k1 - 1] && s[k2] == rest[k2 - 1]);
                } else {
                    assert(s[k2] == rest[k2 - 1]);
                }
            }
        }
    }
}

/// Squares with no member of `bb` between `i` and `j` do not change `members_from`.
proof fn lemma_members_skip(bb: u64, i: nat, j: nat)
    requires
        i <= j <= 64,
        forall|x: u64| i <= x < j ==> !is_set(bb, x),
    ensures
        members_from(bb, i) == members_from(bb, j),
    decreases j - i,
{
    if i < j {
        lemma_members_skip(bb, i + 1, j);
    }
}

/// Bitboards that agree from `i` upwards have the same `members_from(_, i)`.
proof fn lemma_members_agree(a: u64, b: u64, i: nat)
    requires
        i <= 64,
        forall|x: u64| i <= x < 64 ==> is_set(a, x) == is_set(b, x),
    ensures
        members_from(a, i) == members_from(b, i),
    decreases 64 - i,
{
    if i < 64 {
        lemma_members_agree(a, b, i + 1);
    }
}

/// The members of a non-empty bitboard are its lowest member followed by
/// the members left once that one is cleared.
pub proof fn lemma_members_pop(bb: u64)
    requires
        bb != 0,
    ensures
        members(bb) == seq![lowest(bb) as u64] + members(bb & ((bb - 1) as u64)),
{
    lemma_lowest(bb);
    lemma_lowest_bit_tricks(bb);
    lemma_bit_ops();
    let t = lowest(bb);
    let c = bb & ((bb - 1) as u64);
    lemma_members_skip(bb, 0, t);
    lemma_members_skip(c, 0, t + 1);
    lemma_members_agree(c, bb, t + 1);
}

/// The single member of `bb` isolated with arithmetic is a single bit.
proof fn lemma_isolated_single(bb: u64)
    requires
        bb != 0,
    ensures
        is_single_bit(bb & ((!bb + 1) as u64)),
{
    lemma_lowest(bb);
    lemma_lowest_bit_tricks(bb);
    let t = lowest(bb) as u64;
    assert(is_single_bit(1u64 << t)) by (bit_vector)
        requires
            t < 64,
    ;
}

/// The squares of the members of `bb`, in ascending order.
pub fn bit_positions(bb: u64) -> (r: Vec<u64>)
    ensures
        r@ == members(bb),
{
    let mut positions: Vec<u64> = Vec::new();
    let mut b = bb;
    while b != 0
        invariant
            positions@ + members(b) == members(bb),
        decreases b,
    {
        proof {
            lemma_lowest_bit_tricks(b);
            lemma_isolated_single(b);
            lemma_members_pop(b);
        }
        let low = b & (!b + 1);
        let sq = log2(low);
        proof {
            let t = lowest(b) as u64;
            lemma_lowest(b);
            assert(sq == t) by (bit_vector)
                requires
                    sq < 64,
                    t < 64,
                    low == 1u64 << sq,
                    low == 1u64 << t,
            ;
            assert(positions@.push(sq) + members(b & ((b - 1) as u64)) =~= positions@ + members(b));
        }
        positions.push(sq);
        b = b & (b - 1);
    }
    proof {
        lemma_members_from(0u64, 0);
        lemma_count_empty(64);
        assert(positions@ + members(b) =~= positions@);
    }
    positions
}

/// `is_subset` square by square.
pub proof fn lemma_subset_members(b: u64, mask: u64)
    ensures
        is_subset(b, mask) <==> (forall|x: u64| x < 64 && is_set(b, x) ==> is_set(mask, x)),
{
    lemma_bit_ops();
    if forall|x: u64| x < 64 && is_set(b, x) ==> is_set(mask, x) {
        assert forall|x: u64| x < 64 implies is_set(b & mask, x) == is_set(b, x) by {}
        lemma_bits_ext(b & mask, b);
    }
}

/// The first square of `digits` at or after index `i`; 64 past the end.
spec fn next_digit(digits: Seq<u64>, i: int) -> u64 {
    if i < digits.len() {
        digits[i]
    } else {
        64
    }
}

/// The subset of the squares `digits` that index `i` selects: `digits[j]`
/// is kept when bit `j` of `i` is set.
pub open spec fn subset_of_index(digits: Seq<u64>, i: u64) -> u64
    decreases digits.len(),
{
    if digits.len() == 0 {
        0u64
    } else {
        let rest = subset_of_index(digits.drop_last(), i);
        if is_set(i, (digits.len() - 1) as u64) {
            rest | (1u64 << digits.last())
        } else {
            rest
        }
    }
}

/// Indices that agree on the low `digits.len()` bits select the same subset.
proof fn lemma_subset_of_index_agree(digits: Seq<u64>, x: u64, y: u64)
    requires
        digits.len() <= 64,
        forall|m: u64| m < digits.len() ==> is_set(x, m) == is_set(y, m),
    ensures
        subset_of_index(digits, x) == subset_of_index(digits, y),
    decreases digits.len(),
{
    if digits.len() > 0 {
        lemma_subset_of_index_agree(digits.drop_last(), x, y);
        assert(is_set(x, (digits.len() - 1) as u64) == is_set(y, (digits.len() - 1) as u64));
    }
}

/// Adding `2^k` to an index below `2^k` sets bit `k` and keeps the others.
proof fn lemma_index_high_bit(k: u64, j: u64, m: u64)
    by (bit_vector)
    requires
        k < 64,
        j < (1u64 << k),
        m < 64,
    ensures
        (1u64 << k) + j <= 0xffff_ffff_ffff_ffffu64,
        is_set(((1u64 << k) + j) as u64, m) == (m == k || is_set(j, m)),
        !is_set(j, k),
{
}

/// Every subset of `bb`, each once: all 2^popcount(bb) ways of keeping or
/// dropping each member.
pub fn bit_permutations(bb: u64) -> (r: Vec<u64>)
    ensures
        r@.len() == pow2(popcount_spec(bb)),
        forall|i: int| 0 <= i < r@.len() ==> is_subset(#[trigger] r@[i], bb),
        forall|b: u64| is_subset(b, bb) ==> #[trigger] r@.contains(b),
        forall|i: int, j: int| 0 <= i < j < r@.len() ==> r@[i] != r@[j],
        forall|i: int| 0 <= i < r@.len() ==> #[trigger] r@[i] == subset_of_index(members(bb), i as u64),
{
    let digits = bit_positions(bb);
    proof {
        lemma_members_from(bb, 0);
        lemma_bit_ops();
    }
    let mut perms: Vec<u64> = vec![0u64];
    let ghost mut covered: u64 = 0;
    proof {
        assert forall|b: u64| is_subset(b, covered) implies #[trigger] perms@.contains(b) by {
            lemma_subset_members(b, covered);
            assert forall|x: u64| x < 64 implies is_set(b, x) == is_set(0u64, x) by {}
            lemma_bits_ext(b, 0u64);
            assert(perms@[0] == b);
        }
        assert(pow2(0) == 1) by {
            vstd::arithmetic::power2::lemma2_to64();
        }
        assert(is_subset(0u64, 0u64)) by (bit_vector);
        assert(perms@[0] == 0u64);
        assert(digits@.take(0).len() == 0);
        assert forall|x: u64| x < 64 implies #[trigger] is_set(covered, x) == (is_set(bb, x) && x
            < next_digit(digits@, 0)) by {
            if is_set(bb, x) && x < next_digit(digits@, 0) {
                assert(digits@.contains(x));
                let k = choose|k: int| 0 <= k < digits@.len() && digits@[k] == x;
                if k > 0 {
                    assert(digits@[0] < digits@[k]);
                }
            }
        }
    }
    let mut i: usize = 0;
    while i < digits.len()
        invariant
            digits@ == members(bb),
            digits@.len() + count_below(bb, 0) == count_below(bb, 64),
            forall|k: int|
                0 <= k < digits@.len() ==> #[trigger] digits@[k] < 64 && is_set(bb, digits@[k]),
            forall|x: u64| x < 64 && is_set(bb, x) ==> #[trigger] digits@.contains(x),
            forall|k1: int, k2: int|
                0 <= k1 < k2 < digits@.len() ==> #[trigger] digits@[k1] < #[trigger] digits@[k2],
            0 <= i <= digits@.len(),
            forall|x: u64|
                x < 64 ==> #[trigger] is_set(covered, x) == (is_set(bb, x) && x < next_digit(
                    digits@,
                    i as int,
                )),
            perms@.len() == pow2(i as nat),
            forall|k: int| 0 <= k < perms@.len() ==> is_subset(#[trigger] perms@[k], covered),
            forall|b: u64| is_subset(b, covered) ==> #[trigger] perms@.contains(b),
            forall|k1: int, k2: int| 0 <= k1 < k2 < perms@.len() ==> perms@[k1] != perms@[k2],
            forall|p: int|
                0 <= p < perms@.len() ==> #[trigger] perms@[p] == subset_of_index(
                    digits@.take(i as int),
                    p as u64,
                ),
        decreases digits@.len() - i,
    {
        let d = digits[i];
        let n = perms.len();
        let ghost old_perms = perms@;
        let mut j: usize = 0;
        proof {
            lemma_pow2_unfold((i + 1) as nat);
        }
        while j < n
            invariant
                n == old_perms.len(),
                n + n == pow2((i + 1) as nat),
                j <= n,
                perms@.len() == n + j,
                d < 64,
                forall|k: int| 0 <= k < n ==> perms@[k] == old_perms[k],
                forall|k: int| 0 <= k < j ==> perms@[n + k] == old_perms[k] | (1u64 << d),
            decreases n - j,
        {
            let v = perms[j] | (1u64 << d);
            perms.push(v);
            j = j + 1;
        }
        let ghost new_covered = covered | (1u64 << d);
        proof {
            lemma_bit_ops();
            // `d` is the next member of `bb` above the covered ones.
            assert forall|x: u64| x < 64 implies #[trigger] is_set(new_covered, x) == (is_set(
                bb,
                x,
            ) && x < next_digit(digits@, i + 1)) by {
                if is_set(bb, x) && d < x && x < next_digit(digits@, i + 1) {
                    assert(digits@.contains(x));
                    let k = choose|k: int| 0 <= k < digits@.len() && digits@[k] == x;
                    if k <= i {
                        if k < i {
                            assert(digits@[k] < digits@[i as int]);
                        }
                    }
                }
                if i + 1 < digits@.len() {
                    assert(digits@[i as int] < digits@[i + 1]);
                }
            }
            assert(!is_set(covered, d));
            assert forall|k: int| 0 <= k < perms@.len() implies is_subset(
                #[trigger] perms@[k],
                new_covered,
            ) by {
                if k < n {
                    lemma_subset_members(old_perms[k], covered);
                    lemma_subset_members(perms@[k], new_covered);
                } else {
                    lemma_subset_members(old_perms[k - n], covered);
                    lemma_subset_members(perms@[k], new_covered);
                }
            }
            assert forall|b: u64| is_subset(b, new_covered) implies #[trigger] perms@.contains(
                b,
            ) by {
                lemma_subset_members(b, new_covered);
                if !is_set(b, d) {
                    lemma_subset_members(b, covered);
                    assert(old_perms.contains(b));
                    let k = choose|k: int| 0 <= k < old_perms.len() && old_perms[k] == b;
                    assert(perms@[k] == b);
                } else {
                    let c = b & !(1u64 << d);
                    lemma_subset_members(c, covered);
                    assert(old_perms.contains(c));
                    let k = choose|k: int| 0 <= k < old_perms.len() && old_perms[k] == c;
                    assert forall|x: u64| x < 64 implies is_set(c | (1u64 << d), x) == is_set(
                        b,
                        x,
                    ) by {}
                    lemma_bits_ext(c | (1u64 << d), b);
                    assert(perms@[n + k] == b);
                }
            }
            assert forall|k1: int, k2: int| 0 <= k1 < k2 < perms@.len() implies perms@[k1]
                != perms@[k2] by {
                if k2 >= n {
                    lemma_subset_members(old_perms[k2 - n], covered);
                    assert(is_set(perms@[k2], d));
                    if k1 >= n {
                        lemma_subset_members(old_perms[k1 - n], covered);
                        if perms@[k1] == perms@[k2] {
                            assert forall|x: u64| x < 64 implies #[trigger] is_set(
                                old_perms[k1 - n],
                                x,
                            ) == is_set(old_perms[k2 - n], x) by {
                                if x != d {
                                    assert(is_set(perms@[k1], x) == is_set(perms@[k2], x));
                                }
                            }
                            lemma_bits_ext(old_perms[k1 - n], old_perms[k2 - n]);
                        }
                    } else {
                        lemma_subset_members(old_perms[k1], covered);
                        assert(perms@[k1] == old_perms[k1]);
                        assert(!is_set(perms@[k1], d));
                    }
                } else {
                    assert(perms@[k1] == old_perms[k1] && perms@[k2] == old_perms[k2]);
                }
            }
            covered = new_covered;
            // The doubled list keeps the index order: bit `i` of an index selects `d`.
            assert(i < 64) by {
                lemma_count_below_le(bb, 64);
            }
            vstd::bits::lemma_u64_pow2_no_overflow(i as nat);
            vstd::bits::lemma_u64_shl_is_mul(1, i as u64);
            let taken = digits@.take(i + 1);
            assert(taken.drop_last() =~= digits@.take(i as int));
            assert(taken.last() == d);
            assert forall|p: int| 0 <= p < perms@.len() implies #[trigger] perms@[p]
                == subset_of_index(taken, p as u64) by {
                if p < n {
                    lemma_index_high_bit(i as u64, p as u64, 0);
                    assert(perms@[p] == old_perms[p]);
                } else {
                    let q = p - n;
                    assert((1u64 << (i as u64)) + (q as u64) == p);
                    assert forall|m: u64| m < 64 implies #[trigger] is_set(p as u64, m) == (m == i || is_set(
                        q as u64,
                        m,
                    )) by {
                        lemma_index_high_bit(i as u64, q as u64, m);
                    }
                    lemma_subset_of_index_agree(digits@.take(i as int), p as u64, q as u64);
                    assert(perms@[p] == old_perms[q] | (1u64 << d));
                }
            }
        }
        i = i + 1;
    }
    proof {
        assert forall|x: u64| x < 64 implies is_set(covered, x) == is_set(bb, x) by {}
        lemma_bits_ext(covered, bb);
        assert(digits@.take(i as int) =~= digits@);
    }
    perms
}

} // verus!
