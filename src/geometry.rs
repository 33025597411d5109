//! Board geometry: the squares a knight, king, rook or bishop reaches from a
//! square, with and without blockers.

use vstd::prelude::*;
use crate::bits::{
    is_set, bits_of, popcount_spec, lemma_bit_ops, lemma_bits_of, lemma_bits_of_members, lemma_bits_ext,
    lemma_count_one_more, lemma_count_union,
};

verus! {

/// Rank (row) of a square, 0 for the first rank.
pub open spec fn rank(sq: u64) -> int {
    (sq / 8) as int
}

/// File (column) of a square, 0 for the a-file.
pub open spec fn file(sq: u64) -> int {
    (sq % 8) as int
}

pub open spec fn on_board(r: int, f: int) -> bool {
    0 <= r < 8 && 0 <= f < 8
}

/// `k` steps along a direction component `d` in -1..=1.
pub open spec fn scale(k: int, d: int) -> int {
    if d > 0 {
        k
    } else if d < 0 {
        -k
    } else {
        0
    }
}

/// A direction of a ray: each component in -1..=1, not both zero.
pub open spec fn is_direction(dr: int, df: int) -> bool {
    -1 <= dr <= 1 && -1 <= df <= 1 && (dr != 0 || df != 0)
}

/// The `k`-th step from `sq` in direction (dr, df) is on the board.
pub open spec fn step_on_board(sq: u64, dr: int, df: int, k: int) -> bool {
    on_board(rank(sq) + scale(k, dr), file(sq) + scale(k, df))
}

/// The square reached by the `k`-th step from `sq` in direction (dr, df).
pub open spec fn ray_square(sq: u64, dr: int, df: int, k: int) -> u64 {
    ((rank(sq) + scale(k, dr)) * 8 + file(sq) + scale(k, df)) as u64
}

/// How many steps from `sq` in direction (dr, df) it takes to draw level with `t`.
pub open spec fn ray_dist(sq: u64, dr: int, df: int, t: u64) -> int {
    if dr != 0 {
        scale(rank(t) - rank(sq), dr)
    } else {
        scale(file(t) - file(sq), df)
    }
}

/// `t` lies on the ray from `sq` in direction (dr, df), `sq` itself excluded.
pub open spec fn on_ray(sq: u64, dr: int, df: int, t: u64) -> bool {
    let k = ray_dist(sq, dr, df, t);
    &&& k >= 1
    &&& step_on_board(sq, dr, df, k)
    &&& rank(t) == rank(sq) + scale(k, dr)
    &&& file(t) == file(sq) + scale(k, df)
}

/// `t` is attacked along the ray: it lies on it, and no blocker stands
/// strictly between `sq` and `t`.
pub open spec fn ray_attack(sq: u64, blockers: u64, dr: int, df: int, t: u64) -> bool {
    &&& on_ray(sq, dr, df, t)
    &&& forall|j: int|
        1 <= j < ray_dist(sq, dr, df, t) ==> !is_set(blockers, #[trigger] ray_square(sq, dr, df, j))
}

/// `t` lies on the ray and the ray goes on past it, so a blocker on `t`
/// can cut the ray short.
pub open spec fn ray_inner(sq: u64, dr: int, df: int, t: u64) -> bool {
    on_ray(sq, dr, df, t) && step_on_board(sq, dr, df, ray_dist(sq, dr, df, t) + 1)
}

pub open spec fn rook_attack(sq: u64, blockers: u64, t: u64) -> bool {
    ray_attack(sq, blockers, 1, 0, t) || ray_attack(sq, blockers, -1, 0, t) || ray_attack(
        sq,
        blockers,
        0,
        1,
        t,
    ) || ray_attack(sq, blockers, 0, -1, t)
}

pub open spec fn bishop_attack(sq: u64, blockers: u64, t: u64) -> bool {
    ray_attack(sq, blockers, 1, 1, t) || ray_attack(sq, blockers, 1, -1, t) || ray_attack(
        sq,
        blockers,
        -1,
        1,
        t,
    ) || ray_attack(sq, blockers, -1, -1, t)
}

pub open spec fn rook_inner(sq: u64, t: u64) -> bool {
    ray_inner(sq, 1, 0, t) || ray_inner(sq, -1, 0, t) || ray_inner(sq, 0, 1, t) || ray_inner(
        sq,
        0,
        -1,
        t,
    )
}

pub open spec fn bishop_inner(sq: u64, t: u64) -> bool {
    ray_inner(sq, 1, 1, t) || ray_inner(sq, 1, -1, t) || ray_inner(sq, -1, 1, t) || ray_inner(
        sq,
        -1,
        -1,
        t,
    )
}

/// The squares a rook on `sq` attacks when `blockers` are occupied.
pub open spec fn rook_attacks_bb(sq: u64, blockers: u64) -> u64 {
    bits_of(|t: u64| rook_attack(sq, blockers, t))
}

/// The squares a bishop on `sq` attacks when `blockers` are occupied.
pub open spec fn bishop_attacks_bb(sq: u64, blockers: u64) -> u64 {
    bits_of(|t: u64| bishop_attack(sq, blockers, t))
}

/// The squares whose occupancy can change a rook's attacks from `sq`.
pub open spec fn rook_mask_bb(sq: u64) -> u64 {
    bits_of(|t: u64| rook_inner(sq, t))
}

/// The squares whose occupancy can change a bishop's attacks from `sq`.
pub open spec fn bishop_mask_bb(sq: u64) -> u64 {
    bits_of(|t: u64| bishop_inner(sq, t))
}

pub open spec fn abs(x: int) -> int {
    if x < 0 {
        -x
    } else {
        x
    }
}

pub open spec fn knight_jump(sq: u64, t: u64) -> bool {
    let dr = abs(rank(t) - rank(sq));
    let df = abs(file(t) - file(sq));
    (dr == 1 && df == 2) || (dr == 2 && df == 1)
}

pub open spec fn king_step(sq: u64, t: u64) -> bool {
    let dr = abs(rank(t) - rank(sq));
    let df = abs(file(t) - file(sq));
    dr <= 1 && df <= 1 && (dr != 0 || df != 0)
}

/// The squares a knight on `sq` attacks.
pub open spec fn knight_bb(sq: u64) -> u64 {
    bits_of(|t: u64| knight_jump(sq, t))
}

/// The squares a king on `sq` attacks.
pub open spec fn king_bb(sq: u64) -> u64 {
    bits_of(|t: u64| king_step(sq, t))
}

/// Steps from coordinate `x` to the board's edge moving by `d`; 8 when
/// `d` is zero and the coordinate never changes.
pub open spec fn steps_to_edge(x: int, d: int) -> int {
    if d > 0 {
        7 - x
    } else if d < 0 {
        x
    } else {
        8
    }
}

/// Number of squares on the ray from `sq` in direction (dr, df).
pub open spec fn ray_len(sq: u64, dr: int, df: int) -> int {
    let a = steps_to_edge(rank(sq), dr);
    let b = steps_to_edge(file(sq), df);
    if a < b {
        a
    } else {
        b
    }
}

/// Number of inner squares of that ray: all but its last.
pub open spec fn interior_len(sq: u64, dr: int, df: int) -> int {
    if ray_len(sq, dr, df) >= 1 {
        ray_len(sq, dr, df) - 1
    } else {
        0
    }
}

proof fn lemma_step_on_board_len(sq: u64, dr: int, df: int, k: int)
    requires
        sq < 64,
        is_direction(dr, df),
        k >= 0,
    ensures
        step_on_board(sq, dr, df, k) <==> k <= ray_len(sq, dr, df),
{
}

/// Once a ray has left the board it stays off it.
proof fn lemma_off_board_stays(sq: u64, dr: int, df: int, k: int, d: int)
    requires
        sq < 64,
        is_direction(dr, df),
        1 <= k <= d,
        !step_on_board(sq, dr, df, k),
    ensures
        !step_on_board(sq, dr, df, d),
{
}

/// The square `k` steps along a ray lies on the ray at distance `k`, and is
/// the only such square.
proof fn lemma_ray_square(sq: u64, dr: int, df: int, k: int)
    requires
        sq < 64,
        is_direction(dr, df),
        k >= 1,
        step_on_board(sq, dr, df, k),
    ensures
        ray_square(sq, dr, df, k) < 64,
        on_ray(sq, dr, df, ray_square(sq, dr, df, k)),
        ray_dist(sq, dr, df, ray_square(sq, dr, df, k)) == k,
        forall|t: u64|
            t < 64 && on_ray(sq, dr, df, t) && ray_dist(sq, dr, df, t) == k ==> t == ray_square(
                sq,
                dr,
                df,
                k,
            ),
{
}

/// The squares attacked along one ray from `square`, stopping at the
/// first blocker, which is included.
fn ray_walk(square: u64, dr: i64, df: i64, blockers: u64) -> (r: u64)
    requires
        square < 64,
        is_direction(dr as int, df as int),
    ensures
        r == bits_of(|t: u64| ray_attack(square, blockers, dr as int, df as int, t)),
{
    let ghost p = |t: u64| ray_attack(square, blockers, dr as int, df as int, t);
    let ghost (gr, gf) = (dr as int, df as int);
    let mut r: i64 = (square / 8) as i64 + dr;
    let mut f: i64 = (square % 8) as i64 + df;
    let mut acc: u64 = 0;
    let mut blocked = false;
    let ghost mut k: int = 1;
    proof {
        lemma_bit_ops();
    }
    while !blocked && 0 <= r && r < 8 && 0 <= f && f < 8
        invariant
            square < 64,
            is_direction(gr, gf),
            gr == dr as int,
            gf == df as int,
            1 <= k <= 8,
            r == rank(square) + scale(k, gr),
            f == file(square) + scale(k, gf),
            forall|j: int| 1 <= j < k ==> !is_set(blockers, #[trigger] ray_square(square, gr, gf, j)),
            blocked ==> step_on_board(square, gr, gf, k) && is_set(
                blockers,
                ray_square(square, gr, gf, k),
            ),
            forall|t: u64|
                t < 64 ==> #[trigger] is_set(acc, t) == (on_ray(square, gr, gf, t) && ray_dist(
                    square,
                    gr,
                    gf,
                    t,
                ) < k + if blocked {
                    1int
                } else {
                    0int
                }),
        decreases 8 - k + if blocked {
            0int
        } else {
            1int
        },
    {
        let t: u64 = (r * 8 + f) as u64;
        let ghost k0 = k;
        proof {
            lemma_bit_ops();
            lemma_ray_square(square, gr, gf, k);
        }
        acc = acc | (1u64 << t);
        assert forall|x: u64| x < 64 implies #[trigger] is_set(acc, x) == (on_ray(
            square,
            gr,
            gf,
            x,
        ) && ray_dist(square, gr, gf, x) < k0 + 1) by {
            if x == t {
                assert(on_ray(square, gr, gf, x));
            }
        }
        if (blockers >> t) & 1 == 1 {
            blocked = true;
        } else {
            r = r + dr;
            f = f + df;
            proof {
                k = k + 1;
            }
        }
    }
    proof {
        if !blocked {
            assert forall|t: u64| t < 64 && on_ray(square, gr, gf, t) implies ray_dist(
                square,
                gr,
                gf,
                t,
            ) < k by {
                if ray_dist(square, gr, gf, t) >= k {
                    lemma_off_board_stays(square, gr, gf, k, ray_dist(square, gr, gf, t));
                }
            }
        }
        assert forall|t: u64| t < 64 implies #[trigger] is_set(acc, t) == p(t) by {
            if on_ray(square, gr, gf, t) && ray_dist(square, gr, gf, t) > k {
                assert(is_set(blockers, ray_square(square, gr, gf, k)));
            }
        }
        lemma_bits_of_members(acc, p);
    }
    acc
}

/// The squares along one ray from `square` on which a blocker can cut the
/// ray short: all of the ray but its last square on the board.
fn ray_interior(square: u64, dr: i64, df: i64) -> (r: u64)
    requires
        square < 64,
        is_direction(dr as int, df as int),
    ensures
        r == bits_of(|t: u64| ray_inner(square, dr as int, df as int, t)),
        popcount_spec(r) == interior_len(square, dr as int, df as int),
{
    let ghost p = |t: u64| ray_inner(square, dr as int, df as int, t);
    let ghost (gr, gf) = (dr as int, df as int);
    let mut r: i64 = (square / 8) as i64 + dr;
    let mut f: i64 = (square % 8) as i64 + df;
    let mut acc: u64 = 0;
    let ghost mut k: int = 1;
    proof {
        lemma_bit_ops();
        crate::bits::lemma_count_empty(64);
    }
    while 0 <= r && r < 8 && 0 <= f && f < 8 && 0 <= r + dr && r + dr < 8 && 0 <= f + df && f
        + df < 8
        invariant
            square < 64,
            is_direction(gr, gf),
            gr == dr as int,
            gf == df as int,
            1 <= k <= 8,
            r == rank(square) + scale(k, gr),
            f == file(square) + scale(k, gf),
            k == 1 || step_on_board(square, gr, gf, k),
            popcount_spec(acc) == k - 1,
            forall|t: u64|
                t < 64 ==> #[trigger] is_set(acc, t) == (on_ray(square, gr, gf, t) && ray_dist(
                    square,
                    gr,
                    gf,
                    t,
                ) < k),
        decreases 8 - k,
    {
        let t: u64 = (r * 8 + f) as u64;
        let ghost k0 = k;
        proof {
            lemma_bit_ops();
            lemma_ray_square(square, gr, gf, k);
        }
        let ghost prev = acc;
        acc = acc | (1u64 << t);
        assert forall|x: u64| x < 64 implies #[trigger] is_set(acc, x) == (on_ray(
            square,
            gr,
            gf,
            x,
        ) && ray_dist(square, gr, gf, x) < k0 + 1) by {
            if x == t {
                assert(on_ray(square, gr, gf, x));
            }
        }
        proof {
            assert forall|x: u64| x < 64 && x != t implies is_set(prev, x) == is_set(acc, x) by {}
            lemma_count_one_more(prev, acc, t, 64);
        }
        r = r + dr;
        f = f + df;
        proof {
            k = k + 1;
        }
    }
    proof {
        assert forall|t: u64| t < 64 implies #[trigger] is_set(acc, t) == p(t) by {
            if on_ray(square, gr, gf, t) {
                let d = ray_dist(square, gr, gf, t);
                if d < k && k > 1 && !step_on_board(square, gr, gf, d + 1) {
                    lemma_off_board_stays(square, gr, gf, d + 1, k);
                }
                if d >= k && !step_on_board(square, gr, gf, k) {
                    lemma_off_board_stays(square, gr, gf, k, d);
                }
                if d >= k && step_on_board(square, gr, gf, k) && !step_on_board(
                    square,
                    gr,
                    gf,
                    k + 1,
                ) {
                    lemma_off_board_stays(square, gr, gf, k + 1, d + 1);
                }
            }
        }
        lemma_bits_of_members(acc, p);
        lemma_step_on_board_len(square, gr, gf, k);
        lemma_step_on_board_len(square, gr, gf, k + 1);
    }
    acc
}

/// Squares relevant to blocker detection for a rook on `square`: its four
/// rays, each without its last square on the board.
pub fn rook_unblocked_attack_rays(square: u64) -> (r: u64)
    requires
        square < 64,
    ensures
        r == rook_mask_bb(square),
        popcount_spec(r) <= 12,
{
    let north = ray_interior(square, 1, 0);
    let south = ray_interior(square, -1, 0);
    let east = ray_interior(square, 0, 1);
    let west = ray_interior(square, 0, -1);
    proof {
        lemma_bit_ops();
        lemma_bits_of(|t: u64| ray_inner(square, 1, 0, t));
        lemma_bits_of(|t: u64| ray_inner(square, -1, 0, t));
        lemma_bits_of(|t: u64| ray_inner(square, 0, 1, t));
        lemma_bits_of(|t: u64| ray_inner(square, 0, -1, t));
        lemma_bits_of_members(north | south | east | west, |t: u64| rook_inner(square, t));
        lemma_count_union(north | south | east, west, 64);
        lemma_count_union(north | south, east, 64);
        lemma_count_union(north, south, 64);
    }
    north | south | east | west
}

/// Squares relevant to blocker detection for a bishop on `square`: its four
/// diagonal rays, each without its last square on the board.
pub fn bishop_unblocked_attack_rays(square: u64) -> (r: u64)
    requires
        square < 64,
    ensures
        r == bishop_mask_bb(square),
        popcount_spec(r) <= 9,
{
    let ne = ray_interior(square, 1, 1);
    let nw = ray_interior(square, 1, -1);
    let se = ray_interior(square, -1, 1);
    let sw = ray_interior(square, -1, -1);
    proof {
        lemma_bit_ops();
        lemma_bits_of(|t: u64| ray_inner(square, 1, 1, t));
        lemma_bits_of(|t: u64| ray_inner(square, 1, -1, t));
        lemma_bits_of(|t: u64| ray_inner(square, -1, 1, t));
        lemma_bits_of(|t: u64| ray_inner(square, -1, -1, t));
        lemma_bits_of_members(ne | nw | se | sw, |t: u64| bishop_inner(square, t));
        lemma_count_union(ne | nw | se, sw, 64);
        lemma_count_union(ne | nw, se, 64);
        lemma_count_union(ne, nw, 64);
    }
    ne | nw | se | sw
}

/// The squares a rook on `square` attacks: along each rank and file
/// direction up to and including the first square in `blockers`.
pub fn rook_blocked_attack_rays(square: u64, blockers: u64) -> (r: u64)
    requires
        square < 64,
    ensures
        r == rook_attacks_bb(square, blockers),
        forall|t: u64| t < 64 ==> #[trigger] is_set(r, t) == rook_line_attack(square, blockers, t),
{
    let north = ray_walk(square, 1, 0, blockers);
    let south = ray_walk(square, -1, 0, blockers);
    let east = ray_walk(square, 0, 1, blockers);
    let west = ray_walk(square, 0, -1, blockers);
    proof {
        lemma_bit_ops();
        lemma_bits_of(|t: u64| ray_attack(square, blockers, 1, 0, t));
        lemma_bits_of(|t: u64| ray_attack(square, blockers, -1, 0, t));
        lemma_bits_of(|t: u64| ray_attack(square, blockers, 0, 1, t));
        lemma_bits_of(|t: u64| ray_attack(square, blockers, 0, -1, t));
        lemma_bits_of_members(
            north | south | east | west,
            |t: u64| rook_attack(square, blockers, t),
        );
        assert forall|t: u64| t < 64 implies #[trigger] is_set(north | south | east | west, t)
            == rook_line_attack(square, blockers, t) by {
            lemma_rook_attack_line(square, blockers, t);
        }
    }
    north | south | east | west
}

/// The squares a bishop on `square` attacks: along each diagonal direction
/// up to and including the first square in `blockers`.
pub fn bishop_blocked_attack_rays(square: u64, blockers: u64) -> (r: u64)
    requires
        square < 64,
    ensures
        r == bishop_attacks_bb(square, blockers),
        forall|t: u64| t < 64 ==> #[trigger] is_set(r, t) == bishop_line_attack(square, blockers, t),
{
    let ne = ray_walk(square, 1, 1, blockers);
    let nw = ray_walk(square, 1, -1, blockers);
    let se = ray_walk(square, -1, 1, blockers);
    let sw = ray_walk(square, -1, -1, blockers);
    proof {
        lemma_bit_ops();
        lemma_bits_of(|t: u64| ray_attack(square, blockers, 1, 1, t));
        lemma_bits_of(|t: u64| ray_attack(square, blockers, 1, -1, t));
        lemma_bits_of(|t: u64| ray_attack(square, blockers, -1, 1, t));
        lemma_bits_of(|t: u64| ray_attack(square, blockers, -1, -1, t));
        lemma_bits_of_members(
            ne | nw | se | sw,
            |t: u64| bishop_attack(square, blockers, t),
        );
        assert forall|t: u64| t < 64 implies #[trigger] is_set(ne | nw | se | sw, t)
            == bishop_line_attack(square, blockers, t) by {
            lemma_bishop_attack_line(square, blockers, t);
        }
    }
    ne | nw | se | sw
}

/// The knight attacks from each square.
const KNIGHT_ATTACKS: [u64; 64] = [
    0x20400,
    0x50800,
    0xa1100,
    0x142200,
    0x284400,
    0x508800,
    0xa01000,
    0x402000,
    0x2040004,
    0x5080008,
    0xa110011,
    0x14220022,
    0x28440044,
    0x50880088,
    0xa0100010,
    0x40200020,
    0x204000402,
    0x508000805,
    0xa1100110a,
    0x1422002214,
    0x2844004428,
    0x5088008850,
    0xa0100010a0,
    0x4020002040,
    0x20400040200,
    0x50800080500,
    0xa1100110a00,
    0x142200221400,
    0x284400442800,
    0x508800885000,
    0xa0100010a000,
    0x402000204000,
    0x2040004020000,
    0x5080008050000,
    0xa1100110a0000,
    0x14220022140000,
    0x28440044280000,
    0x50880088500000,
    0xa0100010a00000,
    0x40200020400000,
    0x204000402000000,
    0x508000805000000,
    0xa1100110a000000,
    0x1422002214000000,
    0x2844004428000000,
    0x5088008850000000,
    0xa0100010a0000000,
    0x4020002040000000,
    0x400040200000000,
    0x800080500000000,
    0x1100110a00000000,
    0x2200221400000000,
    0x4400442800000000,
    0x8800885000000000,
    0x100010a000000000,
    0x2000204000000000,
    0x4020000000000,
    0x8050000000000,
    0x110a0000000000,
    0x22140000000000,
    0x44280000000000,
    0x88500000000000,
    0x10a00000000000,
    0x20400000000000,
];

/// The king attacks from each square.
const KING_ATTACKS: [u64; 64] = [
    0x302,
    0x705,
    0xe0a,
    0x1c14,
    0x3828,
    0x7050,
    0xe0a0,
    0xc040,
    0x30203,
    0x70507,
    0xe0a0e,
    0x1c141c,
    0x382838,
    0x705070,
    0xe0a0e0,
    0xc040c0,
    0x3020300,
    0x7050700,
    0xe0a0e00,
    0x1c141c00,
    0x38283800,
    0x70507000,
    0xe0a0e000,
    0xc040c000,
    0x302030000,
    0x705070000,
    0xe0a0e0000,
    0x1c141c0000,
    0x3828380000,
    0x7050700000,
    0xe0a0e00000,
    0xc040c00000,
    0x30203000000,
    0x70507000000,
    0xe0a0e000000,
    0x1c141c000000,
    0x382838000000,
    0x705070000000,
    0xe0a0e0000000,
    0xc040c0000000,
    0x3020300000000,
    0x7050700000000,
    0xe0a0e00000000,
    0x1c141c00000000,
    0x38283800000000,
    0x70507000000000,
    0xe0a0e000000000,
    0xc040c000000000,
    0x302030000000000,
    0x705070000000000,
    0xe0a0e0000000000,
    0x1c141c0000000000,
    0x3828380000000000,
    0x7050700000000000,
    0xe0a0e00000000000,
    0xc040c00000000000,
    0x203000000000000,
    0x507000000000000,
    0xa0e000000000000,
    0x141c000000000000,
    0x2838000000000000,
    0x5070000000000000,
    0xa0e0000000000000,
    0x40c0000000000000,
];

/// The members of each entry of the knight table.
proof fn lemma_knight_table()
    by (bit_vector)
    ensures
        forall|t: u64| t < 64 ==> #[trigger] is_set(0x20400u64, t) == (t == 10 || t == 17),
        forall|t: u64| t < 64 ==> #[trigger] is_set(0x50800u64, t) == (t == 11 || t == 16 || t == 18),
        forall|t: u64| t < 64 ==> #[trigger] is_set(0xa1100u64, t) == (t == 8 || t == 12 || t == 17 || t == 19),
        forall|t: u64| t < 64 ==> #[trigger] is_set(0x142200u64, t) == (t == 9 || t == 13 || t == 18 || t == 20),
        forall|t: u64| t < 64 ==> #[trigger] is_set(0x284400u64, t) == (t == 10 || t == 14 || t == 19 || t == 21),
        forall|t: u64| t < 64 ==> #[trigger] is_set(0x508800u64, t) == (t == 11 || t == 15 || t == 20 || t == 22),
        forall|t: u64| t < 64 ==> #[trigger] is_set(0xa01000u64, t) == (t == 12 || t == 21 || t == 23),
        forall|t: u64| t < 64 ==> #[trigger] is_set(0x402000u64, t) == (t == 13 || t == 22),
        forall|t: u64| t < 64 ==> #[trigger] is_set(0x2040004u64, t) == (t == 2 || t == 18 || t == 25),
        forall|t: u64| t < 64 ==> #[trigger] is_set(0x5080008u64, t) == (t == 3 || t == 19 || t == 24 || t == 26),
        forall|t: u64| t < 64 ==> #[trigger] is_set(0xa110011u64, t) == (t == 0 || t == 4 || t == 16 || t == 20 || t == 25 || t == 27),
        forall|t: u64| t < 64 ==> #[trigger] is_set(0x14220022u64, t) == (t == 1 || t == 5 || t == 17 || t == 21 || t == 26 || t == 28),
        forall|t: u64| t < 64 ==> #[trigger] is_set(0x28440044u64, t) == (t == 2 || t == 6 || t == 18 || t == 22 || t == 27 || t == 29),
        forall|t: u64| t < 64 ==> #[trigger] is_set(0x50880088u64, t) == (t == 3 || t == 7 || t == 19 || t == 23 || t == 28 || t == 30),
        forall|t: u64| t < 64 ==> #[trigger] is_set(0xa0100010u64, t) == (t == 4 || t == 20 || t == 29 || t == 31),
        forall|t: u64| t < 64 ==> #[trigger] is_set(0x40200020u64, t) == (t == 5 || t == 21 || t == 30),
        forall|t: u64| t < 64 ==> #[trigger] is_set(0x204000402u64, t) == (t == 1 || t == 10 || t == 26 || t == 33),
        forall|t: u64| t < 64 ==> #[trigger] is_set(0x508000805u64, t) == (t == 0 || t == 2 || t == 11 || t == 27 || t == 32 || t == 34),
        forall|t: u64| t < 64 ==> #[trigger] is_set(0xa1100110au64, t) == (t == 1 || t == 3 || t == 8 || t == 12 || t == 24 || t == 28 || t == 33 || t == 35),
        forall|t: u64| t < 64 ==> #[trigger] is_set(0x1422002214u64, t) == (t == 2 || t == 4 || t == 9 || t == 13 || t == 25 || t == 29 || t == 34 || t == 36),
        forall|t: u64| t < 64 ==> #[trigger] is_set(0x2844004428u64, t) == (t == 3 || t == 5 || t == 10 || t == 14 || t == 26 || t == 30 || t == 35 || t == 37),
        forall|t: u64| t < 64 ==> #[trigger] is_set(0x5088008850u64, t) == (t == 4 || t == 6 || t == 11 || t == 15 || t == 27 || t == 31 || t == 36 || t == 38),
        forall|t: u64| t < 64 ==> #[trigger] is_set(0xa0100010a0u64, t) == (t == 5 || t == 7 || t == 12 || t == 28 || t == 37 || t == 39),
        forall|t: u64| t < 64 ==> #[trigger] is_set(0x4020002040u64, t) == (t == 6 || t == 13 || t == 29 || t == 38),
        forall|t: u64| t < 64 ==> #[trigger] is_set(0x20400040200u64, t) == (t == 9 || t == 18 || t == 34 || t == 41),
        forall|t: u64| t < 64 ==> #[trigger] is_set(0x50800080500u64, t) == (t == 8 || t == 10 || t == 19 || t == 35 || t == 40 || t == 42),
        forall|t: u64| t < 64 ==> #[trigger] is_set(0xa1100110a00u64, t) == (t == 9 || t == 11 || t == 16 || t == 20 || t == 32 || t == 36 || t == 41 || t == 43),
        forall|t: u64| t < 64 ==> #[trigger] is_set(0x142200221400u64, t) == (t == 10 || t == 12 || t == 17 || t == 21 || t == 33 || t == 37 || t == 42 || t == 44),
        forall|t: u64| t < 64 ==> #[trigger] is_set(0x284400442800u64, t) == (t == 11 || t == 13 || t == 18 || t == 22 || t == 34 || t == 38 || t == 43 || t == 45),
        forall|t: u64| t < 64 ==> #[trigger] is_set(0x508800885000u64, t) == (t == 12 || t == 14 || t == 19 || t == 23 || t == 35 || t == 39 || t == 44 || t == 46),
        forall|t: u64| t < 64 ==> #[trigger] is_set(0xa0100010a000u64, t) == (t == 13 || t == 15 || t == 20 || t == 36 || t == 45 || t == 47),
        forall|t: u64| t < 64 ==> #[trigger] is_set(0x402000204000u64, t) == (t == 14 || t == 21 || t == 37 || t == 46),
        forall|t: u64| t < 64 ==> #[trigger] is_set(0x2040004020000u64, t) == (t == 17 || t == 26 || t == 42 || t == 49),
        forall|t: u64| t < 64 ==> #[trigger] is_set(0x5080008050000u64, t) == (t == 16 || t == 18 || t == 27 || t == 43 || t == 48 || t == 50),
        forall|t: u64| t < 64 ==> #[trigger] is_set(0xa1100110a0000u64, t) == (t == 17 || t == 19 || t == 24 || t == 28 || t == 40 || t == 44 || t == 49 || t == 51),
        forall|t: u64| t < 64 ==> #[trigger] is_set(0x14220022140000u64, t) == (t == 18 || t == 20 || t == 25 || t == 29 || t == 41 || t == 45 || t == 50 || t == 52),
        forall|t: u64| t < 64 ==> #[trigger] is_set(0x28440044280000u64, t) == (t == 19 || t == 21 || t == 26 || t == 30 || t == 42 || t == 46 || t == 51 || t == 53),
        forall|t: u64| t < 64 ==> #[trigger] is_set(0x50880088500000u64, t) == (t == 20 || t == 22 || t == 27 || t == 31 || t == 43 || t == 47 || t == 52 || t == 54),
        forall|t: u64| t < 64 ==> #[trigger] is_set(0xa0100010a00000u64, t) == (t == 21 || t == 23 || t == 28 || t == 44 || t == 53 || t == 55),
        forall|t: u64| t < 64 ==> #[trigger] is_set(0x40200020400000u64, t) == (t == 22 || t == 29 || t == 45 || t == 54),
        forall|t: u64| t < 64 ==> #[trigger] is_set(0x204000402000000u64, t) == (t == 25 || t == 34 || t == 50 || t == 57),
        forall|t: u64| t < 64 ==> #[trigger] is_set(0x508000805000000u64, t) == (t == 24 || t == 26 || t == 35 || t == 51 || t == 56 || t == 58),
        forall|t: u64| t < 64 ==> #[trigger] is_set(0xa1100110a000000u64, t) == (t == 25 || t == 27 || t == 32 || t == 36 || t == 48 || t == 52 || t == 57 || t == 59),
        forall|t: u64| t < 64 ==> #[trigger] is_set(0x1422002214000000u64, t) == (t == 26 || t == 28 || t == 33 || t == 37 || t == 49 || t == 53 || t == 58 || t == 60),
        forall|t: u64| t < 64 ==> #[trigger] is_set(0x2844004428000000u64, t) == (t == 27 || t == 29 || t == 34 || t == 38 || t == 50 || t == 54 || t == 59 || t == 61),
        forall|t: u64| t < 64 ==> #[trigger] is_set(0x5088008850000000u64, t) == (t == 28 || t == 30 || t == 35 || t == 39 || t == 51 || t == 55 || t == 60 || t == 62),
        forall|t: u64| t < 64 ==> #[trigger] is_set(0xa0100010a0000000u64, t) == (t == 29 || t == 31 || t == 36 || t == 52 || t == 61 || t == 63),
        forall|t: u64| t < 64 ==> #[trigger] is_set(0x4020002040000000u64, t) == (t == 30 || t == 37 || t == 53 || t == 62),
        forall|t: u64| t < 64 ==> #[trigger] is_set(0x400040200000000u64, t) == (t == 33 || t == 42 || t == 58),
        forall|t: u64| t < 64 ==> #[trigger] is_set(0x800080500000000u64, t) == (t == 32 || t == 34 || t == 43 || t == 59),
        forall|t: u64| t < 64 ==> #[trigger] is_set(0x1100110a00000000u64, t) == (t == 33 || t == 35 || t == 40 || t == 44 || t == 56 || t == 60),
        forall|t: u64| t < 64 ==> #[trigger] is_set(0x2200221400000000u64, t) == (t == 34 || t == 36 || t == 41 || t == 45 || t == 57 || t == 61),
        forall|t: u64| t < 64 ==> #[trigger] is_set(0x4400442800000000u64, t) == (t == 35 || t == 37 || t == 42 || t == 46 || t == 58 || t == 62),
        forall|t: u64| t < 64 ==> #[trigger] is_set(0x8800885000000000u64, t) == (t == 36 || t == 38 || t == 43 || t == 47 || t == 59 || t == 63),
        forall|t: u64| t < 64 ==> #[trigger] is_set(0x100010a000000000u64, t) == (t == 37 || t == 39 || t == 44 || t == 60),
        forall|t: u64| t < 64 ==> #[trigger] is_set(0x2000204000000000u64, t) == (t == 38 || t == 45 || t == 61),
        forall|t: u64| t < 64 ==> #[trigger] is_set(0x4020000000000u64, t) == (t == 41 || t == 50),
        forall|t: u64| t < 64 ==> #[trigger] is_set(0x8050000000000u64, t) == (t == 40 || t == 42 || t == 51),
        forall|t: u64| t < 64 ==> #[trigger] is_set(0x110a0000000000u64, t) == (t == 41 || t == 43 || t == 48 || t == 52),
        forall|t: u64| t < 64 ==> #[trigger] is_set(0x22140000000000u64, t) == (t == 42 || t == 44 || t == 49 || t == 53),
        forall|t: u64| t < 64 ==> #[trigger] is_set(0x44280000000000u64, t) == (t == 43 || t == 45 || t == 50 || t == 54),
        forall|t: u64| t < 64 ==> #[trigger] is_set(0x88500000000000u64, t) == (t == 44 || t == 46 || t == 51 || t == 55),
        forall|t: u64| t < 64 ==> #[trigger] is_set(0x10a00000000000u64, t) == (t == 45 || t == 47 || t == 52),
        forall|t: u64| t < 64 ==> #[trigger] is_set(0x20400000000000u64, t) == (t == 46 || t == 53),
{
}

/// The members of each entry of the king table.
proof fn lemma_king_table()
    by (bit_vector)
    ensures
        forall|t: u64| t < 64 ==> #[trigger] is_set(0x302u64, t) == (t == 1 || t == 8 || t == 9),
        forall|t: u64| t < 64 ==> #[trigger] is_set(0x705u64, t) == (t == 0 || t == 2 || t == 8 || t == 9 || t == 10),
        forall|t: u64| t < 64 ==> #[trigger] is_set(0xe0au64, t) == (t == 1 || t == 3 || t == 9 || t == 10 || t == 11),
        forall|t: u64| t < 64 ==> #[trigger] is_set(0x1c14u64, t) == (t == 2 || t == 4 || t == 10 || t == 11 || t == 12),
        forall|t: u64| t < 64 ==> #[trigger] is_set(0x3828u64, t) == (t == 3 || t == 5 || t == 11 || t == 12 || t == 13),
        forall|t: u64| t < 64 ==> #[trigger] is_set(0x7050u64, t) == (t == 4 || t == 6 || t == 12 || t == 13 || t == 14),
        forall|t: u64| t < 64 ==> #[trigger] is_set(0xe0a0u64, t) == (t == 5 || t == 7 || t == 13 || t == 14 || t == 15),
        forall|t: u64| t < 64 ==> #[trigger] is_set(0xc040u64, t) == (t == 6 || t == 14 || t == 15),
        forall|t: u64| t < 64 ==> #[trigger] is_set(0x30203u64, t) == (t == 0 || t == 1 || t == 9 || t == 16 || t == 17),
        forall|t: u64| t < 64 ==> #[trigger] is_set(0x70507u64, t) == (t == 0 || t == 1 || t == 2 || t == 8 || t == 10 || t == 16 || t == 17 || t == 18),
        forall|t: u64| t < 64 ==> #[trigger] is_set(0xe0a0eu64, t) == (t == 1 || t == 2 || t == 3 || t == 9 || t == 11 || t == 17 || t == 18 || t == 19),
        forall|t: u64| t < 64 ==> #[trigger] is_set(0x1c141cu64, t) == (t == 2 || t == 3 || t == 4 || t == 10 || t == 12 || t == 18 || t == 19 || t == 20),
        forall|t: u64| t < 64 ==> #[trigger] is_set(0x382838u64, t) == (t == 3 || t == 4 || t == 5 || t == 11 || t == 13 || t == 19 || t == 20 || t == 21),
        forall|t: u64| t < 64 ==> #[trigger] is_set(0x705070u64, t) == (t == 4 || t == 5 || t == 6 || t == 12 || t == 14 || t == 20 || t == 21 || t == 22),
        forall|t: u64| t < 64 ==> #[trigger] is_set(0xe0a0e0u64, t) == (t == 5 || t == 6 || t == 7 || t == 13 || t == 15 || t == 21 || t == 22 || t == 23),
        forall|t: u64| t < 64 ==> #[trigger] is_set(0xc040c0u64, t) == (t == 6 || t == 7 || t == 14 || t == 22 || t == 23),
        forall|t: u64| t < 64 ==> #[trigger] is_set(0x3020300u64, t) == (t == 8 || t == 9 || t == 17 || t == 24 || t == 25),
        forall|t: u64| t < 64 ==> #[trigger] is_set(0x7050700u64, t) == (t == 8 || t == 9 || t == 10 || t == 16 || t == 18 || t == 24 || t == 25 || t == 26),
        forall|t: u64| t < 64 ==> #[trigger] is_set(0xe0a0e00u64, t) == (t == 9 || t == 10 || t == 11 || t == 17 || t == 19 || t == 25 || t == 26 || t == 27),
        forall|t: u64| t < 64 ==> #[trigger] is_set(0x1c141c00u64, t) == (t == 10 || t == 11 || t == 12 || t == 18 || t == 20 || t == 26 || t == 27 || t == 28),
        forall|t: u64| t < 64 ==> #[trigger] is_set(0x38283800u64, t) == (t == 11 || t == 12 || t == 13 || t == 19 || t == 21 || t == 27 || t == 28 || t == 29),
        forall|t: u64| t < 64 ==> #[trigger] is_set(0x70507000u64, t) == (t == 12 || t == 13 || t == 14 || t == 20 || t == 22 || t == 28 || t == 29 || t == 30),
        forall|t: u64| t < 64 ==> #[trigger] is_set(0xe0a0e000u64, t) == (t == 13 || t == 14 || t == 15 || t == 21 || t == 23 || t == 29 || t == 30 || t == 31),
        forall|t: u64| t < 64 ==> #[trigger] is_set(0xc040c000u64, t) == (t == 14 || t == 15 || t == 22 || t == 30 || t == 31),
        forall|t: u64| t < 64 ==> #[trigger] is_set(0x302030000u64, t) == (t == 16 || t == 17 || t == 25 || t == 32 || t == 33),
        forall|t: u64| t < 64 ==> #[trigger] is_set(0x705070000u64, t) == (t == 16 || t == 17 || t == 18 || t == 24 || t == 26 || t == 32 || t == 33 || t == 34),
        forall|t: u64| t < 64 ==> #[trigger] is_set(0xe0a0e0000u64, t) == (t == 17 || t == 18 || t == 19 || t == 25 || t == 27 || t == 33 || t == 34 || t == 35),
        forall|t: u64| t < 64 ==> #[trigger] is_set(0x1c141c0000u64, t) == (t == 18 || t == 19 || t == 20 || t == 26 || t == 28 || t == 34 || t == 35 || t == 36),
        forall|t: u64| t < 64 ==> #[trigger] is_set(0x3828380000u64, t) == (t == 19 || t == 20 || t == 21 || t == 27 || t == 29 || t == 35 || t == 36 || t == 37),
        forall|t: u64| t < 64 ==> #[trigger] is_set(0x7050700000u64, t) == (t == 20 || t == 21 || t == 22 || t == 28 || t == 30 || t == 36 || t == 37 || t == 38),
        forall|t: u64| t < 64 ==> #[trigger] is_set(0xe0a0e00000u64, t) == (t == 21 || t == 22 || t == 23 || t == 29 || t == 31 || t == 37 || t == 38 || t == 39),
        forall|t: u64| t < 64 ==> #[trigger] is_set(0xc040c00000u64, t) == (t == 22 || t == 23 || t == 30 || t == 38 || t == 39),
        forall|t: u64| t < 64 ==> #[trigger] is_set(0x30203000000u64, t) == (t == 24 || t == 25 || t == 33 || t == 40 || t == 41),
        forall|t: u64| t < 64 ==> #[trigger] is_set(0x70507000000u64, t) == (t == 24 || t == 25 || t == 26 || t == 32 || t == 34 || t == 40 || t == 41 || t == 42),
        forall|t: u64| t < 64 ==> #[trigger] is_set(0xe0a0e000000u64, t) == (t == 25 || t == 26 || t == 27 || t == 33 || t == 35 || t == 41 || t == 42 || t == 43),
        forall|t: u64| t < 64 ==> #[trigger] is_set(0x1c141c000000u64, t) == (t == 26 || t == 27 || t == 28 || t == 34 || t == 36 || t == 42 || t == 43 || t == 44),
        forall|t: u64| t < 64 ==> #[trigger] is_set(0x382838000000u64, t) == (t == 27 || t == 28 || t == 29 || t == 35 || t == 37 || t == 43 || t == 44 || t == 45),
        forall|t: u64| t < 64 ==> #[trigger] is_set(0x705070000000u64, t) == (t == 28 || t == 29 || t == 30 || t == 36 || t == 38 || t == 44 || t == 45 || t == 46),
        forall|t: u64| t < 64 ==> #[trigger] is_set(0xe0a0e0000000u64, t) == (t == 29 || t == 30 || t == 31 || t == 37 || t == 39 || t == 45 || t == 46 || t == 47),
        forall|t: u64| t < 64 ==> #[trigger] is_set(0xc040c0000000u64, t) == (t == 30 || t == 31 || t == 38 || t == 46 || t == 47),
        forall|t: u64| t < 64 ==> #[trigger] is_set(0x3020300000000u64, t) == (t == 32 || t == 33 || t == 41 || t == 48 || t == 49),
        forall|t: u64| t < 64 ==> #[trigger] is_set(0x7050700000000u64, t) == (t == 32 || t == 33 || t == 34 || t == 40 || t == 42 || t == 48 || t == 49 || t == 50),
        forall|t: u64| t < 64 ==> #[trigger] is_set(0xe0a0e00000000u64, t) == (t == 33 || t == 34 || t == 35 || t == 41 || t == 43 || t == 49 || t == 50 || t == 51),
        forall|t: u64| t < 64 ==> #[trigger] is_set(0x1c141c00000000u64, t) == (t == 34 || t == 35 || t == 36 || t == 42 || t == 44 || t == 50 || t == 51 || t == 52),
        forall|t: u64| t < 64 ==> #[trigger] is_set(0x38283800000000u64, t) == (t == 35 || t == 36 || t == 37 || t == 43 || t == 45 || t == 51 || t == 52 || t == 53),
        forall|t: u64| t < 64 ==> #[trigger] is_set(0x70507000000000u64, t) == (t == 36 || t == 37 || t == 38 || t == 44 || t == 46 || t == 52 || t == 53 || t == 54),
        forall|t: u64| t < 64 ==> #[trigger] is_set(0xe0a0e000000000u64, t) == (t == 37 || t == 38 || t == 39 || t == 45 || t == 47 || t == 53 || t == 54 || t == 55),
        forall|t: u64| t < 64 ==> #[trigger] is_set(0xc040c000000000u64, t) == (t == 38 || t == 39 || t == 46 || t == 54 || t == 55),
        forall|t: u64| t < 64 ==> #[trigger] is_set(0x302030000000000u64, t) == (t == 40 || t == 41 || t == 49 || t == 56 || t == 57),
        forall|t: u64| t < 64 ==> #[trigger] is_set(0x705070000000000u64, t) == (t == 40 || t == 41 || t == 42 || t == 48 || t == 50 || t == 56 || t == 57 || t == 58),
        forall|t: u64| t < 64 ==> #[trigger] is_set(0xe0a0e0000000000u64, t) == (t == 41 || t == 42 || t == 43 || t == 49 || t == 51 || t == 57 || t == 58 || t == 59),
        forall|t: u64| t < 64 ==> #[trigger] is_set(0x1c141c0000000000u64, t) == (t == 42 || t == 43 || t == 44 || t == 50 || t == 52 || t == 58 || t == 59 || t == 60),
        forall|t: u64| t < 64 ==> #[trigger] is_set(0x3828380000000000u64, t) == (t == 43 || t == 44 || t == 45 || t == 51 || t == 53 || t == 59 || t == 60 || t == 61),
        forall|t: u64| t < 64 ==> #[trigger] is_set(0x7050700000000000u64, t) == (t == 44 || t == 45 || t == 46 || t == 52 || t == 54 || t == 60 || t == 61 || t == 62),
        forall|t: u64| t < 64 ==> #[trigger] is_set(0xe0a0e00000000000u64, t) == (t == 45 || t == 46 || t == 47 || t == 53 || t == 55 || t == 61 || t == 62 || t == 63),
        forall|t: u64| t < 64 ==> #[trigger] is_set(0xc040c00000000000u64, t) == (t == 46 || t == 47 || t == 54 || t == 62 || t == 63),
        forall|t: u64| t < 64 ==> #[trigger] is_set(0x203000000000000u64, t) == (t == 48 || t == 49 || t == 57),
        forall|t: u64| t < 64 ==> #[trigger] is_set(0x507000000000000u64, t) == (t == 48 || t == 49 || t == 50 || t == 56 || t == 58),
        forall|t: u64| t < 64 ==> #[trigger] is_set(0xa0e000000000000u64, t) == (t == 49 || t == 50 || t == 51 || t == 57 || t == 59),
        forall|t: u64| t < 64 ==> #[trigger] is_set(0x141c000000000000u64, t) == (t == 50 || t == 51 || t == 52 || t == 58 || t == 60),
        forall|t: u64| t < 64 ==> #[trigger] is_set(0x2838000000000000u64, t) == (t == 51 || t == 52 || t == 53 || t == 59 || t == 61),
        forall|t: u64| t < 64 ==> #[trigger] is_set(0x5070000000000000u64, t) == (t == 52 || t == 53 || t == 54 || t == 60 || t == 62),
        forall|t: u64| t < 64 ==> #[trigger] is_set(0xa0e0000000000000u64, t) == (t == 53 || t == 54 || t == 55 || t == 61 || t == 63),
        forall|t: u64| t < 64 ==> #[trigger] is_set(0x40c0000000000000u64, t) == (t == 54 || t == 55 || t == 62),
{
}

/// The squares a knight on `square` attacks.
pub fn knight_attacks(square: u64) -> (r: u64)
    requires
        square < 64,
    ensures
        r == knight_bb(square),
{
    let r = KNIGHT_ATTACKS[square as usize];
    proof {
        lemma_knight_table();
        assert forall|t: u64| t < 64 implies #[trigger] is_set(r, t) == knight_jump(square, t) by {
            assert(square == 0 || square == 1 || square == 2 || square == 3 || square == 4 || square == 5 || square == 6 || square == 7 || square == 8 || square == 9 || square == 10 || square == 11 || square == 12 || square == 13 || square == 14 || square == 15 || square == 16 || square == 17 || square == 18 || square == 19 || square == 20 || square == 21 || square == 22 || square == 23 || square == 24 || square == 25 || square == 26 || square == 27 || square == 28 || square == 29 || square == 30 || square == 31 || square == 32 || square == 33 || square == 34 || square == 35 || square == 36 || square == 37 || square == 38 || square == 39 || square == 40 || square == 41 || square == 42 || square == 43 || square == 44 || square == 45 || square == 46 || square == 47 || square == 48 || square == 49 || square == 50 || square == 51 || square == 52 || square == 53 || square == 54 || square == 55 || square == 56 || square == 57 || square == 58 || square == 59 || square == 60 || square == 61 || square == 62 || square == 63);
        }
        lemma_bits_of_members(r, |t: u64| knight_jump(square, t));
    }
    r
}

/// The squares a king on `square` attacks.
pub fn king_attacks(square: u64) -> (r: u64)
    requires
        square < 64,
    ensures
        r == king_bb(square),
{
    let r = KING_ATTACKS[square as usize];
    proof {
        lemma_king_table();
        assert forall|t: u64| t < 64 implies #[trigger] is_set(r, t) == king_step(square, t) by {
            assert(square == 0 || square == 1 || square == 2 || square == 3 || square == 4 || square == 5 || square == 6 || square == 7 || square == 8 || square == 9 || square == 10 || square == 11 || square == 12 || square == 13 || square == 14 || square == 15 || square == 16 || square == 17 || square == 18 || square == 19 || square == 20 || square == 21 || square == 22 || square == 23 || square == 24 || square == 25 || square == 26 || square == 27 || square == 28 || square == 29 || square == 30 || square == 31 || square == 32 || square == 33 || square == 34 || square == 35 || square == 36 || square == 37 || square == 38 || square == 39 || square == 40 || square == 41 || square == 42 || square == 43 || square == 44 || square == 45 || square == 46 || square == 47 || square == 48 || square == 49 || square == 50 || square == 51 || square == 52 || square == 53 || square == 54 || square == 55 || square == 56 || square == 57 || square == 58 || square == 59 || square == 60 || square == 61 || square == 62 || square == 63);
        }
        lemma_bits_of_members(r, |t: u64| king_step(square, t));
    }
    r
}

/// `v` lies strictly between `a` and `b`.
pub open spec fn strictly_between(v: int, a: int, b: int) -> bool {
    (a < v < b) || (b < v < a)
}

/// `x` lies strictly between `sq` and `t` on their common rank or file.
pub open spec fn between_on_line(sq: u64, t: u64, x: u64) -> bool {
    (rank(x) == rank(sq) && rank(t) == rank(sq) && strictly_between(file(x), file(sq), file(t)))
        || (file(x) == file(sq) && file(t) == file(sq) && strictly_between(
        rank(x),
        rank(sq),
        rank(t),
    ))
}

/// `x` lies strictly between `sq` and `t` on their common diagonal.
pub open spec fn between_on_diagonal(sq: u64, t: u64, x: u64) -> bool {
    &&& abs(rank(x) - rank(sq)) == abs(file(x) - file(sq))
    &&& strictly_between(rank(x), rank(sq), rank(t))
    &&& strictly_between(file(x), file(sq), file(t))
}

/// A rook on `sq` attacks `t`: another square on its rank or file with no
/// blocker strictly between.
pub open spec fn rook_line_attack(sq: u64, blockers: u64, t: u64) -> bool {
    &&& t != sq
    &&& rank(t) == rank(sq) || file(t) == file(sq)
    &&& forall|x: u64| x < 64 && #[trigger] between_on_line(sq, t, x) ==> !is_set(blockers, x)
}

/// A bishop on `sq` attacks `t`: another square on one of its diagonals
/// with no blocker strictly between.
pub open spec fn bishop_line_attack(sq: u64, blockers: u64, t: u64) -> bool {
    &&& t != sq
    &&& abs(rank(t) - rank(sq)) == abs(file(t) - file(sq))
    &&& forall|x: u64| x < 64 && #[trigger] between_on_diagonal(sq, t, x) ==> !is_set(blockers, x)
}

/// Along a ray through `t`, the attack on `t` is free of blockers on the
/// ray squares nearer than `t`.
proof fn lemma_ray_attack_segment(sq: u64, b: u64, dr: int, df: int, t: u64)
    requires
        sq < 64,
        t < 64,
        is_direction(dr, df),
        on_ray(sq, dr, df, t),
    ensures
        ray_attack(sq, b, dr, df, t) <==> forall|x: u64|
            x < 64 && on_ray(sq, dr, df, x) && ray_dist(sq, dr, df, x) < ray_dist(sq, dr, df, t)
                ==> !is_set(b, x),
{
    let d = ray_dist(sq, dr, df, t);
    if ray_attack(sq, b, dr, df, t) {
        assert forall|x: u64|
            x < 64 && on_ray(sq, dr, df, x) && ray_dist(sq, dr, df, x) < d implies !is_set(
            b,
            x,
        ) by {
            let j = ray_dist(sq, dr, df, x);
            lemma_ray_square(sq, dr, df, j);
            assert(!is_set(b, ray_square(sq, dr, df, j)));
        }
    }
    if forall|x: u64|
        x < 64 && on_ray(sq, dr, df, x) && ray_dist(sq, dr, df, x) < d ==> !is_set(b, x) {
        assert forall|j: int| 1 <= j < d implies !is_set(b, #[trigger] ray_square(sq, dr, df, j)) by {
            if !step_on_board(sq, dr, df, j) {
                lemma_off_board_stays(sq, dr, df, j, d);
            }
            lemma_ray_square(sq, dr, df, j);
        }
    }
}

/// The ray walk of a rook is the attack on its rank and file up to the
/// first blocker.
pub proof fn lemma_rook_attack_line(sq: u64, b: u64, t: u64)
    requires
        sq < 64,
        t < 64,
    ensures
        rook_attack(sq, b, t) == rook_line_attack(sq, b, t),
{
    let dr: int = if rank(t) > rank(sq) {
        1
    } else if rank(t) < rank(sq) {
        -1
    } else {
        0
    };
    let df: int = if file(t) > file(sq) {
        1
    } else if file(t) < file(sq) {
        -1
    } else {
        0
    };
    if t != sq && (dr == 0 || df == 0) {
        assert(on_ray(sq, dr, df, t));
        lemma_ray_attack_segment(sq, b, dr, df, t);
        assert forall|x: u64| x < 64 implies #[trigger] between_on_line(sq, t, x) == (on_ray(
            sq,
            dr,
            df,
            x,
        ) && ray_dist(sq, dr, df, x) < ray_dist(sq, dr, df, t)) by {}
        assert(rook_attack(sq, b, t) == ray_attack(sq, b, dr, df, t));
        if rook_attack(sq, b, t) {
            assert forall|x: u64| x < 64 && #[trigger] between_on_line(sq, t, x) implies !is_set(b, x) by {
                assert(on_ray(sq, dr, df, x) && ray_dist(sq, dr, df, x) < ray_dist(sq, dr, df, t));
            }
        }
        if rook_line_attack(sq, b, t) {
            assert forall|x: u64|
                x < 64 && on_ray(sq, dr, df, x) && ray_dist(sq, dr, df, x) < ray_dist(
                    sq,
                    dr,
                    df,
                    t,
                ) implies !is_set(b, x) by {
                assert(between_on_line(sq, t, x));
            }
        }
    } else {
        assert(!on_ray(sq, 1, 0, t));
        assert(!on_ray(sq, -1, 0, t));
        assert(!on_ray(sq, 0, 1, t));
        assert(!on_ray(sq, 0, -1, t));
    }
}

/// The ray walk of a bishop is the attack on its diagonals up to the
/// first blocker.
pub proof fn lemma_bishop_attack_line(sq: u64, b: u64, t: u64)
    requires
        sq < 64,
        t < 64,
    ensures
        bishop_attack(sq, b, t) == bishop_line_attack(sq, b, t),
{
    let dr: int = if rank(t) > rank(sq) {
        1
    } else {
        -1
    };
    let df: int = if file(t) > file(sq) {
        1
    } else {
        -1
    };
    if t != sq && abs(rank(t) - rank(sq)) == abs(file(t) - file(sq)) {
        assert(on_ray(sq, dr, df, t));
        lemma_ray_attack_segment(sq, b, dr, df, t);
        assert forall|x: u64| x < 64 implies #[trigger] between_on_diagonal(sq, t, x) == (on_ray(
            sq,
            dr,
            df,
            x,
        ) && ray_dist(sq, dr, df, x) < ray_dist(sq, dr, df, t)) by {}
        assert(bishop_attack(sq, b, t) == ray_attack(sq, b, dr, df, t));
        if bishop_attack(sq, b, t) {
            assert forall|x: u64| x < 64 && #[trigger] between_on_diagonal(sq, t, x) implies !is_set(b, x) by {
                assert(on_ray(sq, dr, df, x) && ray_dist(sq, dr, df, x) < ray_dist(sq, dr, df, t));
            }
        }
        if bishop_line_attack(sq, b, t) {
            assert forall|x: u64|
                x < 64 && on_ray(sq, dr, df, x) && ray_dist(sq, dr, df, x) < ray_dist(
                    sq,
                    dr,
                    df,
                    t,
                ) implies !is_set(b, x) by {
                assert(between_on_diagonal(sq, t, x));
            }
        }
    } else {
        assert(!on_ray(sq, 1, 1, t));
        assert(!on_ray(sq, 1, -1, t));
        assert(!on_ray(sq, -1, 1, t));
        assert(!on_ray(sq, -1, -1, t));
    }
}

/// Along one ray, blockers off the ray's inner squares change nothing.
proof fn lemma_ray_attack_masked(sq: u64, b: u64, m: u64, dr: int, df: int, t: u64)
    requires
        sq < 64,
        t < 64,
        is_direction(dr, df),
        forall|x: u64| x < 64 && ray_inner(sq, dr, df, x) ==> is_set(m, x),
    ensures
        ray_attack(sq, b & m, dr, df, t) == ray_attack(sq, b, dr, df, t),
{
    lemma_bit_ops();
    if on_ray(sq, dr, df, t) {
        let d = ray_dist(sq, dr, df, t);
        assert forall|j: int| 1 <= j < d implies is_set(b & m, #[trigger] ray_square(sq, dr, df, j))
            == is_set(b, ray_square(sq, dr, df, j)) by {
            if !step_on_board(sq, dr, df, j + 1) {
                lemma_off_board_stays(sq, dr, df, j + 1, d);
            }
            if !step_on_board(sq, dr, df, j) {
                lemma_off_board_stays(sq, dr, df, j, d);
            }
            lemma_ray_square(sq, dr, df, j);
        }
    }
}

/// A rook's attacks depend only on the blockers within its mask.
pub proof fn lemma_rook_mask_suffices(sq: u64, b: u64)
    requires
        sq < 64,
    ensures
        rook_attacks_bb(sq, b & rook_mask_bb(sq)) == rook_attacks_bb(sq, b),
{
    let m = rook_mask_bb(sq);
    lemma_bits_of(|t: u64| rook_inner(sq, t));
    lemma_bits_of(|t: u64| rook_attack(sq, b & m, t));
    lemma_bits_of(|t: u64| rook_attack(sq, b, t));
    assert forall|t: u64| t < 64 implies #[trigger] is_set(rook_attacks_bb(sq, b & m), t) == is_set(
        rook_attacks_bb(sq, b),
        t,
    ) by {
        lemma_ray_attack_masked(sq, b, m, 1, 0, t);
        lemma_ray_attack_masked(sq, b, m, -1, 0, t);
        lemma_ray_attack_masked(sq, b, m, 0, 1, t);
        lemma_ray_attack_masked(sq, b, m, 0, -1, t);
    }
    lemma_bits_ext(rook_attacks_bb(sq, b & m), rook_attacks_bb(sq, b));
}

/// A bishop's attacks depend only on the blockers within its mask.
pub proof fn lemma_bishop_mask_suffices(sq: u64, b: u64)
    requires
        sq < 64,
    ensures
        bishop_attacks_bb(sq, b & bishop_mask_bb(sq)) == bishop_attacks_bb(sq, b),
{
    let m = bishop_mask_bb(sq);
    lemma_bits_of(|t: u64| bishop_inner(sq, t));
    lemma_bits_of(|t: u64| bishop_attack(sq, b & m, t));
    lemma_bits_of(|t: u64| bishop_attack(sq, b, t));
    assert forall|t: u64| t < 64 implies #[trigger] is_set(bishop_attacks_bb(sq, b & m), t)
        == is_set(bishop_attacks_bb(sq, b), t) by {
        lemma_ray_attack_masked(sq, b, m, 1, 1, t);
        lemma_ray_attack_masked(sq, b, m, 1, -1, t);
        lemma_ray_attack_masked(sq, b, m, -1, 1, t);
        lemma_ray_attack_masked(sq, b, m, -1, -1, t);
    }
    lemma_bits_ext(bishop_attacks_bb(sq, b & m), bishop_attacks_bb(sq, b));
}

/// Every square has a neighbour along some rook ray and some bishop ray, so
/// slider attacks are never empty; and every mask has a member.
pub proof fn lemma_sliders_nonempty(sq: u64, b: u64)
    requires
        sq < 64,
    ensures
        rook_attacks_bb(sq, b) != 0,
        bishop_attacks_bb(sq, b) != 0,
        rook_mask_bb(sq) != 0,
        bishop_mask_bb(sq) != 0,
{
    lemma_bit_ops();
    lemma_bits_of(|t: u64| rook_inner(sq, t));
    lemma_bits_of(|t: u64| bishop_inner(sq, t));
    lemma_bits_of(|t: u64| rook_attack(sq, b, t));
    lemma_bits_of(|t: u64| bishop_attack(sq, b, t));
    let df: int = if file(sq) <= 3 {
        1
    } else {
        -1
    };
    let dr: int = if rank(sq) <= 3 {
        1
    } else {
        -1
    };
    lemma_ray_square(sq, 0, df, 1);
    lemma_ray_square(sq, dr, df, 1);
    let t1 = ray_square(sq, 0, df, 1);
    let t2 = ray_square(sq, dr, df, 1);
    assert(ray_inner(sq, 0, df, t1));
    assert(ray_inner(sq, dr, df, t2));
    assert(ray_attack(sq, b, 0, df, t1));
    assert(ray_attack(sq, b, dr, df, t2));
    assert(is_set(rook_mask_bb(sq), t1));
    assert(is_set(bishop_mask_bb(sq), t2));
    assert(is_set(rook_attacks_bb(sq, b), t1));
    assert(is_set(bishop_attacks_bb(sq, b), t2));
}

} // verus!
