//! Magic-bitboard lookup tables for rook and bishop attacks: building a
//! table for one square from its magic constant, checking that the constant
//! sends distinct blocker sets to distinct slots, and looking attacks up.

use vstd::prelude::*;
use vstd::arithmetic::power2::{pow2, lemma_pow2_pos};
use vstd::bits::{lemma_u64_shl_is_mul, lemma_u64_pow2_no_overflow};
use crate::bits::{is_set, is_subset, popcount_spec, popcount, bit_permutations, lemma_bit_ops, lemma_count_below_le};
use crate::geometry::{
    rook_attacks_bb, bishop_attacks_bb, rook_mask_bb, bishop_mask_bb, rook_unblocked_attack_rays,
    bishop_unblocked_attack_rays, rook_blocked_attack_rays, bishop_blocked_attack_rays,
    lemma_sliders_nonempty, lemma_rook_mask_suffices, lemma_bishop_mask_suffices,
};

verus! {

/// The lookup record of one square for one sliding piece: the blocker mask,
/// the magic multiplier, the shift, and the attack table indexed by
/// `((blockers & mask) * magic) >> shift`.
#[derive(Clone, Debug)]
pub struct SMagic {
    pub attack_table: Vec<u64>,
    pub mask: u64,
    pub magic: u64,
    pub shift: u64,
}

/// A magic constant that sends two distinct blocker sets of a square to
/// the same table slot.
#[derive(Clone, Copy, Debug, PartialEq, Eq, Structural)]
pub struct MagicError {
    pub square: u64,
    pub magic: u64,
}

/// The blocker mask of a rook (`rook`) or bishop on `sq`.
pub open spec fn slider_mask(rook: bool, sq: u64) -> u64 {
    if rook {
        rook_mask_bb(sq)
    } else {
        bishop_mask_bb(sq)
    }
}

/// The attacks of a rook (`rook`) or bishop on `sq` with `blockers` occupied.
pub open spec fn slider_attacks(rook: bool, sq: u64, blockers: u64) -> u64 {
    if rook {
        rook_attacks_bb(sq, blockers)
    } else {
        bishop_attacks_bb(sq, blockers)
    }
}

/// The table slot of the blocker set `b`.
pub open spec fn magic_index(b: u64, magic: u64, shift: u64) -> u64 {
    b.wrapping_mul(magic) >> shift
}

/// The shift for a mask: 64 less the number of mask squares.
pub open spec fn mask_shift(mask: u64) -> u64 {
    (64 - popcount_spec(mask)) as u64
}

/// No two distinct subsets of `mask` share a slot.
pub open spec fn magic_injective(mask: u64, magic: u64, shift: u64) -> bool {
    forall|b1: u64, b2: u64|
        #![trigger magic_index(b1, magic, shift), magic_index(b2, magic, shift)]
        is_subset(b1, mask) && is_subset(b2, mask) && b1 != b2 ==> magic_index(b1, magic, shift)
            != magic_index(b2, magic, shift)
}

/// `magic` is usable for the rook (`rook`) or bishop table of `sq`.
pub open spec fn magic_valid(rook: bool, sq: u64, magic: u64) -> bool {
    let mask = slider_mask(rook, sq);
    magic_injective(mask, magic, mask_shift(mask))
}

/// Every subset of the mask has a slot in `table` that holds its attacks.
pub open spec fn table_holds(table: Seq<u64>, rook: bool, sq: u64, magic: u64, shift: u64) -> bool {
    forall|b: u64|
        #[trigger] is_subset(b, slider_mask(rook, sq)) ==> magic_index(b, magic, shift) < table.len()
            && table[magic_index(b, magic, shift) as int] == slider_attacks(rook, sq, b)
}

impl SMagic {
    /// The record is the lookup table of the rook (`rook`) or bishop on `sq`.
    pub open spec fn wf(&self, rook: bool, sq: u64) -> bool {
        &&& sq < 64
        &&& self.mask == slider_mask(rook, sq)
        &&& 1 <= popcount_spec(self.mask) <= 64
        &&& self.shift == mask_shift(self.mask)
        &&& self.attack_table@.len() == pow2(popcount_spec(self.mask))
        &&& table_holds(self.attack_table@, rook, sq, self.magic, self.shift)
    }
}

/// 64 records, one per square, each the table of its square.
pub open spec fn tables_wf(t: Seq<SMagic>, rook: bool) -> bool {
    t.len() == 64 && forall|sq: int| #![trigger t[sq]] 0 <= sq < 64 ==> t[sq].wf(rook, sq as u64)
}

/// A slot computed from a shift of `64 - n` is below 2^n.
proof fn lemma_index_bound(x: u64, shift: u64)
    requires
        shift < 64,
    ensures
        x >> shift < pow2((64 - shift) as nat),
{
    if shift == 0 {
        vstd::arithmetic::power2::lemma2_to64_rest();
        assert(x >> 0u64 == x) by (bit_vector);
        return;
    }
    let n: u64 = (64 - shift) as u64;
    assert(x >> shift < (1u64 << n)) by (bit_vector)
        requires
            1 <= shift < 64,
            n == 64 - shift,
    ;
    lemma_u64_pow2_no_overflow(n as nat);
    lemma_u64_shl_is_mul(1, n);
}

/// The table of the rook (`rook`) or bishop on `square` under `magic`,
/// filled over every subset of the mask; `None` when two subsets collide.
fn build_vision_table(square: u64, magic: u64, rook: bool) -> (r: Option<([u64; 4096], u64)>)
    requires
        square < 64,
    ensures
        r is Some <==> magic_valid(rook, square, magic),
        r matches Some((table, shift)) ==> shift == mask_shift(slider_mask(rook, square)) && 52
            <= shift && table_holds(table@, rook, square, magic, shift),
{
    let mask = if rook {
        rook_unblocked_attack_rays(square)
    } else {
        bishop_unblocked_attack_rays(square)
    };
    let bits = popcount(mask);
    proof {
        lemma_sliders_nonempty(square, 0);
        lemma_count_below_le(mask, 64);
        lemma_bit_ops();
        if bits == 0 {
            crate::bits::lemma_lowest(mask);
            crate::bits::lemma_count_nonzero(mask, crate::bits::lowest(mask) as u64, 64);
        }
    }
    let shift: u64 = 64 - bits;
    let perms = bit_permutations(mask);
    let mut table = [0u64; 4096];
    proof {
        vstd::arithmetic::power2::lemma2_to64();
        if bits < 12 {
            vstd::arithmetic::power2::lemma_pow2_strictly_increases(bits as nat, 12);
        }
    }
    let mut i: usize = 0;
    while i < perms.len()
        invariant
            square < 64,
            mask == slider_mask(rook, square),
            52 <= shift < 64,
            shift == mask_shift(mask),
            perms@.len() == pow2((64 - shift) as nat),
            pow2((64 - shift) as nat) <= 4096,
            forall|k: int| 0 <= k < perms@.len() ==> is_subset(#[trigger] perms@[k], mask),
            forall|b: u64| is_subset(b, mask) ==> #[trigger] perms@.contains(b),
            forall|k1: int, k2: int| 0 <= k1 < k2 < perms@.len() ==> perms@[k1] != perms@[k2],
            i <= perms@.len(),
            forall|k: int|
                0 <= k < i ==> magic_index(#[trigger] perms@[k], magic, shift) < table@.len()
                    && table@[magic_index(perms@[k], magic, shift) as int] == slider_attacks(
                    rook,
                    square,
                    perms@[k],
                ) && table@[magic_index(perms@[k], magic, shift) as int] != 0,
            forall|x: int|
                0 <= x < 4096 && #[trigger] table@[x] != 0 ==> exists|k: int|
                    0 <= k < i && magic_index(perms@[k], magic, shift) == x,
            forall|k1: int, k2: int|
                0 <= k1 < k2 < i ==> magic_index(#[trigger] perms@[k1], magic, shift)
                    != magic_index(#[trigger] perms@[k2], magic, shift),
        decreases perms@.len() - i,
    {
        let b = perms[i];
        let index = b.wrapping_mul(magic) >> shift;
        proof {
            lemma_index_bound(b.wrapping_mul(magic), shift);
        }
        if table[index as usize] == 0 {
            let a = if rook {
                rook_blocked_attack_rays(square, b)
            } else {
                bishop_blocked_attack_rays(square, b)
            };
            proof {
                lemma_sliders_nonempty(square, b);
                assert forall|k: int| 0 <= k < i implies magic_index(
                    #[trigger] perms@[k],
                    magic,
                    shift,
                ) != index by {}
            }
            table[index as usize] = a;
            proof {
                assert forall|x: int| 0 <= x < 4096 && #[trigger] table@[x] != 0 implies exists|
                    k: int,
                | 0 <= k < i + 1 && magic_index(perms@[k], magic, shift) == x by {
                    if x == index {
                        assert(magic_index(perms@[i as int], magic, shift) == x);
                    } else {
                        let k = choose|k: int| 0 <= k < i && magic_index(perms@[k], magic, shift) == x;
                    }
                }
            }
        } else {
            proof {
                let k = choose|k: int| 0 <= k < i && magic_index(perms@[k], magic, shift) == index;
                assert(perms@[k] != b);
                assert(is_subset(perms@[k], mask) && is_subset(b, mask));
                assert(magic_index(perms@[k], magic, shift) == magic_index(b, magic, shift));
            }
            return None;
        }
        i = i + 1;
    }
    proof {
        assert forall|b: u64| #[trigger] is_subset(b, slider_mask(rook, square)) implies magic_index(
            b,
            magic,
            shift,
        ) < table@.len() && table@[magic_index(b, magic, shift) as int] == slider_attacks(
            rook,
            square,
            b,
        ) by {
            assert(perms@.contains(b));
            lemma_index_bound(b.wrapping_mul(magic), shift);
        }
        assert forall|b1: u64, b2: u64|
            is_subset(b1, mask) && is_subset(b2, mask) && b1 != b2 implies #[trigger] magic_index(
            b1,
            magic,
            shift,
        ) != #[trigger] magic_index(b2, magic, shift) by {
            assert(perms@.contains(b1));
            assert(perms@.contains(b2));
            let k1 = choose|k: int| 0 <= k < perms@.len() && perms@[k] == b1;
            let k2 = choose|k: int| 0 <= k < perms@.len() && perms@[k] == b2;
            if k1 < k2 {
                assert(magic_index(perms@[k1], magic, shift) != magic_index(perms@[k2], magic, shift));
            } else {
                assert(magic_index(perms@[k2], magic, shift) != magic_index(perms@[k1], magic, shift));
            }
        }
    }
    Some((table, shift))
}

/// Fills the rook table of `square` under `magic`: the table and its shift,
/// or `None` when two blocker subsets of the mask share a slot.
pub fn test_rook_magic(square: u64, magic: u64) -> (r: Option<([u64; 4096], u64)>)
    requires
        square < 64,
    ensures
        r is Some <==> magic_valid(true, square, magic),
        r matches Some((table, shift)) ==> shift == mask_shift(rook_mask_bb(square)) && table_holds(
            table@,
            true,
            square,
            magic,
            shift,
        ),
{
    build_vision_table(square, magic, true)
}

/// Fills the bishop table of `square` under `magic`: the table and its
/// shift, or `None` when two blocker subsets of the mask share a slot.
pub fn test_bishop_magic(square: u64, magic: u64) -> (r: Option<([u64; 4096], u64)>)
    requires
        square < 64,
    ensures
        r is Some <==> magic_valid(false, square, magic),
        r matches Some((table, shift)) ==> shift == mask_shift(bishop_mask_bb(square)) && table_holds(
            table@,
            false,
            square,
            magic,
            shift,
        ),
{
    build_vision_table(square, magic, false)
}

/// The bishop magic constant of each square.
pub const BISHOP_MAGICS: [u64; 64] = [
    0xa4406882040823a0,
    0x5010011501020810,
    0x90010041100000,
    0x8060890104020102,
    0x26021000082100,
    0x901008410404,
    0x11090110300421e4,
    0x10820082202618,
    0x820106058212140,
    0x40600400808100,
    0x9410101108410100,
    0x802b844400825000,
    0x2082111040002140,
    0x60e882080c041000,
    0x8624044402601088,
    0x21820088880830,
    0x805005c054050420,
    0x8128202008010243,
    0x5010011501020810,
    0x401201c04028000,
    0x1000820281700,
    0x40120010088400a,
    0x10041402008e0900,
    0x2a00109011000,
    0x250204010e210,
    0x9410101108410100,
    0x810820010240010,
    0x108000502c100,
    0x180840110802000,
    0x10004008a41000,
    0x800850046211000,
    0x22902444d006808,
    0x8888824054100400,
    0x4048041100840101,
    0x44020100020410,
    0x10404880080201,
    0x40028022420020,
    0xa084821880041000,
    0x88a0402084101,
    0x1004204849020100,
    0x804211200880a000,
    0x80108420a005020,
    0x1060820802000500,
    0x1001044010480202,
    0x14104202000190,
    0x6004008083000200,
    0x9410101108410100,
    0x61840100480200,
    0x11090110300421e4,
    0x9044202200000,
    0x90010041100000,
    0xc011850a42020400,
    0x148b15002020000,
    0x80902001444134,
    0x1191100228014202,
    0x5010011501020810,
    0x10820082202618,
    0x21820088880830,
    0x1000004404c5000,
    0x80800000020a0a01,
    0x10d0020200,
    0x21820180220,
    0x820106058212140,
    0xa4406882040823a0,
];

/// The rook magic constant of each square.
pub const ROOK_MAGICS: [u64; 64] = [
    0x880088040011021,
    0x6140081000402000,
    0x2300200240281100,
    0x4100280410006100,
    0x80022c00800800,
    0x480120003800400,
    0x3880210002004180,
    0x1200088540220104,
    0x93800084204009,
    0x1400020100040,
    0x1001100c02009,
    0x42800804100080,
    0x20e1002800910015,
    0x8a0808006000c00,
    0x1004002108020410,
    0x10c0800a41000880,
    0x8080014000a0,
    0x8a8040022000,
    0x90008012200180,
    0x1050020100028,
    0x48008004000880,
    0x8a0808006000c00,
    0x40008102126,
    0x100460004440481,
    0x8480400080008020,
    0x1c00200080804000,
    0x200280500080,
    0x2000100080800800,
    0x1000500080010,
    0x6008200040811,
    0x8022013400081022,
    0x10808a00104104,
    0x420400022800380,
    0x1c00200080804000,
    0x1000302001004101,
    0x1010300083800801,
    0x10a3802402800800,
    0x440800600800c00,
    0x14010644001008,
    0x4a822843020005a4,
    0x20a24002848000,
    0x408482010004000,
    0x4328100020008080,
    0x419081001010020,
    0x20e1002800910015,
    0x8a28020004008080,
    0x812100c0001,
    0x84008104420034,
    0x420400022800380,
    0x2400e24001029100,
    0x200280500080,
    0x100108058080,
    0x48008004000880,
    0x4800200040080,
    0x8041085003020c00,
    0x2004281040600,
    0x321044480013023,
    0x1000d04001210481,
    0x200401100082001,
    0x804050020081001,
    0x840100121008008d,
    0x405005208040021,
    0x1025100800820c,
    0x440020844902,
];

/// The 64 records of one sliding piece, built from one constant per square;
/// the first square whose constant collides is the error.
fn build_magic_tables(magics: &[u64; 64], rook: bool) -> (r: Result<Vec<SMagic>, MagicError>)
    ensures
        r is Ok <==> forall|sq: u64| sq < 64 ==> #[trigger] magic_valid(rook, sq, magics@[sq as int]),
        r matches Ok(t) ==> tables_wf(t@, rook) && forall|sq: int|
            0 <= sq < 64 ==> (#[trigger] t@[sq]).magic == magics@[sq],
        r matches Err(e) ==> e.square < 64 && e.magic == magics@[e.square as int] && !magic_valid(
            rook,
            e.square,
            e.magic,
        ) && forall|sq: u64| sq < e.square ==> #[trigger] magic_valid(rook, sq, magics@[sq as int]),
{
    let mut out: Vec<SMagic> = Vec::new();
    let mut square: u64 = 0;
    while square < 64
        invariant
            square <= 64,
            out@.len() == square,
            forall|sq: int|
                0 <= sq < square ==> (#[trigger] out@[sq]).wf(rook, sq as u64) && out@[sq].magic
                    == magics@[sq],
            forall|sq: u64| sq < square ==> #[trigger] magic_valid(rook, sq, magics@[sq as int]),
        decreases 64 - square,
    {
        let magic = magics[square as usize];
        match build_vision_table(square, magic, rook) {
            Some((table, shift)) => {
                let mask = if rook {
                    rook_unblocked_attack_rays(square)
                } else {
                    bishop_unblocked_attack_rays(square)
                };
                proof {
                    lemma_sliders_nonempty(square, 0);
                    lemma_count_below_le(mask, 64);
                    crate::bits::lemma_lowest(mask);
                    crate::bits::lemma_count_nonzero(mask, crate::bits::lowest(mask) as u64, 64);
                    lemma_u64_pow2_no_overflow((64 - shift) as nat);
                    lemma_u64_shl_is_mul(1, (64 - shift) as u64);
                    vstd::arithmetic::power2::lemma2_to64();
                    if shift > 52 {
                        vstd::arithmetic::power2::lemma_pow2_strictly_increases(
                            (64 - shift) as nat,
                            12,
                        );
                    }
                }
                let size: u64 = 1u64 << (64 - shift);
                let mut attack_table: Vec<u64> = Vec::new();
                let mut j: u64 = 0;
                while j < size
                    invariant
                        size <= 4096,
                        j <= size,
                        attack_table@ == table@.take(j as int),
                    decreases size - j,
                {
                    proof {
                        assert(table@.take(j + 1) =~= table@.take(j as int).push(table@[j as int]));
                    }
                    attack_table.push(table[j as usize]);
                    j = j + 1;
                }
                proof {
                    assert forall|b: u64| #[trigger] is_subset(b, slider_mask(rook, square)) implies magic_index(
                        b,
                        magic,
                        shift,
                    ) < attack_table@.len() && attack_table@[magic_index(b, magic, shift) as int]
                        == slider_attacks(rook, square, b) by {
                        lemma_index_bound(b.wrapping_mul(magic), shift);
                    }
                }
                out.push(SMagic { attack_table, mask, magic, shift });
            },
            None => {
                return Err(MagicError { square, magic });
            },
        }
        square = square + 1;
    }
    Ok(out)
}

/// The bishop records of all 64 squares, or the first square whose
/// constant collides.
pub fn generate_bishop_table() -> (r: Result<Vec<SMagic>, MagicError>)
    ensures
        r is Ok <==> forall|sq: u64| sq < 64 ==> #[trigger] magic_valid(false, sq, BISHOP_MAGICS@[sq as int]),
        r matches Ok(t) ==> tables_wf(t@, false) && forall|sq: int|
            0 <= sq < 64 ==> (#[trigger] t@[sq]).magic == BISHOP_MAGICS@[sq],
        r matches Err(e) ==> e.square < 64 && e.magic == BISHOP_MAGICS@[e.square as int]
            && !magic_valid(false, e.square, e.magic) && forall|sq: u64|
            sq < e.square ==> #[trigger] magic_valid(false, sq, BISHOP_MAGICS@[sq as int]),
{
    build_magic_tables(&BISHOP_MAGICS, false)
}

/// The rook records of all 64 squares, or the first square whose constant
/// collides.
pub fn generate_rook_table() -> (r: Result<Vec<SMagic>, MagicError>)
    ensures
        r is Ok <==> forall|sq: u64| sq < 64 ==> #[trigger] magic_valid(true, sq, ROOK_MAGICS@[sq as int]),
        r matches Ok(t) ==> tables_wf(t@, true) && forall|sq: int|
            0 <= sq < 64 ==> (#[trigger] t@[sq]).magic == ROOK_MAGICS@[sq],
        r matches Err(e) ==> e.square < 64 && e.magic == ROOK_MAGICS@[e.square as int]
            && !magic_valid(true, e.square, e.magic) && forall|sq: u64|
            sq < e.square ==> #[trigger] magic_valid(true, sq, ROOK_MAGICS@[sq as int]),
{
    build_magic_tables(&ROOK_MAGICS, true)
}

/// Both tables, bishop first.
pub fn init() -> (r: Result<(Vec<SMagic>, Vec<SMagic>), MagicError>)
    ensures
        r matches Ok((b, t)) ==> tables_wf(b@, false) && tables_wf(t@, true),
        r is Err ==> !(forall|sq: u64| sq < 64 ==> #[trigger] magic_valid(false, sq, BISHOP_MAGICS@[sq as int]))
            || !(forall|sq: u64| sq < 64 ==> #[trigger] magic_valid(true, sq, ROOK_MAGICS@[sq as int])),
{
    let bishop = match generate_bishop_table() {
        Ok(t) => t,
        Err(e) => {
            return Err(e);
        },
    };
    let rook = match generate_rook_table() {
        Ok(t) => t,
        Err(e) => {
            return Err(e);
        },
    };
    Ok((bishop, rook))
}

/// A well-formed record answers any blocker set: its slot lies in the table
/// and holds the attacks found by walking the rays from the square.
pub proof fn lemma_magic_lookup(m: SMagic, rook: bool, sq: u64, blockers: u64)
    requires
        m.wf(rook, sq),
    ensures
        magic_index(blockers & m.mask, m.magic, m.shift) < m.attack_table@.len(),
        m.attack_table@[magic_index(blockers & m.mask, m.magic, m.shift) as int] == slider_attacks(
            rook,
            sq,
            blockers,
        ),
{
    let b = blockers & m.mask;
    let mask = m.mask;
    assert(is_subset(b, mask)) by (bit_vector)
        requires
            b == blockers & mask,
    ;
    if rook {
        lemma_rook_mask_suffices(sq, blockers);
    } else {
        lemma_bishop_mask_suffices(sq, blockers);
    }
}

/// The attacks of the slider that `m` is the record of, looked up in its table.
pub(crate) fn sliding_attacks(
    blockers: u64,
    m: &SMagic,
    Ghost(rook): Ghost<bool>,
    Ghost(sq): Ghost<u64>,
) -> (r: u64)
    requires
        m.wf(rook, sq),
    ensures
        r == slider_attacks(rook, sq, blockers),
{
    let index: u64 = (blockers & m.mask).wrapping_mul(m.magic) >> m.shift;
    proof {
        lemma_magic_lookup(*m, rook, sq, blockers);
    }
    let len = m.attack_table.len();
    assert(index < len);
    m.attack_table[index as usize]
}

} // verus!
