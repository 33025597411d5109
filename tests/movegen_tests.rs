use chess::bits::{bit_permutations, bit_positions, log2, popcount};
use chess::geometry::{
    bishop_blocked_attack_rays, bishop_unblocked_attack_rays, king_attacks, knight_attacks,
    rook_blocked_attack_rays, rook_unblocked_attack_rays,
};
use chess::magics::{
    generate_bishop_table, generate_rook_table, init, test_bishop_magic, test_rook_magic, SMagic,
    BISHOP_MAGICS, ROOK_MAGICS,
};
use chess::movegen::{dest_square, make_move, origin_square, perft, play_move, pseudo_legal_moves, Position};
use chess::puzzle::{
    board_string, grade_answer, move_string, position_from_sample, random_position, square_to_string,
    Verdict,
};

const SAMPLE: [u64; 22] = [
    4, 3, 59, 0, 7, 27, 2, 5, 20, 45, 1, 6, 33, 42, 60, 58, 56, 63, 61, 50, 57, 62,
];

fn tables() -> (Vec<SMagic>, Vec<SMagic>) {
    init().expect("the magic constants are valid")
}

fn lookup(m: &SMagic, blockers: u64) -> u64 {
    m.attack_table[(((blockers & m.mask).wrapping_mul(m.magic)) >> m.shift) as usize]
}

fn sample_position() -> Position {
    position_from_sample(&SAMPLE)
}

#[test]
fn rook_rays_on_empty_board() {
    assert_eq!(rook_blocked_attack_rays(0, 0), 0x1010101010101fe);
}

#[test]
fn blocked_rays_stop_at_first_blocker() {
    assert_eq!(bishop_blocked_attack_rays(27, (1 << 45) | (1 << 9)), 0x1221400142240);
    assert_eq!(rook_blocked_attack_rays(27, (1 << 30) | (1 << 3)), 0x808080877080808);
}

#[test]
fn blocked_rays_match_a_brute_force_walk() {
    fn walk(sq: u64, dirs: &[(i64, i64)], blockers: u64) -> u64 {
        let mut out = 0u64;
        for &(dr, df) in dirs {
            let (mut r, mut f) = ((sq / 8) as i64 + dr, (sq % 8) as i64 + df);
            while (0..8).contains(&r) && (0..8).contains(&f) {
                let t = (r * 8 + f) as u64;
                out |= 1 << t;
                if blockers >> t & 1 == 1 {
                    break;
                }
                r += dr;
                f += df;
            }
        }
        out
    }
    let rook = [(1, 0), (-1, 0), (0, 1), (0, -1)];
    let bishop = [(1, 1), (1, -1), (-1, 1), (-1, -1)];
    for sq in 0..64 {
        for b in bit_permutations(rook_unblocked_attack_rays(sq)).iter().step_by(7) {
            assert_eq!(rook_blocked_attack_rays(sq, *b), walk(sq, &rook, *b));
        }
        for b in bit_permutations(bishop_unblocked_attack_rays(sq)) {
            assert_eq!(bishop_blocked_attack_rays(sq, b), walk(sq, &bishop, b));
        }
    }
}

#[test]
fn masks_drop_edge_squares() {
    assert_eq!(rook_unblocked_attack_rays(0), 0x101010101017e);
    assert_eq!(rook_unblocked_attack_rays(27), 0x8080876080800);
    assert_eq!(bishop_unblocked_attack_rays(27), 0x40221400142200);
}

#[test]
fn leaper_attacks() {
    assert_eq!(knight_attacks(0), 0x20400);
    assert_eq!(knight_attacks(36), 0x28440044280000);
    assert_eq!(king_attacks(0), 0x302);
    assert_eq!(king_attacks(63), 0x40c0000000000000);
}

#[test]
fn popcount_and_log2() {
    assert_eq!(popcount(0), 0);
    assert_eq!(popcount(0xff00ff), 16);
    assert_eq!(popcount(u64::MAX), 64);
    for k in 0..64 {
        assert_eq!(log2(1 << k), k);
    }
    assert_eq!(bit_positions(0b1010_0001), vec![0, 5, 7]);
    assert!(bit_positions(0).is_empty());
}

#[test]
fn bit_permutations_lists_every_subset_once() {
    let mut subsets = bit_permutations(0b1011);
    assert_eq!(subsets.len(), 8);
    subsets.sort();
    assert_eq!(subsets, vec![0, 1, 2, 3, 8, 9, 10, 11]);
    assert_eq!(bit_permutations(0), vec![0]);
    assert_eq!(bit_permutations(rook_unblocked_attack_rays(0)).len(), 4096);
}

#[test]
fn magic_round_trip() {
    let (bishops, rooks) = tables();
    assert_eq!(bishops.len(), 64);
    assert_eq!(rooks.len(), 64);
    for sq in 0..64u64 {
        let r = &rooks[sq as usize];
        assert_eq!(r.shift, 64 - popcount(r.mask));
        for b in bit_permutations(r.mask) {
            assert_eq!(lookup(r, b), rook_blocked_attack_rays(sq, b));
        }
        let bi = &bishops[sq as usize];
        for b in bit_permutations(bi.mask) {
            assert_eq!(lookup(bi, b), bishop_blocked_attack_rays(sq, b));
        }
    }
}

#[test]
fn testing_magics() {
    let (table, shift) = test_rook_magic(0, ROOK_MAGICS[0]).expect("valid constant");
    assert_eq!(shift, 52);
    assert_eq!(table.len(), 4096);
    assert_eq!(table[((1u64 << 8).wrapping_mul(ROOK_MAGICS[0]) >> 52) as usize], 0x1fe);
    let (table, shift) = test_bishop_magic(27, BISHOP_MAGICS[27]).expect("valid constant");
    assert_eq!(shift, 55);
    assert!(table[512..].iter().all(|&a| a == 0));
    let (bishops, _) = tables();
    assert_eq!(bishops[27].attack_table.len(), 512);
    assert_eq!(&bishops[27].attack_table[..], &table[..512]);
    assert!(test_rook_magic(0, 0).is_none());
    assert!(test_bishop_magic(27, 0).is_none());
    assert!(generate_rook_table().is_ok());
    assert!(generate_bishop_table().is_ok());
}

#[test]
fn make_move_packs_origin_and_destination() {
    assert_eq!(make_move(12, 28), (28 << 6) | 12);
    assert_eq!(make_move(0, 63), 63 << 6);
}

#[test]
fn play_move_relocates_pieces() {
    let pos = Position { ortho: 1, diag: 0, own: 1 | (1 << 4), other: (1 << 8) | (1 << 60), kings: 4 | (60 << 6) };
    let after = play_move(pos, make_move(0, 8));
    assert_eq!(after, Position { ortho: 1 << 8, diag: 0, own: (1 << 8) | (1 << 4), other: 1 << 60, kings: 4 | (60 << 6) });
    let king = play_move(pos, make_move(4, 12));
    assert_eq!(king.kings, 12 | (60 << 6));
    assert_eq!(king.own, 1 | (1 << 12));
}

#[test]
fn perft_depth_zero_is_one() {
    let (b, r) = tables();
    assert_eq!(perft(sample_position(), 0, &b, &r), 1);
    assert_eq!(perft(Position { ortho: 0, diag: 0, own: 0, other: 0, kings: 0 }, 0, &b, &r), 1);
}

#[test]
fn perft_depth_one_counts_moves() {
    let (b, r) = tables();
    let pos = sample_position();
    assert_eq!(perft(pos, 1, &b, &r), pseudo_legal_moves(pos, &b, &r).len() as u64);
    assert_eq!(perft(pos, 1, &b, &r), 80);
}

#[test]
fn perft_sums_over_children() {
    let (b, r) = tables();
    let pos = sample_position();
    let sum: u64 = pseudo_legal_moves(pos, &b, &r)
        .iter()
        .map(|&m| perft(play_move(pos, m), 1, &b, &r))
        .sum();
    assert_eq!(perft(pos, 2, &b, &r), sum);
    assert_eq!(perft(pos, 2, &b, &r), 6566);
    assert_eq!(perft(pos, 3, &b, &r), 549450);
}

#[test]
fn no_move_captures_the_opposing_king() {
    let (b, r) = tables();
    for seed in 0..20 {
        let pos = random_position(seed);
        let king = (pos.kings >> 6) & 0x3f;
        for m in pseudo_legal_moves(pos, &b, &r) {
            assert_ne!((m >> 6) & 0x3f, king);
        }
    }
}

#[test]
fn play_move_keeps_occupancy_but_for_one_capture() {
    let (b, r) = tables();
    for seed in 0..20 {
        let pos = random_position(seed);
        assert!(pos.is_well_formed());
        for m in pseudo_legal_moves(pos, &b, &r) {
            let dest = (m >> 6) & 0x3f;
            let captured = (pos.other >> dest) & 1;
            let after = play_move(pos, m);
            assert_eq!(popcount(after.own | after.other), popcount(pos.own | pos.other) - captured);
        }
    }
}

#[test]
fn lone_rook_in_the_corner() {
    let (b, r) = tables();
    let pos = Position { ortho: 1, diag: 0, own: 1, other: 1 << 63, kings: 63 | (63 << 6) };
    let moves = pseudo_legal_moves(pos, &b, &r);
    assert_eq!(moves.len(), 14);
    assert!(moves.iter().all(|&m| m & 0x3f == 0));
    assert_eq!(perft(pos, 1, &b, &r), 14);
}

#[test]
fn lone_king_on_e1() {
    let (b, r) = tables();
    let pos = Position { ortho: 0, diag: 0, own: 1 << 4, other: 1 << 60, kings: 4 | (60 << 6) };
    assert_eq!(perft(pos, 1, &b, &r), 5);
    let dests: Vec<u64> = pseudo_legal_moves(pos, &b, &r).iter().map(|m| m >> 6).collect();
    assert_eq!(dests, vec![3, 5, 11, 12, 13]);
}

#[test]
fn kings_are_never_adjacent() {
    let (b, r) = tables();
    let pos = Position { ortho: 0, diag: 0, own: 1 << 4, other: 1 << 20, kings: 4 | (20 << 6) };
    let dests: Vec<u64> = pseudo_legal_moves(pos, &b, &r).iter().map(|m| m >> 6).collect();
    assert_eq!(dests, vec![3, 5]);
}

#[test]
fn sample_placement() {
    let pos = sample_position();
    assert_eq!(pos, Position {
        ortho: 0x8d00000008000089,
        diag: 0x2c0420000010002c,
        own: 0x8002402081000ff,
        other: 0xf704000000000000,
        kings: 0xf04,
    });
    assert!(pos.is_well_formed());
}

#[test]
fn random_positions_are_well_formed() {
    for seed in [0u64, 1, 42, u64::MAX] {
        let pos = random_position(seed);
        assert!(pos.is_well_formed());
        assert_eq!(popcount(pos.own), 14);
        assert_eq!(popcount(pos.other), 8);
        assert_eq!(random_position(seed), pos);
    }
    assert_ne!(random_position(1), random_position(2));
}

#[test]
fn malformed_positions_are_detected() {
    let overlap = Position { ortho: 0, diag: 0, own: 1 << 4, other: (1 << 4) | (1 << 60), kings: 4 | (60 << 6) };
    assert!(!overlap.is_well_formed());
    let stray_rook = Position { ortho: 1, diag: 0, own: 1 << 4, other: 1 << 60, kings: 4 | (60 << 6) };
    assert!(!stray_rook.is_well_formed());
}

#[test]
fn text_rendering() {
    assert_eq!(square_to_string(0), "a1");
    assert_eq!(square_to_string(63), "h8");
    assert_eq!(square_to_string(28), "e4");
    assert_eq!(move_string(make_move(12, 28)), "e2e4");
    let lines = board_string(sample_position());
    assert_eq!(lines, vec![
        "rnqQkbnr", "..b.....", "..N..B..", ".N......", "...R....", "....B...", "........", "RNBQKBNR",
    ]);
}

#[test]
fn move_and_king_accessors() {
    let m = make_move(12, 28);
    assert_eq!(origin_square(m), 12);
    assert_eq!(dest_square(m), 28);
    let pos = sample_position();
    assert_eq!(pos.own_king_square(), 4);
    assert_eq!(pos.other_king_square(), 60);
}

#[test]
fn grading_answers() {
    assert_eq!(grade_answer(Some(549450), 549450), Verdict::Correct);
    assert_eq!(grade_answer(Some(549449), 549450), Verdict::TooLow);
    assert_eq!(grade_answer(Some(-1), 0), Verdict::TooLow);
    assert_eq!(grade_answer(Some(549451), 549450), Verdict::TooHigh);
    assert_eq!(grade_answer(None, 549450), Verdict::NotANumber);
    assert_eq!(grade_answer(Some(i64::MAX), u64::MAX), Verdict::TooLow);
}

#[test]
fn bit_permutations_order_follows_the_index_bits() {
    assert_eq!(bit_permutations(5), vec![0, 1, 4, 5]);
    assert_eq!(bit_permutations(0b1011), vec![0, 1, 2, 3, 8, 9, 10, 11]);
    let mask = rook_unblocked_attack_rays(27);
    let subsets = bit_permutations(mask);
    let digits = bit_positions(mask);
    assert_eq!(subsets[0], 0);
    assert_eq!(*subsets.last().unwrap(), mask);
    for (i, s) in subsets.iter().enumerate() {
        let expected = digits
            .iter()
            .enumerate()
            .filter(|(j, _)| (i >> j) & 1 == 1)
            .fold(0u64, |acc, (_, d)| acc | (1 << d));
        assert_eq!(*s, expected);
    }
}

#[test]
fn lone_rook_with_own_king_on_h2() {
    let (b, r) = tables();
    let pos = Position { ortho: 1, diag: 0, own: 1 | (1 << 15), other: 1 << 63, kings: 15 | (63 << 6) };
    assert!(pos.is_well_formed());
    assert_eq!(perft(pos, 1, &b, &r), 19);
}

#[test]
fn stray_bits_in_the_king_field_are_malformed() {
    let pos = Position { ortho: 0, diag: 0, own: 1 << 4, other: 1 << 60, kings: 4 | (60 << 6) };
    assert!(pos.is_well_formed());
    let stray = Position { kings: pos.kings | (1 << 12), ..pos };
    assert!(!stray.is_well_formed());
}
