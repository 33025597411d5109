//! Puzzle positions: placing a random sample of squares as pieces, and
//! writing positions, squares and moves as text.

use vstd::prelude::*;
use rand::SeedableRng;
use rand::seq::SliceRandom;
use rand_chacha::ChaCha20Rng;
use crate::bits::{is_set, lemma_bit_ops};
use crate::movegen::{Position, move_origin, move_dest, origin_square, dest_square};

verus! {

/// rand_chacha's ChaCha20 generator, carried as an opaque value.
#[verifier::external_type_specification]
#[verifier::external_body]
pub struct ExChaCha20Rng(rand_chacha::ChaCha20Rng);

/// Relies on rand_chacha's `SeedableRng::seed_from_u64`: a generator whose
/// stream depends on the seed alone.
#[verifier::external_body]
fn seeded_rng(seed: u64) -> ChaCha20Rng {
    rand_chacha::ChaChaRng::seed_from_u64(seed)
}

/// Relies on rand's `SliceRandom::choose_multiple`: `min(amount, len)`
/// elements drawn at distinct indices of the slice.
#[verifier::external_body]
fn choose_squares(squares: &[u64], rng: &mut ChaCha20Rng, amount: usize) -> (r: Vec<u64>)
    ensures
        r@.len() == if amount < squares@.len() {
            amount as int
        } else {
            squares@.len() as int
        },
        forall|i: int| 0 <= i < r@.len() ==> squares@.contains(#[trigger] r@[i]),
        squares@.no_duplicates() ==> r@.no_duplicates(),
{
    squares.choose_multiple(rng, amount).copied().collect()
}

/// Relies on `String::push`: appends one character.
#[verifier::external_body]
fn push_char(s: &mut String, c: char)
    ensures
        final(s)@ == old(s)@.push(c),
{
    s.push(c)
}

/// The bitboard of the squares `sample[i]` for the indices `i < n` of the
/// sample on which `p` holds.
pub open spec fn placed(sample: Seq<u64>, n: int, p: spec_fn(int) -> bool) -> u64
    decreases n,
{
    if n <= 0 {
        0u64
    } else if n - 1 < sample.len() && p(n - 1) {
        placed(sample, n - 1, p) | (1u64 << sample[n - 1])
    } else {
        placed(sample, n - 1, p)
    }
}

proof fn lemma_placed(sample: Seq<u64>, n: int, p: spec_fn(int) -> bool)
    requires
        forall|i: int| 0 <= i < sample.len() ==> #[trigger] sample[i] < 64,
    ensures
        forall|x: u64|
            x < 64 ==> #[trigger] is_set(placed(sample, n, p), x) == exists|i: int|
                0 <= i < n && i < sample.len() && p(i) && sample[i] == x,
    decreases n,
{
    lemma_bit_ops();
    if n > 0 {
        lemma_placed(sample, n - 1, p);
        assert forall|x: u64| x < 64 implies #[trigger] is_set(placed(sample, n, p), x) == exists|
            i: int,
        | 0 <= i < n && i < sample.len() && p(i) && sample[i] == x by {
            if is_set(placed(sample, n, p), x) && !is_set(placed(sample, n - 1, p), x) {
                assert(sample[n - 1] == x);
            }
            if exists|i: int| 0 <= i < n && i < sample.len() && p(i) && sample[i] == x {
                let i = choose|i: int| 0 <= i < n && i < sample.len() && p(i) && sample[i] == x;
                if i < n - 1 {
                    assert(is_set(placed(sample, n - 1, p), x));
                }
            }
        }
    }
}

/// Sample indices of the pieces of the side to move: its king (index 0),
/// queens (1, 2), rooks (3 to 5), bishops (6 to 9) and knights (10 to 13).
pub open spec fn own_index(i: int) -> bool {
    0 <= i < 14
}

/// Sample indices of the opponent's pieces: its king (14), queen (15),
/// rooks (16, 17), bishops (18, 19) and knights (20, 21).
pub open spec fn other_index(i: int) -> bool {
    14 <= i < 22
}

/// Sample indices of the queens and rooks.
pub open spec fn ortho_index(i: int) -> bool {
    (1 <= i <= 5) || (15 <= i <= 17)
}

/// Sample indices of the queens and bishops.
pub open spec fn diag_index(i: int) -> bool {
    (1 <= i <= 2) || (6 <= i <= 9) || i == 15 || (18 <= i <= 19)
}

/// The position whose pieces stand on the squares of `sample`, by index as
/// `own_index`, `other_index`, `ortho_index` and `diag_index` say, with the
/// kings on `sample[0]` and `sample[14]`. Squares past the 22nd are ignored.
pub open spec fn sample_position(sample: Seq<u64>) -> Position {
    Position {
        ortho: placed(sample, sample.len() as int, |i: int| ortho_index(i)),
        diag: placed(sample, sample.len() as int, |i: int| diag_index(i)),
        own: placed(sample, sample.len() as int, |i: int| own_index(i)),
        other: placed(sample, sample.len() as int, |i: int| other_index(i)),
        kings: placed_king(sample, 0) | (placed_king(sample, 14) << 6),
    }
}

/// `sample[i]`, or square 0 past the end of the sample.
pub open spec fn placed_king(sample: Seq<u64>, i: int) -> u64 {
    if i < sample.len() {
        sample[i]
    } else {
        0
    }
}

/// Places the pieces of a puzzle position on the squares of `sample`.
pub fn position_from_sample(sample: &[u64]) -> (r: Position)
    requires
        forall|i: int| 0 <= i < sample@.len() ==> #[trigger] sample@[i] < 64,
    ensures
        r == sample_position(sample@),
        sample@.len() >= 22 && sample@.no_duplicates() ==> r.wf(),
{
    let mut pos = Position { ortho: 0, diag: 0, own: 0, other: 0, kings: 0 };
    let ghost s = sample@;
    let mut i: usize = 0;
    assert(0u64 | (0u64 << 6u64) == 0u64) by (bit_vector);
    while i < sample.len()
        invariant
            s == sample@,
            forall|k: int| 0 <= k < s.len() ==> #[trigger] s[k] < 64,
            i <= s.len(),
            pos.ortho == placed(s, i as int, |k: int| ortho_index(k)),
            pos.diag == placed(s, i as int, |k: int| diag_index(k)),
            pos.own == placed(s, i as int, |k: int| own_index(k)),
            pos.other == placed(s, i as int, |k: int| other_index(k)),
            pos.kings == (if i > 0 {
                s[0]
            } else {
                0u64
            }) | ((if i > 14 {
                s[14]
            } else {
                0u64
            }) << 6),
        decreases s.len() - i,
    {
        let square = sample[i];
        let bit = 1u64 << square;
        if i < 14 {
            pos.own = pos.own | bit;
            if i == 0 {
                pos.kings = pos.kings | square;
            } else if i <= 2 {
                pos.ortho = pos.ortho | bit;
                pos.diag = pos.diag | bit;
            } else if i <= 5 {
                pos.ortho = pos.ortho | bit;
            } else if i <= 9 {
                pos.diag = pos.diag | bit;
            }
        } else if i < 22 {
            pos.other = pos.other | bit;
            if i == 14 {
                pos.kings = pos.kings | (square << 6);
            } else if i == 15 {
                pos.ortho = pos.ortho | bit;
                pos.diag = pos.diag | bit;
            } else if i <= 17 {
                pos.ortho = pos.ortho | bit;
            } else if i <= 19 {
                pos.diag = pos.diag | bit;
            }
        }
        proof {
            let k = pos.kings;
            assert(0u64 | 0u64 == 0u64 && (0u64 << 6u64) == 0u64 && (k | 0u64) == k) by (bit_vector);
            assert((0u64 | square) | (0u64 << 6u64) == square) by (bit_vector);
            if i == 14 {
                let k0 = s[0];
                assert((k0 | (0u64 << 6u64)) | (square << 6u64) == k0 | (square << 6u64)) by (bit_vector);
            }
        }
        i = i + 1;
    }
    proof {
        if s.len() >= 22 && s.no_duplicates() {
            lemma_sample_wf(s);
        }
    }
    pos
}

proof fn lemma_sample_wf(s: Seq<u64>)
    requires
        s.len() >= 22,
        s.no_duplicates(),
        forall|i: int| 0 <= i < s.len() ==> #[trigger] s[i] < 64,
    ensures
        sample_position(s).wf(),
{
    let pos = sample_position(s);
    lemma_bit_ops();
    let n = s.len() as int;
    lemma_placed(s, n, |i: int| own_index(i));
    lemma_placed(s, n, |i: int| other_index(i));
    lemma_placed(s, n, |i: int| ortho_index(i));
    lemma_placed(s, n, |i: int| diag_index(i));
    let k0 = s[0];
    let k14 = s[14];
    assert((k0 | (k14 << 6u64)) & 0x3f == k0 && ((k0 | (k14 << 6u64)) >> 6u64) & 0x3f == k14)
        by (bit_vector)
        requires
            k0 < 64,
            k14 < 64,
    ;
    assert((k0 | (k14 << 6u64)) < 4096) by (bit_vector)
        requires
            k0 < 64,
            k14 < 64,
    ;
    assert(pos.own_king() == k0);
    assert(pos.other_king() == k14);
    assert forall|x: u64| x < 64 implies is_set(pos.own & pos.other, x) == is_set(0u64, x) by {
        if is_set(pos.own, x) && is_set(pos.other, x) {
            let i = choose|i: int| 0 <= i < n && i < s.len() && own_index(i) && s[i] == x;
            let j = choose|j: int| 0 <= j < n && j < s.len() && other_index(j) && s[j] == x;
            assert(s[i] == s[j]);
        }
    }
    crate::bits::lemma_bits_ext(pos.own & pos.other, 0u64);
    assert forall|x: u64| x < 64 implies is_set((pos.ortho | pos.diag) & !(pos.own | pos.other), x)
        == is_set(0u64, x) by {
        if is_set(pos.ortho, x) {
            let i = choose|i: int| 0 <= i < n && i < s.len() && ortho_index(i) && s[i] == x;
            if own_index(i) {
                assert(is_set(pos.own, x));
            } else {
                assert(is_set(pos.other, x));
            }
        }
        if is_set(pos.diag, x) {
            let i = choose|i: int| 0 <= i < n && i < s.len() && diag_index(i) && s[i] == x;
            if own_index(i) {
                assert(is_set(pos.own, x));
            } else {
                assert(is_set(pos.other, x));
            }
        }
    }
    crate::bits::lemma_bits_ext((pos.ortho | pos.diag) & !(pos.own | pos.other), 0u64);
    assert(is_set(pos.own, k0)) by {
        assert(s[0] == k0);
    }
    assert(is_set(pos.other, k14)) by {
        assert(s[14] == k14);
    }
    assert(!is_set(pos.ortho | pos.diag, k0) && !is_set(pos.ortho | pos.diag, k14)) by {
        assert forall|i: int| 0 <= i < 22 && i != 0 implies s[i] != k0 by {
            assert(s[0] == k0);
        }
        assert forall|i: int| 0 <= i < 22 && i != 14 implies s[i] != k14 by {
            assert(s[14] == k14);
        }
    }
}

/// A puzzle position drawn from `seed`: 22 distinct squares chosen at random
/// and placed as `position_from_sample` does.
pub fn random_position(seed: u64) -> (r: Position)
    ensures
        r.wf(),
        exists|s: Seq<u64>|
            s.len() == 22 && s.no_duplicates() && (forall|i: int| 0 <= i < 22 ==> #[trigger] s[i]
                < 64) && r == sample_position(s),
{
    let mut squares: Vec<u64> = Vec::new();
    let mut sq: u64 = 0;
    while sq < 64
        invariant
            sq <= 64,
            squares@.len() == sq,
            forall|i: int| 0 <= i < sq ==> #[trigger] squares@[i] == i,
        decreases 64 - sq,
    {
        squares.push(sq);
        sq = sq + 1;
    }
    let mut rng = seeded_rng(seed);
    let sample = choose_squares(squares.as_slice(), &mut rng, 22);
    proof {
        assert forall|i: int, j: int|
            0 <= i < squares@.len() && 0 <= j < squares@.len() && i != j implies squares@[i]
            != squares@[j] by {}
        assert forall|i: int| 0 <= i < sample@.len() implies #[trigger] sample@[i] < 64 by {
            assert(squares@.contains(sample@[i]));
        }
    }
    position_from_sample(sample.as_slice())
}

/// File letters, a-file first.
pub const FILE_LETTERS: [char; 8] = ['a', 'b', 'c', 'd', 'e', 'f', 'g', 'h'];

/// Rank digits, first rank first.
pub const RANK_DIGITS: [char; 8] = ['1', '2', '3', '4', '5', '6', '7', '8'];

/// A square's name, file letter then rank digit (square 0 is "a1"); only the
/// low six bits of `sq` are read.
pub open spec fn square_text(sq: u64) -> Seq<char> {
    seq![FILE_LETTERS@[(sq % 8) as int], RANK_DIGITS@[((sq / 8) % 8) as int]]
}

/// The name of square `sq`.
pub fn square_to_string(sq: u64) -> (r: String)
    ensures
        r@ == square_text(sq),
{
    let mut text = String::new();
    push_char(&mut text, FILE_LETTERS[(sq % 8) as usize]);
    push_char(&mut text, RANK_DIGITS[((sq / 8) % 8) as usize]);
    proof {
        assert(text@ =~= square_text(sq));
    }
    text
}

/// A move written as its origin's name followed by its destination's.
pub fn move_string(mv: u64) -> (r: String)
    ensures
        r@ == square_text(move_origin(mv)) + square_text(move_dest(mv)),
{
    let o = origin_square(mv);
    let d = dest_square(mv);
    let mut text = String::new();
    push_char(&mut text, FILE_LETTERS[(o % 8) as usize]);
    push_char(&mut text, RANK_DIGITS[((o / 8) % 8) as usize]);
    push_char(&mut text, FILE_LETTERS[(d % 8) as usize]);
    push_char(&mut text, RANK_DIGITS[((d / 8) % 8) as usize]);
    proof {
        assert(text@ =~= square_text(move_origin(mv)) + square_text(move_dest(mv)));
    }
    text
}

/// The character of square `sq`: upper case for the side to move, lower
/// case for the opponent, `Q`, `R`, `B`, `K`, `N` by piece, `.` when empty.
pub open spec fn piece_char(pos: Position, sq: u64) -> char {
    let queen = is_set(pos.ortho & pos.diag, sq);
    let rook = is_set(pos.ortho, sq);
    let bishop = is_set(pos.diag, sq);
    if is_set(pos.own, sq) {
        if queen {
            'Q'
        } else if rook {
            'R'
        } else if bishop {
            'B'
        } else if pos.own_king() == sq {
            'K'
        } else {
            'N'
        }
    } else if is_set(pos.other, sq) {
        if queen {
            'q'
        } else if rook {
            'r'
        } else if bishop {
            'b'
        } else if pos.other_king() == sq {
            'k'
        } else {
            'n'
        }
    } else {
        '.'
    }
}

/// The characters of one rank, from the a-file to the h-file.
pub open spec fn rank_text(pos: Position, rank: int) -> Seq<char> {
    Seq::new(8, |f: int| piece_char(pos, (rank * 8 + f) as u64))
}

fn square_char(pos: &Position, sq: u64) -> (c: char)
    requires
        sq < 64,
    ensures
        c == piece_char(*pos, sq),
{
    if (pos.own >> sq) & 1 == 1 {
        if ((pos.ortho & pos.diag) >> sq) & 1 == 1 {
            'Q'
        } else if (pos.ortho >> sq) & 1 == 1 {
            'R'
        } else if (pos.diag >> sq) & 1 == 1 {
            'B'
        } else if pos.own_king_square() == sq {
            'K'
        } else {
            'N'
        }
    } else if (pos.other >> sq) & 1 == 1 {
        if ((pos.ortho & pos.diag) >> sq) & 1 == 1 {
            'q'
        } else if (pos.ortho >> sq) & 1 == 1 {
            'r'
        } else if (pos.diag >> sq) & 1 == 1 {
            'b'
        } else if pos.other_king_square() == sq {
            'k'
        } else {
            'n'
        }
    } else {
        '.'
    }
}

/// The board as eight lines of eight characters, the eighth rank first.
pub fn board_string(pos: Position) -> (r: Vec<String>)
    ensures
        r@.len() == 8,
        forall|i: int| 0 <= i < 8 ==> (#[trigger] r@[i])@ == rank_text(pos, 7 - i),
{
    let mut lines: Vec<String> = Vec::new();
    let mut row: u64 = 0;
    while row < 8
        invariant
            row <= 8,
            lines@.len() == row,
            forall|i: int| 0 <= i < row ==> (#[trigger] lines@[i])@ == rank_text(pos, 7 - i),
        decreases 8 - row,
    {
        let rank = 7 - row;
        let mut line = String::new();
        let mut f: u64 = 0;
        while f < 8
            invariant
                f <= 8,
                rank < 8,
                line@ == rank_text(pos, rank as int).take(f as int),
            decreases 8 - f,
        {
            let c = square_char(&pos, rank * 8 + f);
            proof {
                assert(rank_text(pos, rank as int).take(f + 1) =~= line@.push(c));
            }
            push_char(&mut line, c);
            f = f + 1;
        }
        proof {
            assert(rank_text(pos, rank as int).take(8) =~= rank_text(pos, rank as int));
        }
        lines.push(line);
        row = row + 1;
    }
    lines
}

/// How an answer to a puzzle compares with the count it is checked against.
#[derive(Clone, Copy, Debug, PartialEq, Eq, Structural)]
pub enum Verdict {
    /// The answer is the count.
    Correct,
    /// The answer is below the count.
    TooLow,
    /// The answer is above the count.
    TooHigh,
    /// The answer is not an integer.
    NotANumber,
}

/// Compares an answer, `None` when it did not read as an integer, with the
/// expected count.
pub fn grade_answer(answer: Option<i64>, solution: u64) -> (r: Verdict)
    ensures
        answer is None ==> r == Verdict::NotANumber,
        answer matches Some(v) ==> (r == Verdict::Correct <==> v == solution) && (r
            == Verdict::TooLow <==> v < solution) && (r == Verdict::TooHigh <==> v > solution),
{
    match answer {
        None => Verdict::NotANumber,
        Some(v) => {
            if v < 0 || (v as u64) < solution {
                Verdict::TooLow
            } else if (v as u64) > solution {
                Verdict::TooHigh
            } else {
                Verdict::Correct
            }
        },
    }
}

} // verus!
