//! Positions, moves, the pseudo-legal move generator and the perft counter.

use vstd::prelude::*;
use crate::bits::{
    is_set, members, log2, popcount_spec, lemma_bit_ops, lemma_bits_ext, lemma_count_one_more,
    lemma_count_below_le, lemma_members_from,
    lemma_lowest, lemma_lowest_bit_tricks, lemma_members_pop,
};
use crate::geometry::{
    knight_bb, king_bb, rook_attacks_bb, bishop_attacks_bb, knight_attacks, king_attacks,
};
use crate::magics::{SMagic, tables_wf, sliding_attacks};

verus! {

/// A side-agnostic position. `ortho` holds the rooks and queens of both
/// sides, `diag` the bishops and queens; `own` and `other` hold every piece
/// of the side to move and of its opponent, kings included. The low six bits
/// of `kings` are the own king's square, the next six the opposing king's.
/// A member of `own` or `other` in neither `ortho` nor `diag` and not a king
/// square is a knight.
#[derive(Clone, Copy, Debug, PartialEq, Eq, Structural)]
pub struct Position {
    pub ortho: u64,
    pub diag: u64,
    pub own: u64,
    pub other: u64,
    pub kings: u64,
}

impl Position {
    /// Square of the king of the side to move.
    pub open spec fn own_king(self) -> u64 {
        self.kings & 0x3f
    }

    /// Square of the opposing king.
    pub open spec fn other_king(self) -> u64 {
        (self.kings >> 6) & 0x3f
    }

    /// `kings` holds two 6-bit squares and nothing more, the sides do not
    /// overlap, every rook, bishop and queen belongs to a side, each king
    /// stands on its side's squares, and no king square is also a rook,
    /// bishop or queen square.
    pub open spec fn wf(self) -> bool {
        &&& self.kings < 4096
        &&& self.own & self.other == 0
        &&& (self.ortho | self.diag) & !(self.own | self.other) == 0
        &&& is_set(self.own, self.own_king())
        &&& is_set(self.other, self.other_king())
        &&& !is_set(self.ortho | self.diag, self.own_king())
        &&& !is_set(self.ortho | self.diag, self.other_king())
    }
}

impl Position {
    /// Square of the king of the side to move.
    pub fn own_king_square(&self) -> (r: u64)
        ensures
            r == self.own_king(),
            r < 64,
    {
        let kings = self.kings;
        proof {
            assert(kings & 0x3f < 64) by (bit_vector);
        }
        kings & 0x3f
    }

    /// Square of the opposing king.
    pub fn other_king_square(&self) -> (r: u64)
        ensures
            r == self.other_king(),
            r < 64,
    {
        let kings = self.kings;
        proof {
            assert((kings >> 6) & 0x3f < 64) by (bit_vector);
        }
        (kings >> 6) & 0x3f
    }

    /// Whether the position is well formed (see `wf`).
    pub fn is_well_formed(&self) -> (r: bool)
        ensures
            r == self.wf(),
    {
        let own_king = self.own_king_square();
        let other_king = self.other_king_square();
        let sliders = self.ortho | self.diag;
        self.kings < 4096 && self.own & self.other == 0 && sliders & !(self.own | self.other) == 0 && (self.own
            >> own_king) & 1 == 1 && (self.other >> other_king) & 1 == 1 && (sliders >> own_king)
            & 1 != 1 && (sliders >> other_king) & 1 != 1
    }
}

/// The move from `origin` to `dest`: the origin in the low six bits, the
/// destination in the next six.
pub open spec fn move_of(origin: u64, dest: u64) -> u64 {
    (dest << 6) | origin
}

pub open spec fn move_origin(m: u64) -> u64 {
    m & 0x3f
}

pub open spec fn move_dest(m: u64) -> u64 {
    (m >> 6) & 0x3f
}

/// The origin square of a move.
pub fn origin_square(m: u64) -> (r: u64)
    ensures
        r == move_origin(m),
        r < 64,
{
    proof {
        assert(m & 0x3f < 64) by (bit_vector);
    }
    m & 0x3f
}

/// The destination square of a move.
pub fn dest_square(m: u64) -> (r: u64)
    ensures
        r == move_dest(m),
        r < 64,
{
    proof {
        assert((m >> 6) & 0x3f < 64) by (bit_vector);
    }
    (m >> 6) & 0x3f
}

/// Packs a move.
pub fn make_move(origin: u64, dest: u64) -> (r: u64)
    requires
        origin < 64,
        dest < 64,
    ensures
        r == move_of(origin, dest),
        r == dest * 64 + origin,
        move_origin(r) == origin,
        move_dest(r) == dest,
{
    proof {
        assert(((dest << 6u64) | origin) == dest * 64 + origin && ((dest << 6u64) | origin) & 0x3f
            == origin && (((dest << 6u64) | origin) >> 6u64) & 0x3f == dest) by (bit_vector)
            requires
                origin < 64,
                dest < 64,
        ;
    }
    (dest << 6) | origin
}

/// `bb` with square `from` cleared and square `to` set.
pub open spec fn relocate(bb: u64, from: u64, to: u64) -> u64 {
    (bb & !(1u64 << from)) | (1u64 << to)
}

/// The position after the side to move plays `m`: the moving piece leaves
/// its origin for the destination, whatever stood on the destination is
/// removed, and the piece's own sets (king square, `ortho`, `diag`) follow it.
pub open spec fn play_spec(pos: Position, m: u64) -> Position {
    let o = move_origin(m);
    let d = move_dest(m);
    let own = relocate(pos.own, o, d);
    let other = pos.other & !(1u64 << d);
    let ortho = pos.ortho & !(1u64 << d);
    let diag = pos.diag & !(1u64 << d);
    if o == pos.own_king() {
        Position { ortho, diag, own, other, kings: (pos.other_king() << 6) | d }
    } else if is_set(ortho & diag, o) {
        Position {
            ortho: relocate(ortho, o, d),
            diag: relocate(diag, o, d),
            own,
            other,
            kings: (pos.other_king() << 6) | pos.own_king(),
        }
    } else if is_set(ortho, o) {
        Position {
            ortho: relocate(ortho, o, d),
            diag,
            own,
            other,
            kings: (pos.other_king() << 6) | pos.own_king(),
        }
    } else if is_set(diag, o) {
        Position {
            ortho,
            diag: relocate(diag, o, d),
            own,
            other,
            kings: (pos.other_king() << 6) | pos.own_king(),
        }
    } else {
        Position { ortho, diag, own, other, kings: (pos.other_king() << 6) | pos.own_king() }
    }
}

/// Plays `m` for the side to move.
pub fn play_move(pos: Position, m: u64) -> (r: Position)
    ensures
        r == play_spec(pos, m),
{
    let mut pos = pos;
    let destination = dest_square(m);
    let origin = origin_square(m);
    let mut own_king = pos.own_king_square();
    let other_king = pos.other_king_square();
    pos.own = pos.own & !(1u64 << origin);
    pos.own = pos.own | (1u64 << destination);
    pos.other = pos.other & !(1u64 << destination);
    pos.ortho = pos.ortho & !(1u64 << destination);
    pos.diag = pos.diag & !(1u64 << destination);
    if origin == own_king {
        own_king = destination;
    } else if ((pos.ortho & pos.diag) >> origin) & 1 == 1 {
        pos.ortho = pos.ortho & !(1u64 << origin);
        pos.ortho = pos.ortho | (1u64 << destination);
        pos.diag = pos.diag & !(1u64 << origin);
        pos.diag = pos.diag | (1u64 << destination);
    } else if (pos.ortho >> origin) & 1 == 1 {
        pos.ortho = pos.ortho & !(1u64 << origin);
        pos.ortho = pos.ortho | (1u64 << destination);
    } else if (pos.diag >> origin) & 1 == 1 {
        pos.diag = pos.diag & !(1u64 << origin);
        pos.diag = pos.diag | (1u64 << destination);
    }
    pos.kings = (other_king << 6) | own_king;
    pos
}

/// The moves from `origin` to each member of `targets`, in ascending order
/// of destination.
pub open spec fn moves_to(origin: u64, targets: u64) -> Seq<u64> {
    members(targets).map_values(|d: u64| move_of(origin, d))
}

/// Appends the moves from `origin` to each member of `targets`.
fn push_moves(moves: &mut Vec<u64>, origin: u64, targets: u64)
    requires
        origin < 64,
    ensures
        final(moves)@ == old(moves)@ + moves_to(origin, targets),
{
    let mut bb = targets;
    while bb != 0
        invariant
            origin < 64,
            moves@ + moves_to(origin, bb) == old(moves)@ + moves_to(origin, targets),
        decreases bb,
    {
        proof {
            lemma_lowest_bit_tricks(bb);
            lemma_lowest(bb);
            lemma_members_pop(bb);
        }
        let low = bb & (!bb + 1);
        proof {
            let t = crate::bits::lowest(bb) as u64;
            assert(crate::bits::is_single_bit(1u64 << t)) by (bit_vector)
                requires
                    t < 64,
            ;
        }
        let dest = log2(low);
        proof {
            let t = crate::bits::lowest(bb) as u64;
            assert(dest == t) by (bit_vector)
                requires
                    dest < 64,
                    t < 64,
                    low == 1u64 << dest,
                    low == 1u64 << t,
            ;
        }
        let m = make_move(origin, dest);
        proof {
            let rest = bb & ((bb - 1) as u64);
            assert(moves_to(origin, bb) =~= seq![m] + moves_to(origin, rest));
            assert(moves@.push(m) + moves_to(origin, rest) =~= moves@ + moves_to(origin, bb));
        }
        moves.push(m);
        bb = bb & (bb - 1);
    }
    proof {
        assert(members(0u64) =~= Seq::<u64>::empty()) by {
            crate::bits::lemma_members_from(0u64, 0);
            crate::bits::lemma_count_empty(64);
        }
        assert(moves@ + moves_to(origin, bb) =~= moves@);
    }
}

/// The squares a piece of the side to move may go to: any square but its
/// own pieces and the opposing king.
pub open spec fn open_squares(pos: Position) -> u64 {
    !pos.own & !(1u64 << pos.other_king())
}

/// The own king's destinations: its neighbours, less those next to the
/// opposing king, less the squares it may not go to.
pub open spec fn king_targets(pos: Position) -> u64 {
    king_bb(pos.own_king()) & !king_bb(pos.other_king()) & open_squares(pos)
}

/// A member of `sq` that is in neither `ortho` nor `diag` nor a king square.
pub open spec fn is_knight(pos: Position, sq: u64) -> bool {
    !is_set(pos.ortho, sq) && !is_set(pos.diag, sq) && sq != pos.own_king() && sq
        != pos.other_king()
}

/// The squares attacked by the piece on `sq` (other than a king), with
/// every piece of either side as a blocker.
pub open spec fn piece_reach(pos: Position, sq: u64) -> u64 {
    let occupied = pos.own | pos.other;
    if is_knight(pos, sq) {
        knight_bb(sq)
    } else if is_set(pos.diag, sq) && !is_set(pos.ortho, sq) {
        bishop_attacks_bb(sq, occupied)
    } else if is_set(pos.ortho, sq) && !is_set(pos.diag, sq) {
        rook_attacks_bb(sq, occupied)
    } else if is_set(pos.ortho, sq) && is_set(pos.diag, sq) {
        bishop_attacks_bb(sq, occupied) | rook_attacks_bb(sq, occupied)
    } else {
        0
    }
}

/// The moves of the own pieces on squares below `n`, square by square.
pub open spec fn piece_moves_below(pos: Position, n: nat) -> Seq<u64>
    decreases n,
{
    if n == 0 {
        Seq::empty()
    } else {
        let sq = (n - 1) as u64;
        piece_moves_below(pos, (n - 1) as nat) + if is_set(pos.own, sq) {
            moves_to(sq, piece_reach(pos, sq) & open_squares(pos))
        } else {
            Seq::empty()
        }
    }
}

/// The pseudo-legal moves of the side to move: the king's first, then each
/// own piece's by ascending origin, each by ascending destination.
pub open spec fn pseudo_legal_moves_spec(pos: Position) -> Seq<u64> {
    moves_to(pos.own_king(), king_targets(pos)) + piece_moves_below(pos, 64)
}

/// The pseudo-legal moves of the side to move, with rook and bishop attacks
/// looked up in the magic tables.
pub fn pseudo_legal_moves(pos: Position, bishop_magics: &[SMagic], rook_magics: &[SMagic]) -> (r:
    Vec<u64>)
    requires
        tables_wf(bishop_magics@, false),
        tables_wf(rook_magics@, true),
    ensures
        r@ == pseudo_legal_moves_spec(pos),
{
    let own_king = pos.own_king_square();
    let opposing_king = pos.other_king_square();
    proof {
        lemma_bit_ops();
    }
    let bishop = pos.diag & !pos.ortho;
    let rook = pos.ortho & !pos.diag;
    let queen = pos.diag & pos.ortho;
    let knight = !(pos.ortho | pos.diag | (1u64 << own_king) | (1u64 << opposing_king));
    let blockers = pos.own | pos.other;
    let open = !pos.own & !(1u64 << opposing_king);
    let mut moves: Vec<u64> = Vec::new();
    let king_moves = king_attacks(own_king) & !king_attacks(opposing_king) & open;
    push_moves(&mut moves, own_king, king_moves);
    proof {
        assert(moves@ =~= moves_to(pos.own_king(), king_targets(pos)) + piece_moves_below(pos, 0));
    }
    let mut square: u64 = 0;
    while square < 64
        invariant
            square <= 64,
            tables_wf(bishop_magics@, false),
            tables_wf(rook_magics@, true),
            own_king == pos.own_king(),
            opposing_king == pos.other_king(),
            own_king < 64,
            opposing_king < 64,
            bishop == pos.diag & !pos.ortho,
            rook == pos.ortho & !pos.diag,
            queen == pos.diag & pos.ortho,
            knight == !(pos.ortho | pos.diag | (1u64 << own_king) | (1u64 << opposing_king)),
            blockers == pos.own | pos.other,
            open == open_squares(pos),
            moves@ == moves_to(pos.own_king(), king_targets(pos)) + piece_moves_below(
                pos,
                square as nat,
            ),
        decreases 64 - square,
    {
        proof {
            lemma_bit_ops();
            assert(bishop_magics@[square as int].wf(false, square));
            assert(rook_magics@[square as int].wf(true, square));
        }
        if (pos.own >> square) & 1 == 1 {
            let reach = if (knight >> square) & 1 == 1 {
                knight_attacks(square)
            } else if (bishop >> square) & 1 == 1 {
                sliding_attacks(blockers, &bishop_magics[square as usize], Ghost(false), Ghost(square))
            } else if (rook >> square) & 1 == 1 {
                sliding_attacks(blockers, &rook_magics[square as usize], Ghost(true), Ghost(square))
            } else if (queen >> square) & 1 == 1 {
                sliding_attacks(blockers, &bishop_magics[square as usize], Ghost(false), Ghost(square))
                    | sliding_attacks(blockers, &rook_magics[square as usize], Ghost(true), Ghost(square))
            } else {
                0
            };
            proof {
                assert(is_set(knight, square) == is_knight(pos, square));
                assert(is_set(bishop, square) == (is_set(pos.diag, square) && !is_set(pos.ortho, square)));
                assert(is_set(rook, square) == (is_set(pos.ortho, square) && !is_set(pos.diag, square)));
                assert(is_set(queen, square) == (is_set(pos.ortho, square) && is_set(pos.diag, square)));
                assert(reach == piece_reach(pos, square));
            }
            push_moves(&mut moves, square, reach & open);
        }
        proof {
            assert(moves@ =~= moves_to(pos.own_king(), king_targets(pos)) + piece_moves_below(
                pos,
                (square + 1) as nat,
            ));
        }
        square = square + 1;
    }
    moves
}

/// The number of move sequences of `depth` plies from `pos`.
pub open spec fn perft_count(pos: Position, depth: nat) -> nat
    decreases depth, 0nat,
{
    if depth == 0 {
        1
    } else {
        children_count(pos, pseudo_legal_moves_spec(pos), (depth - 1) as nat)
    }
}

/// The sum of `perft_count(play_spec(pos, m), depth)` over the moves `m` of `ms`.
pub open spec fn children_count(pos: Position, ms: Seq<u64>, depth: nat) -> nat
    decreases depth, ms.len(),
{
    if ms.len() == 0 {
        0
    } else {
        children_count(pos, ms.drop_last(), depth) + perft_count(play_spec(pos, ms.last()), depth)
    }
}

/// The sum of a sequence of naturals.
pub open spec fn sum(s: Seq<nat>) -> nat
    decreases s.len(),
{
    if s.len() == 0 {
        0
    } else {
        sum(s.drop_last()) + s.last()
    }
}

proof fn lemma_children_sum(pos: Position, ms: Seq<u64>, depth: nat)
    ensures
        children_count(pos, ms, depth) == sum(
            ms.map_values(|m: u64| perft_count(play_spec(pos, m), depth)),
        ),
    decreases ms.len(),
{
    if ms.len() > 0 {
        lemma_children_sum(pos, ms.drop_last(), depth);
        let f = |m: u64| perft_count(play_spec(pos, m), depth);
        assert(ms.map_values(f).drop_last() =~= ms.drop_last().map_values(f));
    }
}

proof fn lemma_children_leaves(pos: Position, ms: Seq<u64>)
    ensures
        children_count(pos, ms, 0) == ms.len(),
    decreases ms.len(),
{
    if ms.len() > 0 {
        lemma_children_leaves(pos, ms.drop_last());
        assert(perft_count(play_spec(pos, ms.last()), 0) == 1);
    }
}

proof fn lemma_children_prefix(pos: Position, ms: Seq<u64>, k: int, depth: nat)
    requires
        0 <= k <= ms.len(),
    ensures
        children_count(pos, ms.take(k), depth) <= children_count(pos, ms, depth),
    decreases ms.len(),
{
    if k == ms.len() {
        assert(ms.take(k) =~= ms);
    } else {
        lemma_children_prefix(pos, ms.drop_last(), k, depth);
        assert(ms.drop_last().take(k) =~= ms.take(k));
    }
}

/// Depth zero counts the position itself.
pub proof fn lemma_perft_zero(pos: Position)
    ensures
        perft_count(pos, 0) == 1,
{
}

/// Depth one counts the pseudo-legal moves.
pub proof fn lemma_perft_one(pos: Position)
    ensures
        perft_count(pos, 1) == pseudo_legal_moves_spec(pos).len(),
{
    lemma_children_leaves(pos, pseudo_legal_moves_spec(pos));
}

/// Depth `n` sums depth `n - 1` over the positions after each pseudo-legal move.
pub proof fn lemma_perft_step(pos: Position, n: nat)
    requires
        n >= 1,
    ensures
        perft_count(pos, n) == sum(
            pseudo_legal_moves_spec(pos).map_values(
                |m: u64| perft_count(play_spec(pos, m), (n - 1) as nat),
            ),
        ),
{
    lemma_children_sum(pos, pseudo_legal_moves_spec(pos), (n - 1) as nat);
}

/// The number of move sequences of `depth` plies from `pos`.
pub fn perft(pos: Position, depth: usize, bishop_magics: &[SMagic], rook_magics: &[SMagic]) -> (r:
    u64)
    requires
        tables_wf(bishop_magics@, false),
        tables_wf(rook_magics@, true),
        perft_count(pos, depth as nat) <= u64::MAX,
    ensures
        r == perft_count(pos, depth as nat),
    decreases depth,
{
    if depth == 0 {
        return 1;
    }
    let moves = pseudo_legal_moves(pos, bishop_magics, rook_magics);
    if depth == 1 {
        proof {
            lemma_perft_one(pos);
        }
        return moves.len() as u64;
    }
    let ghost d = (depth - 1) as nat;
    let mut total: u64 = 0;
    let mut i: usize = 0;
    proof {
        assert(moves@.take(0) =~= Seq::<u64>::empty());
    }
    while i < moves.len()
        invariant
            tables_wf(bishop_magics@, false),
            tables_wf(rook_magics@, true),
            depth >= 2,
            d == depth - 1,
            moves@ == pseudo_legal_moves_spec(pos),
            children_count(pos, moves@, d) == perft_count(pos, depth as nat),
            perft_count(pos, depth as nat) <= u64::MAX,
            i <= moves@.len(),
            total == children_count(pos, moves@.take(i as int), d),
        decreases moves@.len() - i,
    {
        proof {
            lemma_children_prefix(pos, moves@, i + 1, d);
            assert(moves@.take(i + 1).drop_last() =~= moves@.take(i as int));
        }
        let child = play_move(pos, moves[i]);
        let c = perft(child, depth - 1, bishop_magics, rook_magics);
        total = total + c;
        i = i + 1;
    }
    proof {
        assert(moves@.take(i as int) =~= moves@);
    }
    total
}

/// Every generated move goes from a square of the side to move (the king's
/// square or a member of `own`) to a square it may go to.
pub proof fn lemma_move_shape(pos: Position, m: u64)
    requires
        pseudo_legal_moves_spec(pos).contains(m),
    ensures
        move_origin(m) < 64,
        move_dest(m) < 64,
        move_origin(m) == pos.own_king() || is_set(pos.own, move_origin(m)),
        is_set(open_squares(pos), move_dest(m)),
{
    let km = moves_to(pos.own_king(), king_targets(pos));
    let pm = piece_moves_below(pos, 64);
    let k = choose|k: int| 0 <= k < pseudo_legal_moves_spec(pos).len() && pseudo_legal_moves_spec(pos)[k] == m;
    lemma_bit_ops();
    let kings = pos.kings;
    assert(kings & 0x3f < 64 && (kings >> 6) & 0x3f < 64) by (bit_vector);
    if k < km.len() {
        assert(km[k] == m);
        lemma_moves_to_shape(pos.own_king(), king_targets(pos), k);
    } else {
        assert(pm[k - km.len()] == m);
        lemma_piece_moves_shape(pos, 64, k - km.len());
    }
}

proof fn lemma_moves_to_shape(origin: u64, targets: u64, k: int)
    requires
        origin < 64,
        0 <= k < moves_to(origin, targets).len(),
    ensures
        move_origin(moves_to(origin, targets)[k]) == origin,
        move_dest(moves_to(origin, targets)[k]) < 64,
        is_set(targets, move_dest(moves_to(origin, targets)[k])),
{
    crate::bits::lemma_members_from(targets, 0);
    let d = members(targets)[k];
    assert(moves_to(origin, targets)[k] == move_of(origin, d));
    assert(((d << 6u64) | origin) & 0x3f == origin && (((d << 6u64) | origin) >> 6u64) & 0x3f == d)
        by (bit_vector)
        requires
            origin < 64,
            d < 64,
    ;
}

proof fn lemma_piece_moves_shape(pos: Position, n: nat, k: int)
    requires
        n <= 64,
        0 <= k < piece_moves_below(pos, n).len(),
    ensures
        move_origin(piece_moves_below(pos, n)[k]) < 64,
        is_set(pos.own, move_origin(piece_moves_below(pos, n)[k])),
        move_dest(piece_moves_below(pos, n)[k]) < 64,
        is_set(open_squares(pos), move_dest(piece_moves_below(pos, n)[k])),
    decreases n,
{
    lemma_bit_ops();
    let prev = piece_moves_below(pos, (n - 1) as nat);
    let sq = (n - 1) as u64;
    if k < prev.len() {
        lemma_piece_moves_shape(pos, (n - 1) as nat, k);
    } else {
        let targets = piece_reach(pos, sq) & open_squares(pos);
        lemma_moves_to_shape(sq, targets, k - prev.len());
    }
}

/// No generated move lands on the opposing king.
pub proof fn lemma_no_king_capture(pos: Position, m: u64)
    requires
        pseudo_legal_moves_spec(pos).contains(m),
    ensures
        move_dest(m) != pos.other_king(),
{
    lemma_move_shape(pos, m);
    lemma_bit_ops();
    let kings = pos.kings;
    assert((kings >> 6) & 0x3f < 64) by (bit_vector);
}

/// Playing a generated move in a well-formed position keeps the number of
/// pieces, less one when the destination held an opposing piece.
pub proof fn lemma_play_move_occupancy(pos: Position, m: u64)
    requires
        pos.wf(),
        pseudo_legal_moves_spec(pos).contains(m),
    ensures
        popcount_spec(play_spec(pos, m).own | play_spec(pos, m).other) == popcount_spec(
            pos.own | pos.other,
        ) - if is_set(pos.other, move_dest(m)) {
            1int
        } else {
            0int
        },
{
    lemma_move_shape(pos, m);
    lemma_bit_ops();
    let o = move_origin(m);
    let d = move_dest(m);
    let before = pos.own | pos.other;
    let next = play_spec(pos, m);
    let after = next.own | next.other;
    let own_other = pos.own & pos.other;
    assert forall|x: u64| x < 64 implies !(is_set(pos.own, x) && is_set(pos.other, x)) by {
        assert(is_set(own_other, x) == is_set(0u64, x));
    }
    assert(is_set(pos.own, o));
    assert(!is_set(pos.own, d));
    // Clearing the origin drops one member.
    let cleared = before & !(1u64 << o);
    assert forall|x: u64| x < 64 && x != o implies is_set(cleared, x) == is_set(before, x) by {}
    lemma_count_one_more(cleared, before, o, 64);
    assert forall|x: u64| x < 64 implies #[trigger] is_set(after, x) == (is_set(cleared, x) || x
        == d) by {}
    if is_set(pos.other, d) {
        lemma_bits_ext(after, cleared);
    } else {
        assert forall|x: u64| x < 64 && x != d implies is_set(cleared, x) == is_set(after, x) by {}
        lemma_count_one_more(cleared, after, d, 64);
    }
}

/// `4160^d`: 4160 = 65 * 64 bounds the moves of any position (64 targets
/// for each of the king and the 64 squares).
pub open spec fn move_bound_pow(d: nat) -> nat
    decreases d,
{
    if d == 0 {
        1
    } else {
        4160 * move_bound_pow((d - 1) as nat)
    }
}

proof fn lemma_moves_to_len(origin: u64, targets: u64)
    ensures
        moves_to(origin, targets).len() <= 64,
{
    lemma_members_from(targets, 0);
    lemma_count_below_le(targets, 64);
}

proof fn lemma_piece_moves_len(pos: Position, n: nat)
    ensures
        piece_moves_below(pos, n).len() <= 64 * n,
    decreases n,
{
    if n > 0 {
        lemma_piece_moves_len(pos, (n - 1) as nat);
        let sq = (n - 1) as u64;
        lemma_moves_to_len(sq, piece_reach(pos, sq) & open_squares(pos));
    }
}

/// No position has more than 4160 pseudo-legal moves.
pub proof fn lemma_moves_len(pos: Position)
    ensures
        pseudo_legal_moves_spec(pos).len() <= 4160,
{
    lemma_moves_to_len(pos.own_king(), king_targets(pos));
    lemma_piece_moves_len(pos, 64);
}

proof fn lemma_perft_bound(pos: Position, d: nat)
    ensures
        perft_count(pos, d) <= move_bound_pow(d),
    decreases d, 0nat,
{
    if d > 0 {
        let ms = pseudo_legal_moves_spec(pos);
        let b = move_bound_pow((d - 1) as nat);
        lemma_children_bound(pos, ms, (d - 1) as nat);
        lemma_moves_len(pos);
        let n = ms.len();
        assert(n * b <= 4160 * b) by (nonlinear_arith)
            requires
                n <= 4160,
        ;
    }
}

proof fn lemma_children_bound(pos: Position, ms: Seq<u64>, d: nat)
    ensures
        children_count(pos, ms, d) <= ms.len() * move_bound_pow(d),
    decreases d, ms.len(),
{
    if ms.len() > 0 {
        lemma_children_bound(pos, ms.drop_last(), d);
        lemma_perft_bound(play_spec(pos, ms.last()), d);
        let n = ms.len();
        let b = move_bound_pow(d);
        assert((n - 1) * b + b == n * b) by (nonlinear_arith);
    }
}

/// Counts to depth five fit in a `u64`, as `perft` asks.
pub proof fn lemma_perft_fits(pos: Position, depth: nat)
    requires
        depth <= 5,
    ensures
        perft_count(pos, depth) <= u64::MAX,
{
    lemma_perft_bound(pos, depth);
    reveal_with_fuel(move_bound_pow, 6);
    assert(move_bound_pow(5) == 1245852572057600000);
    assert(move_bound_pow(depth) <= move_bound_pow(5)) by {
        assert(move_bound_pow(0) <= move_bound_pow(1) <= move_bound_pow(2) <= move_bound_pow(3)
            <= move_bound_pow(4) <= move_bound_pow(5));
    }
}

/// Playing a generated move keeps a position well formed.
pub proof fn lemma_play_move_wf(pos: Position, m: u64)
    requires
        pos.wf(),
        pseudo_legal_moves_spec(pos).contains(m),
    ensures
        play_spec(pos, m).wf(),
{
    lemma_move_shape(pos, m);
    lemma_no_king_capture(pos, m);
    lemma_bit_ops();
    let o = move_origin(m);
    let d = move_dest(m);
    let next = play_spec(pos, m);
    let kings = pos.kings;
    let ok = pos.own_king();
    let ak = pos.other_king();
    assert(ok < 64 && ak < 64) by (bit_vector)
        requires
            ok == kings & 0x3f,
            ak == (kings >> 6) & 0x3f,
    ;
    let nk = if o == ok {
        d
    } else {
        ok
    };
    assert(((ak << 6u64) | nk) & 0x3f == nk && (((ak << 6u64) | nk) >> 6u64) & 0x3f == ak)
        by (bit_vector)
        requires
            nk < 64,
            ak < 64,
    ;
    assert(next.own_king() == nk && next.other_king() == ak);
    assert((ak << 6u64) | nk < 4096) by (bit_vector)
        requires
            nk < 64,
            ak < 64,
    ;
    let own_other = pos.own & pos.other;
    let stray = (pos.ortho | pos.diag) & !(pos.own | pos.other);
    assert forall|x: u64| x < 64 implies !(is_set(pos.own, x) && is_set(pos.other, x)) && (is_set(
        pos.ortho,
        x,
    ) || is_set(pos.diag, x) ==> is_set(pos.own, x) || is_set(pos.other, x)) by {
        assert(is_set(own_other, x) == is_set(0u64, x));
        assert(is_set(stray, x) == is_set(0u64, x));
    }
    assert(is_set(pos.own, o));
    assert(!is_set(pos.own, d));
    assert forall|x: u64| x < 64 implies is_set(next.own & next.other, x) == is_set(0u64, x) by {}
    lemma_bits_ext(next.own & next.other, 0u64);
    assert forall|x: u64| x < 64 implies is_set(
        (next.ortho | next.diag) & !(next.own | next.other),
        x,
    ) == is_set(0u64, x) by {}
    lemma_bits_ext((next.ortho | next.diag) & !(next.own | next.other), 0u64);
}

} // verus!
