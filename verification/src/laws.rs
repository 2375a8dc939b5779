//! The library's stated laws, as proved lemmas: bounds on step attacks,
//! monotony of sliding attacks under blockers, the lance lookup round trip,
//! and what the legality filter guarantees of every generated move.

use vstd::prelude::*;

use crate::attacks::in_board;
use crate::attacks::ray;
use crate::attacks::rays_upto;
use crate::attacks::sliding_spec;
use crate::attacks::sq_of;
use crate::attacks::step_delta_ok;
use crate::attacks::step_target;
use crate::between::absi;
use crate::between::between_pred;
use crate::bitboard::Bitboard;
use crate::bitboard::bb_and;
use crate::bitboard::lemma_bb_and_has;
use crate::bitboard::lemma_bb_ext;
use crate::movegen::all_moves;
use crate::movegen::double_check;
use crate::movegen::emit_tos;
use crate::movegen::evasion_moves;
use crate::movegen::in_check_pred;
use crate::movegen::keep_pred;
use crate::movegen::legal_moves;
use crate::movegen::mv_filter;
use crate::position::Position;
use crate::tables::lance_mask;
use crate::tables::mask_set;
use crate::types::Color;
use crate::types::PieceType;
use crate::types::file_of;
use crate::types::opp;
use crate::types::rank_of;

verus! {

/// A step piece reaches only squares at most one file and two ranks away,
/// and never its own square.
pub proof fn lemma_step_attack_bounds(ds: Seq<(i8, i8)>, s: int)
    requires
        0 <= s < 81,
        forall|i: int| 0 <= i < ds.len() ==> step_delta_ok(ds[i]),
    ensures
        forall|t: int|
            step_target(ds, s, t) ==> (absi(file_of(t) - file_of(s)) <= 1 && absi(
                rank_of(t) - rank_of(s),
            ) <= 2 && t != s),
{
    assert forall|t: int| step_target(ds, s, t) implies (absi(file_of(t) - file_of(s)) <= 1
        && absi(rank_of(t) - rank_of(s)) <= 2 && t != s) by {
        let i = choose|i: int|
            0 <= i < ds.len() && in_board(file_of(s) + ds[i].0, rank_of(s) + ds[i].1) && t == sq_of(
                file_of(s) + ds[i].0,
                rank_of(s) + ds[i].1,
            );
        let nf = file_of(s) + ds[i].0;
        let nr = rank_of(s) + ds[i].1;
        assert(file_of(sq_of(nf, nr)) == nf && rank_of(sq_of(nf, nr)) == nr) by (nonlinear_arith)
            requires 0 <= nf < 9, 0 <= nr < 9;
        assert(s == 9 * (s / 9) + s % 9) by (nonlinear_arith);
    }
}

/// More blockers never lengthen a ray.
pub proof fn lemma_ray_monotone(
    f: int,
    r: int,
    df: int,
    dr: int,
    occ1: Set<int>,
    occ2: Set<int>,
    fuel: nat,
)
    requires
        occ1.subset_of(occ2),
    ensures
        ray(f, r, df, dr, occ2, fuel).subset_of(ray(f, r, df, dr, occ1, fuel)),
    decreases fuel,
{
    if fuel > 0 {
        let nf = f + df;
        let nr = r + dr;
        if in_board(nf, nr) {
            lemma_ray_monotone(nf, nr, df, dr, occ1, occ2, (fuel - 1) as nat);
        }
    }
}

/// More blockers never enlarge a sliding attack set, and every attack set
/// under any occupancy lies within the empty-board attacks.
pub proof fn lemma_sliding_monotone(s: int, occ1: Set<int>, occ2: Set<int>, ds: Seq<(i8, i8)>, n: int)
    requires
        occ1.subset_of(occ2),
    ensures
        rays_upto(s, occ2, ds, n).subset_of(rays_upto(s, occ1, ds, n)),
    decreases n,
{
    if n > 0 {
        lemma_sliding_monotone(s, occ1, occ2, ds, n - 1);
        lemma_ray_monotone(file_of(s), rank_of(s), ds[n - 1].0 as int, ds[n - 1].1 as int, occ1, occ2, 9);
    }
}

/// A slider's attacks under any occupancy lie within its empty-board attacks,
/// and adding blockers never enlarges them: the two masked attack sets of a
/// square relate as their occupancies do, in reverse.
pub proof fn lemma_masked_attacks_monotone(q: int, occ1: Set<int>, occ2: Set<int>, ds: Seq<(i8, i8)>)
    requires
        occ1.subset_of(occ2),
    ensures
        sliding_spec(q, occ2.intersect(mask_set(q, ds)), ds).subset_of(
            sliding_spec(q, occ1.intersect(mask_set(q, ds)), ds),
        ),
        sliding_spec(q, occ2.intersect(mask_set(q, ds)), ds).subset_of(
            sliding_spec(q, Set::empty(), ds),
        ),
{
    assert(occ1.intersect(mask_set(q, ds)).subset_of(occ2.intersect(mask_set(q, ds))));
    lemma_sliding_monotone(
        q,
        occ1.intersect(mask_set(q, ds)),
        occ2.intersect(mask_set(q, ds)),
        ds,
        ds.len() as int,
    );
    assert(Set::<int>::empty().subset_of(occ2.intersect(mask_set(q, ds))));
    lemma_sliding_monotone(
        q,
        Set::empty(),
        occ2.intersect(mask_set(q, ds)),
        ds,
        ds.len() as int,
    );
}

/// The lance lookup round trip: masking an occupancy that already lies within
/// the lance mask of its square changes nothing, so the table lookup yields
/// the sliding attacks of that occupancy itself.
pub proof fn lemma_lance_roundtrip(u: Bitboard, s: int)
    requires
        u.wf(),
        0 <= s < 81,
        forall|t: int| u.has(t) ==> lance_mask(file_of(s)).has(t),
    ensures
        bb_and(u, lance_mask(file_of(s))) == u,
{
    let m = lance_mask(file_of(s));
    let f = file_of(s);
    assert(0 <= f <= 8);
    if f <= 6 {
        let off = (9 * f + 1) as u64;
        assert((0x7fu64 << off) >> 63u64 == 0 && 0u64 >> 18u64 == 0) by (bit_vector)
            requires off <= 55;
    } else if f == 7 {
        assert(0u64 >> 63u64 == 0 && (0x7fu64 << 1u64) >> 18u64 == 0) by (bit_vector);
    } else {
        assert(0u64 >> 63u64 == 0 && (0x7fu64 << 10u64) >> 18u64 == 0) by (bit_vector);
    }
    lemma_bb_and_has(u, m);
    let ul = u.lo;
    let uh = u.hi;
    let ml = m.lo;
    let mh = m.hi;
    assert((ul & ml) >> 63u64 == 0 && (uh & mh) >> 18u64 == 0) by (bit_vector)
        requires ul >> 63u64 == 0, uh >> 18u64 == 0;
    lemma_bb_ext(bb_and(u, m), u);
}

/// Every element the filter keeps comes from the base sequence and satisfies
/// the filter's predicate.
pub proof fn lemma_filter_sound(pos: Position, ms: Seq<crate::types::Move>)
    ensures
        forall|i: int|
            0 <= i < mv_filter(pos, ms).len() ==> keep_pred(pos, #[trigger] mv_filter(pos, ms)[i]),
        forall|i: int|
            0 <= i < mv_filter(pos, ms).len() ==> exists|j: int|
                0 <= j < ms.len() && ms[j] == #[trigger] mv_filter(pos, ms)[i],
    decreases ms.len(),
{
    if ms.len() > 0 {
        lemma_filter_sound(pos, ms.drop_last());
        let pre = mv_filter(pos, ms.drop_last());
        let cur = mv_filter(pos, ms);
        assert forall|i: int| 0 <= i < cur.len() implies (keep_pred(pos, cur[i]) && exists|j: int|
            0 <= j < ms.len() && ms[j] == cur[i]) by {
            if i < pre.len() {
                assert(cur[i] == pre[i]);
                let j = choose|j: int| 0 <= j < ms.drop_last().len() && ms.drop_last()[j] == pre[i];
                assert(ms[j] == cur[i]);
            } else {
                assert(keep_pred(pos, ms.last()));
                assert(cur[i] == ms.last());
                assert(ms[ms.len() - 1] == cur[i]);
            }
        }
    }
}

/// Every legal move survives the safety filter: a king move lands on a square
/// the opponent does not attack, and a pinned piece stays on its pin line.
pub proof fn lemma_legal_moves_safe(pos: Position, i: int)
    requires
        0 <= i < legal_moves(pos).len(),
    ensures
        keep_pred(pos, legal_moves(pos)[i]),
{
    if in_check_pred(pos) {
        lemma_filter_sound(pos, evasion_moves(pos));
    } else {
        lemma_filter_sound(pos, all_moves(pos));
    }
}

/// A king move among the legal moves goes to a square no enemy piece attacks.
pub proof fn lemma_legal_king_move_safe(pos: Position, i: int)
    requires
        0 <= i < legal_moves(pos).len(),
        pos.piece_at(legal_moves(pos)[i].from.idx()) matches Option::Some(p) && p.piece_type
            == PieceType::OU,
    ensures
        forall|s: int| !pos.attacks_to_pred(opp(pos.side), legal_moves(pos)[i].to.idx(), s),
{
    lemma_legal_moves_safe(pos, i);
}

/// A legal move of a pinned piece keeps the piece on the open line between
/// its king and the pinning slider.
pub proof fn lemma_legal_pinned_stays(pos: Position, i: int)
    requires
        0 <= i < legal_moves(pos).len(),
        pos.pinned_pred(legal_moves(pos)[i].from.idx()),
        pos.piece_at(legal_moves(pos)[i].from.idx()) matches Option::Some(p) && p.piece_type
            != PieceType::OU,
    ensures
        between_pred(
            pos.spec_king(pos.side),
            legal_moves(pos)[i].from.idx(),
            legal_moves(pos)[i].to.idx(),
        ) || between_pred(
            pos.spec_king(pos.side),
            legal_moves(pos)[i].to.idx(),
            legal_moves(pos)[i].from.idx(),
        ),
{
    lemma_legal_moves_safe(pos, i);
}

/// There is a lowest square among those below `n` holding a king of `c`.
proof fn lemma_king_minimal(pos: Position, c: Color, n: int)
    requires
        exists|s: int| 0 <= s < n && pos.is_cp(s, c, PieceType::OU),
        n <= 81,
    ensures
        exists|s: int|
            pos.is_cp(s, c, PieceType::OU) && (forall|t: int|
                0 <= t < s ==> !pos.is_cp(t, c, PieceType::OU)),
    decreases n,
{
    if n > 0 {
        if exists|s: int| 0 <= s < n - 1 && pos.is_cp(s, c, PieceType::OU) {
            lemma_king_minimal(pos, c, n - 1);
        } else {
            assert(pos.is_cp(n - 1, c, PieceType::OU) && (forall|t: int|
                0 <= t < n - 1 ==> !pos.is_cp(t, c, PieceType::OU)));
        }
    }
}

/// The side to move's king square holds its king.
pub proof fn lemma_king_on_king_square(pos: Position, c: Color)
    requires
        pos.has_king(c),
    ensures
        pos.is_cp(pos.spec_king(c), c, PieceType::OU),
{
    let w = choose|s: int| pos.is_cp(s, c, PieceType::OU);
    assert(0 <= w < 81);
    lemma_king_minimal(pos, c, 81);
    let s0 = choose|s: int|
        pos.is_cp(s, c, PieceType::OU) && (forall|t: int|
            0 <= t < s ==> !pos.is_cp(t, c, PieceType::OU));
    assert(pos.is_cp(s0, c, PieceType::OU) && (forall|t: int|
        0 <= t < s0 ==> !pos.is_cp(t, c, PieceType::OU)));
}

proof fn lemma_emit_piece(pos: Position, pt: PieceType, from: int, target: Set<int>, m: int)
    ensures
        forall|i: int|
            0 <= i < emit_tos(pos, pt, from, target, m).len() ==> (#[trigger] emit_tos(
                pos,
                pt,
                from,
                target,
                m,
            )[i]).piece == crate::movegen::piece_val(pos, from),
    decreases m,
{
    if m > 0 {
        lemma_emit_piece(pos, pt, from, target, m - 1);
        let pre = emit_tos(pos, pt, from, target, m - 1);
        let cur = emit_tos(pos, pt, from, target, m);
        assert forall|i: int| 0 <= i < cur.len() implies cur[i].piece == crate::movegen::piece_val(
            pos,
            from,
        ) by {
            if i < pre.len() {
                assert(cur[i] == pre[i]);
            }
        }
    }
}

/// Under a double check every legal move is a king move.
pub proof fn lemma_double_check_only_king(pos: Position, i: int)
    requires
        pos.has_king(pos.side),
        in_check_pred(pos),
        double_check(pos),
        0 <= i < legal_moves(pos).len(),
    ensures
        legal_moves(pos)[i].piece.piece_type == PieceType::OU,
{
    let k = pos.spec_king(pos.side);
    let king_part = emit_tos(pos, PieceType::OU, k, crate::movegen::king_target(pos), 81);
    assert(evasion_moves(pos) == king_part);
    lemma_filter_sound(pos, king_part);
    let m = legal_moves(pos)[i];
    let j = choose|j: int| 0 <= j < king_part.len() && king_part[j] == m;
    lemma_emit_piece(pos, PieceType::OU, k, crate::movegen::king_target(pos), 81);
    lemma_king_on_king_square(pos, pos.side);
    assert(m.piece == crate::movegen::piece_val(pos, k));
}

} // verus!
