//! Board geometry: step deltas, step attacks, and sliding rays.
//!
//! A delta is a `(file, rank)` offset. North (toward rank 0) is `(0, -1)`,
//! east (toward file 0) is `(-1, 0)`.

use vstd::prelude::*;

use crate::bitboard::Bitboard;
use crate::types::Color;
use crate::types::Square;
use crate::types::file_of;
use crate::types::rank_of;

verus! {

pub open spec fn in_board(f: int, r: int) -> bool {
    0 <= f < 9 && 0 <= r < 9
}

pub open spec fn sq_of(f: int, r: int) -> int {
    f * 9 + r
}

/// A one-step delta: at most one file and two ranks away, and not zero.
pub open spec fn step_delta_ok(d: (i8, i8)) -> bool {
    -1 <= d.0 <= 1 && -2 <= d.1 <= 2 && !(d.0 == 0 && d.1 == 0)
}

/// A sliding delta: a unit step in one of the eight directions.
pub open spec fn slide_delta_ok(d: (i8, i8)) -> bool {
    -1 <= d.0 <= 1 && -1 <= d.1 <= 1 && !(d.0 == 0 && d.1 == 0)
}

/// Square `t` is reached from `s` by one of the deltas without leaving the
/// board.
pub open spec fn step_target(ds: Seq<(i8, i8)>, s: int, t: int) -> bool {
    exists|i: int|
        0 <= i < ds.len() && in_board(file_of(s) + ds[i].0, rank_of(s) + ds[i].1) && t == sq_of(
            file_of(s) + ds[i].0,
            rank_of(s) + ds[i].1,
        )
}

/// The squares a slider reaches from `(f, r)` going one direction: each empty
/// square in turn, and the first occupied one, where it stops.
pub open spec fn ray(f: int, r: int, df: int, dr: int, occ: Set<int>, fuel: nat) -> Set<int>
    decreases fuel,
{
    if fuel == 0 {
        Set::empty()
    } else {
        let nf = f + df;
        let nr = r + dr;
        if !in_board(nf, nr) {
            Set::empty()
        } else if occ.contains(sq_of(nf, nr)) {
            Set::<int>::empty().insert(sq_of(nf, nr))
        } else {
            ray(nf, nr, df, dr, occ, (fuel - 1) as nat).insert(sq_of(nf, nr))
        }
    }
}

/// Union of the rays of the first `n` deltas.
pub open spec fn rays_upto(s: int, occ: Set<int>, ds: Seq<(i8, i8)>, n: int) -> Set<int>
    decreases n,
{
    if n <= 0 {
        Set::empty()
    } else {
        rays_upto(s, occ, ds, n - 1).union(
            ray(file_of(s), rank_of(s), ds[n - 1].0 as int, ds[n - 1].1 as int, occ, 9),
        )
    }
}

/// All squares a slider on `s` attacks under occupancy `occ`.
pub open spec fn sliding_spec(s: int, occ: Set<int>, ds: Seq<(i8, i8)>) -> Set<int> {
    rays_upto(s, occ, ds, ds.len() as int)
}

/// The step-attack squares of one square, as a bitboard.
pub fn step_bb(ds: &Vec<(i8, i8)>, sq: Square) -> (r: Bitboard)
    requires
        sq.wf(),
        forall|i: int| 0 <= i < ds@.len() ==> step_delta_ok(ds@[i]),
    ensures
        r.wf(),
        forall|t: int| r.has(t) == step_target(ds@, sq.idx(), t),
{
    let f0 = sq.file() as i16;
    let r0 = sq.rank() as i16;
    let mut acc = Bitboard::empty();
    let mut j: usize = 0;
    while j < ds.len()
        invariant
            sq.wf(),
            acc.wf(),
            j <= ds@.len(),
            f0 == file_of(sq.idx()),
            r0 == rank_of(sq.idx()),
            forall|i: int| 0 <= i < ds@.len() ==> step_delta_ok(ds@[i]),
            forall|t: int| acc.has(t) == step_target(ds@.subrange(0, j as int), sq.idx(), t),
        decreases ds@.len() - j,
    {
        let (df, dr) = ds[j];
        let nf = f0 + df as i16;
        let nr = r0 + dr as i16;
        let ghost pre = acc;
        if 0 <= nf && nf < 9 && 0 <= nr && nr < 9 {
            acc = acc.insert(Square((nf * 9 + nr) as u8));
        }
        proof {
            let dss = ds@.subrange(0, j as int + 1);
            assert(dss.subrange(0, j as int) == ds@.subrange(0, j as int));
            assert forall|t: int| acc.has(t) == step_target(dss, sq.idx(), t) by {
                if acc.has(t) {
                    if pre.has(t) {
                        let i = choose|i: int|
                            0 <= i < j && in_board(
                                file_of(sq.idx()) + ds@.subrange(0, j as int)[i].0,
                                rank_of(sq.idx()) + ds@.subrange(0, j as int)[i].1,
                            ) && t == sq_of(
                                file_of(sq.idx()) + ds@.subrange(0, j as int)[i].0,
                                rank_of(sq.idx()) + ds@.subrange(0, j as int)[i].1,
                            );
                        assert(in_board(file_of(sq.idx()) + dss[i].0, rank_of(sq.idx()) + dss[i].1)
                            && t == sq_of(
                            file_of(sq.idx()) + dss[i].0,
                            rank_of(sq.idx()) + dss[i].1,
                        ));
                    } else {
                        assert(in_board(file_of(sq.idx()) + dss[j as int].0, rank_of(sq.idx())
                            + dss[j as int].1) && t == sq_of(
                            file_of(sq.idx()) + dss[j as int].0,
                            rank_of(sq.idx()) + dss[j as int].1,
                        ));
                    }
                }
                if step_target(dss, sq.idx(), t) {
                    let i = choose|i: int|
                        0 <= i < dss.len() && in_board(
                            file_of(sq.idx()) + dss[i].0,
                            rank_of(sq.idx()) + dss[i].1,
                        ) && t == sq_of(file_of(sq.idx()) + dss[i].0, rank_of(sq.idx()) + dss[i].1);
                    if i < j {
                        assert(step_target(ds@.subrange(0, j as int), sq.idx(), t));
                    } else {
                        assert(acc.has(t));
                    }
                }
            }
        }
        j = j + 1;
    }
    proof {
        assert(ds@.subrange(0, ds@.len() as int) == ds@);
    }
    acc
}

/// The sliding-attack squares of one square under `occ`, as a bitboard.
pub fn sliding_attacks(sq: Square, occ: &Bitboard, ds: &Vec<(i8, i8)>) -> (r: Bitboard)
    requires
        sq.wf(),
        occ.wf(),
        forall|i: int| 0 <= i < ds@.len() ==> slide_delta_ok(ds@[i]),
    ensures
        r.wf(),
        forall|t: int| r.has(t) == sliding_spec(sq.idx(), occ.sqs(), ds@).contains(t),
{
    let f0 = sq.file() as i16;
    let r0 = sq.rank() as i16;
    let mut acc = Bitboard::empty();
    let mut j: usize = 0;
    while j < ds.len()
        invariant
            sq.wf(),
            occ.wf(),
            acc.wf(),
            j <= ds@.len(),
            f0 == file_of(sq.idx()),
            r0 == rank_of(sq.idx()),
            forall|i: int| 0 <= i < ds@.len() ==> slide_delta_ok(ds@[i]),
            forall|t: int| acc.has(t) == rays_upto(sq.idx(), occ.sqs(), ds@, j as int).contains(t),
        decreases ds@.len() - j,
    {
        let (df, dr) = ds[j];
        let dfw = df as i16;
        let drw = dr as i16;
        let ghost full = ray(f0 as int, r0 as int, dfw as int, drw as int, occ.sqs(), 9);
        let mut cf = f0;
        let mut cr = r0;
        let ghost mut t: int = 0;
        let mut stop = false;
        while !stop
            invariant
                occ.wf(),
                acc.wf(),
                -1 <= dfw <= 1,
                -1 <= drw <= 1,
                !(dfw == 0 && drw == 0),
                0 <= f0 < 9,
                0 <= r0 < 9,
                0 <= t <= 8,
                dfw == 1 ==> cf == f0 + t,
                dfw == -1 ==> cf == f0 - t,
                dfw == 0 ==> cf == f0,
                drw == 1 ==> cr == r0 + t,
                drw == -1 ==> cr == r0 - t,
                drw == 0 ==> cr == r0,
                !stop ==> in_board(cf as int, cr as int),
                !stop ==> forall|x: int|
                    (acc.has(x) || ray(cf as int, cr as int, dfw as int, drw as int, occ.sqs(), (9
                        - t) as nat).contains(x)) == (acc.has(x) || full.contains(x)),
                stop ==> forall|x: int| acc.has(x) == (acc.has(x) || full.contains(x)),
                forall|x: int| full.contains(x) ==> (acc.has(x) || !stop),
                forall|x: int|
                    acc.has(x) ==> (full.contains(x) || rays_upto(sq.idx(), occ.sqs(), ds@,
                    j as int).contains(x)),
                forall|x: int|
                    rays_upto(sq.idx(), occ.sqs(), ds@, j as int).contains(x) ==> acc.has(x),
            decreases 10 - t, if stop { 0int } else { 1int },
        {
            let nf = cf + dfw;
            let nr = cr + drw;
            if 0 <= nf && nf < 9 && 0 <= nr && nr < 9 {
                let nsq = Square((nf * 9 + nr) as u8);
                acc = acc.insert(nsq);
                if occ.get(nsq) {
                    stop = true;
                } else {
                    cf = nf;
                    cr = nr;
                    proof {
                        t = t + 1;
                    }
                }
            } else {
                stop = true;
            }
        }
        proof {
            let dss = ds@;
            assert(rays_upto(sq.idx(), occ.sqs(), dss, j as int + 1) == rays_upto(
                sq.idx(),
                occ.sqs(),
                dss,
                j as int,
            ).union(full));
        }
        j = j + 1;
    }
    acc
}

/// Every ray square is a board square.
pub proof fn lemma_ray_in_board(f: int, r: int, df: int, dr: int, occ: Set<int>, fuel: nat)
    ensures
        forall|t: int| ray(f, r, df, dr, occ, fuel).contains(t) ==> (0 <= t < 81 && in_board(
            file_of(t),
            rank_of(t),
        )),
    decreases fuel,
{
    if fuel > 0 {
        let nf = f + df;
        let nr = r + dr;
        if in_board(nf, nr) {
            lemma_ray_in_board(nf, nr, df, dr, occ, (fuel - 1) as nat);
            assert(0 <= sq_of(nf, nr) < 81 && file_of(sq_of(nf, nr)) == nf && rank_of(
                sq_of(nf, nr),
            ) == nr) by (nonlinear_arith)
                requires in_board(nf, nr);
            assert forall|t: int| ray(f, r, df, dr, occ, fuel).contains(t) implies (0 <= t < 81
                && in_board(file_of(t), rank_of(t))) by {
                if t != sq_of(nf, nr) {
                    assert(ray(nf, nr, df, dr, occ, (fuel - 1) as nat).contains(t));
                }
            }
        }
    }
}

/// Every sliding-attack square is a board square.
pub proof fn lemma_sliding_in_board(s: int, occ: Set<int>, ds: Seq<(i8, i8)>, n: int)
    ensures
        forall|t: int| rays_upto(s, occ, ds, n).contains(t) ==> (0 <= t < 81 && in_board(
            file_of(t),
            rank_of(t),
        )),
    decreases n,
{
    if n > 0 {
        lemma_sliding_in_board(s, occ, ds, n - 1);
        lemma_ray_in_board(file_of(s), rank_of(s), ds[n - 1].0 as int, ds[n - 1].1 as int, occ, 9);
        assert forall|t: int| rays_upto(s, occ, ds, n).contains(t) implies (0 <= t < 81
            && in_board(file_of(t), rank_of(t))) by {
            if !rays_upto(s, occ, ds, n - 1).contains(t) {
                assert(ray(file_of(s), rank_of(s), ds[n - 1].0 as int, ds[n - 1].1 as int, occ,
                9).contains(t));
            }
        }
    }
}

/// Every step-attack square is a board square.
pub proof fn lemma_step_in_board(ds: Seq<(i8, i8)>, s: int)
    ensures
        forall|t: int| step_target(ds, s, t) ==> 0 <= t < 81,
{
    assert forall|t: int| step_target(ds, s, t) implies 0 <= t < 81 by {
        let i = choose|i: int|
            0 <= i < ds.len() && in_board(file_of(s) + ds[i].0, rank_of(s) + ds[i].1) && t == sq_of(
                file_of(s) + ds[i].0,
                rank_of(s) + ds[i].1,
            );
        let nf = file_of(s) + ds[i].0;
        let nr = rank_of(s) + ds[i].1;
        assert(0 <= sq_of(nf, nr) < 81) by (nonlinear_arith)
            requires 0 <= nf < 9, 0 <= nr < 9;
    }
}

/// Pawn deltas.
pub open spec fn fu_deltas(c: Color) -> Seq<(i8, i8)> {
    if c == Color::Black {
        seq![(0i8, -1i8)]
    } else {
        seq![(0i8, 1i8)]
    }
}

/// Knight deltas.
pub open spec fn ke_deltas(c: Color) -> Seq<(i8, i8)> {
    if c == Color::Black {
        seq![(-1i8, -2i8), (1i8, -2i8)]
    } else {
        seq![(-1i8, 2i8), (1i8, 2i8)]
    }
}

/// Silver deltas.
pub open spec fn gi_deltas(c: Color) -> Seq<(i8, i8)> {
    if c == Color::Black {
        seq![(0i8, -1i8), (-1i8, -1i8), (-1i8, 1i8), (1i8, 1i8), (1i8, -1i8)]
    } else {
        seq![(0i8, 1i8), (-1i8, -1i8), (-1i8, 1i8), (1i8, 1i8), (1i8, -1i8)]
    }
}

/// Gold deltas.
pub open spec fn ki_deltas(c: Color) -> Seq<(i8, i8)> {
    if c == Color::Black {
        seq![(0i8, -1i8), (-1i8, 0i8), (0i8, 1i8), (1i8, 0i8), (-1i8, -1i8), (1i8, -1i8)]
    } else {
        seq![(0i8, -1i8), (-1i8, 0i8), (0i8, 1i8), (1i8, 0i8), (-1i8, 1i8), (1i8, 1i8)]
    }
}

/// King deltas, the same for both colors.
pub open spec fn ou_deltas(c: Color) -> Seq<(i8, i8)> {
    seq![
        (0i8, -1i8),
        (-1i8, 0i8),
        (0i8, 1i8),
        (1i8, 0i8),
        (-1i8, -1i8),
        (-1i8, 1i8),
        (1i8, 1i8),
        (1i8, -1i8),
    ]
}

/// Lance delta: north for Black, south for White.
pub open spec fn ky_deltas(c: Color) -> Seq<(i8, i8)> {
    if c == Color::Black {
        seq![(0i8, -1i8)]
    } else {
        seq![(0i8, 1i8)]
    }
}

/// Bishop deltas: the four diagonals.
pub open spec fn ka_deltas() -> Seq<(i8, i8)> {
    seq![(-1i8, -1i8), (-1i8, 1i8), (1i8, 1i8), (1i8, -1i8)]
}

/// Rook deltas: the four orthogonals.
pub open spec fn hi_deltas() -> Seq<(i8, i8)> {
    seq![(0i8, -1i8), (-1i8, 0i8), (0i8, 1i8), (1i8, 0i8)]
}

} // verus!
