//! The legal move generator: pseudo-moves per piece type, evasions under
//! check, and the king-safety and pin filters.

use vstd::prelude::*;

use crate::attacks::fu_deltas;
use crate::attacks::gi_deltas;
use crate::attacks::hi_deltas;
use crate::attacks::ka_deltas;
use crate::attacks::ke_deltas;
use crate::attacks::ki_deltas;
use crate::attacks::ou_deltas;
use crate::attacks::lemma_sliding_in_board;
use crate::attacks::step_target;
use crate::bitboard::Bitboard;
use crate::bitboard::bb_empty;
use crate::bitboard::is_square;
use crate::between::BetweenTable;
use crate::between::between_pred;
use crate::position::Position;
use crate::tables::AttackTable;
use crate::tables::hi_att;
use crate::tables::ka_att;
use crate::tables::ky_att;
use crate::tables::lemma_lance_masked;
use crate::tables::lemma_slider_masked;
use crate::types::Color;
use crate::types::Move;
use crate::types::Piece;
use crate::types::PieceType;
use crate::types::Square;
use crate::types::opp;
use crate::types::promo_zone;
use crate::types::rank_of;

verus! {

/// The squares reached by the deltas from `s`, as a set.
pub open spec fn step_set(ds: Seq<(i8, i8)>, s: int) -> Set<int> {
    Set::new(|t: int| step_target(ds, s, t))
}

/// The squares a piece of the side to move attacks from `from`.
pub open spec fn attack_of(pos: Position, pt: PieceType, from: int) -> Set<int> {
    let c = pos.side;
    let occ = pos.occ_set();
    if pt == PieceType::FU {
        step_set(fu_deltas(c), from)
    } else if pt == PieceType::KY {
        ky_att(from, c, occ)
    } else if pt == PieceType::KE {
        step_set(ke_deltas(c), from)
    } else if pt == PieceType::GI {
        step_set(gi_deltas(c), from)
    } else if pt == PieceType::KA {
        ka_att(from, occ)
    } else if pt == PieceType::HI {
        hi_att(from, occ)
    } else if pt == PieceType::OU {
        step_set(ou_deltas(c), from)
    } else {
        step_set(ki_deltas(c), from)
    }
}

/// Whether moves of this piece type are also emitted with the promotion flag
/// when they touch the promotion zone.
pub open spec fn promo_pair(pt: PieceType) -> bool {
    pt == PieceType::GI || pt == PieceType::KA || pt == PieceType::HI
}

/// The piece standing on `from`.
pub open spec fn piece_val(pos: Position, from: int) -> Piece {
    match pos.piece_at(from) {
        Option::Some(p) => p,
        Option::None => Piece { color: Color::Black, piece_type: PieceType::FU },
    }
}

/// The moves emitted for one origin and one destination.
pub open spec fn emit_at(pos: Position, pt: PieceType, from: int, to: int) -> Seq<Move> {
    let p = piece_val(pos, from);
    let m = Move { from: Square(from as u8), to: Square(to as u8), promotion: false, piece: p };
    if promo_pair(pt) && (promo_zone(pos.side, rank_of(from)) || promo_zone(pos.side, rank_of(to))) {
        seq![m, Move { from: Square(from as u8), to: Square(to as u8), promotion: true, piece: p }]
    } else {
        seq![m]
    }
}

/// The moves of one origin over destinations below `m`, in square order.
pub open spec fn emit_tos(pos: Position, pt: PieceType, from: int, target: Set<int>, m: int) -> Seq<
    Move,
>
    decreases m,
{
    if m <= 0 {
        Seq::empty()
    } else {
        emit_tos(pos, pt, from, target, m - 1) + (if attack_of(pos, pt, from).contains(m - 1)
            && target.contains(m - 1) {
            emit_at(pos, pt, from, m - 1)
        } else {
            Seq::empty()
        })
    }
}

/// Whether the piece on `from` is generated under piece kind `pt`; the gold
/// kind covers the promoted pieces that move as the gold does.
pub open spec fn from_matches(pos: Position, pt: PieceType, from: int) -> bool {
    if pt == PieceType::KI {
        pos.is_gold_like_at(from, pos.side)
    } else {
        pos.is_cp(from, pos.side, pt)
    }
}

/// The moves of piece kind `pt` with origins below `n`, in square order.
pub open spec fn gen_upto(pos: Position, pt: PieceType, target: Set<int>, n: int) -> Seq<Move>
    decreases n,
{
    if n <= 0 {
        Seq::empty()
    } else {
        gen_upto(pos, pt, target, n - 1) + (if from_matches(pos, pt, n - 1) {
            emit_tos(pos, pt, n - 1, target, 81)
        } else {
            Seq::empty()
        })
    }
}

pub open spec fn gen_pt(pos: Position, pt: PieceType, target: Set<int>) -> Seq<Move> {
    gen_upto(pos, pt, target, 81)
}

/// Squares not held by the side to move.
pub open spec fn nonown(pos: Position) -> Set<int> {
    Set::new(|t: int| !pos.is_c(t, pos.side))
}

/// All pseudo-moves, in the fixed piece-kind order.
pub open spec fn all_moves(pos: Position) -> Seq<Move> {
    gen_pt(pos, PieceType::FU, nonown(pos)) + gen_pt(pos, PieceType::KY, nonown(pos)) + gen_pt(
        pos,
        PieceType::KE,
        nonown(pos),
    ) + gen_pt(pos, PieceType::GI, nonown(pos)) + gen_pt(pos, PieceType::KA, nonown(pos)) + gen_pt(
        pos,
        PieceType::HI,
        nonown(pos),
    ) + gen_pt(pos, PieceType::KI, nonown(pos)) + gen_pt(pos, PieceType::OU, nonown(pos))
}

/// An enemy piece giving check.
pub open spec fn checker_pred(pos: Position, s: int) -> bool {
    pos.attacks_to_pred(opp(pos.side), pos.spec_king(pos.side), s)
}

pub open spec fn in_check_pred(pos: Position) -> bool {
    exists|s: int| checker_pred(pos, s)
}

/// The empty-board rays of the sliding piece on `e`, if any: the squares a
/// checked king must not flee along.
pub open spec fn pseudo_of(pos: Position, e: int) -> Set<int> {
    match pos.piece_at(e) {
        Option::Some(p) => {
            if p.piece_type == PieceType::KA {
                ka_att(e, Set::empty())
            } else if p.piece_type == PieceType::UM {
                ka_att(e, Set::empty()).union(step_set(ou_deltas(Color::Black), e))
            } else if p.piece_type == PieceType::HI {
                hi_att(e, Set::empty())
            } else if p.piece_type == PieceType::RY {
                hi_att(e, Set::empty()).union(step_set(ou_deltas(Color::Black), e))
            } else {
                Set::empty()
            }
        },
        Option::None => Set::empty(),
    }
}

/// Union of the checkers' empty-board rays, over checkers below `n`.
pub open spec fn checker_rays_upto(pos: Position, n: int) -> Set<int>
    decreases n,
{
    if n <= 0 {
        Set::empty()
    } else {
        checker_rays_upto(pos, n - 1).union(
            if checker_pred(pos, n - 1) {
                pseudo_of(pos, n - 1)
            } else {
                Set::empty()
            },
        )
    }
}

/// Two different pieces give check at once.
pub open spec fn double_check(pos: Position) -> bool {
    exists|s1: int, s2: int|
        s1 != s2 && #[trigger] checker_pred(pos, s1) && #[trigger] checker_pred(pos, s2)
}

/// The lowest checker square.
pub open spec fn first_checker(pos: Position) -> int {
    choose|s: int| checker_pred(pos, s) && forall|t: int| 0 <= t < s ==> !checker_pred(pos, t)
}

/// Where the king may flee: free of own pieces and off the checkers' rays.
pub open spec fn king_target(pos: Position) -> Set<int> {
    Set::new(|t: int| !pos.is_c(t, pos.side) && !checker_rays_upto(pos, 81).contains(t))
}

/// Capturing the single checker or interposing on its line to the king.
pub open spec fn evasion_target(pos: Position) -> Set<int> {
    Set::new(
        |t: int|
            checker_pred(pos, t) || between_pred(
                first_checker(pos),
                pos.spec_king(pos.side),
                t,
            ),
    )
}

/// The evasions: king flights first, then, under a single check, captures of
/// the checker and interpositions.
pub open spec fn evasion_moves(pos: Position) -> Seq<Move> {
    let king_part = emit_tos(
        pos,
        PieceType::OU,
        pos.spec_king(pos.side),
        king_target(pos),
        81,
    );
    if double_check(pos) {
        king_part
    } else {
        let t = evasion_target(pos);
        king_part + gen_pt(pos, PieceType::FU, t) + gen_pt(pos, PieceType::KY, t) + gen_pt(
            pos,
            PieceType::KE,
            t,
        ) + gen_pt(pos, PieceType::GI, t) + gen_pt(pos, PieceType::KA, t) + gen_pt(
            pos,
            PieceType::HI,
            t,
        ) + gen_pt(pos, PieceType::KI, t)
    }
}

/// A pseudo-move survives the safety filter: a king move must land on an
/// unattacked square, and a pinned piece must stay on its pin line.
pub open spec fn keep_pred(pos: Position, m: Move) -> bool {
    let k = pos.spec_king(pos.side);
    match pos.piece_at(m.from.idx()) {
        Option::Some(p) => {
            if p.piece_type == PieceType::OU {
                forall|s: int| !pos.attacks_to_pred(opp(pos.side), m.to.idx(), s)
            } else if pos.pinned_pred(m.from.idx()) {
                between_pred(k, m.from.idx(), m.to.idx()) || between_pred(k, m.to.idx(), m.from.idx())
            } else {
                true
            }
        },
        Option::None => true,
    }
}

/// The kept prefix of `ms`, in order.
pub open spec fn mv_filter(pos: Position, ms: Seq<Move>) -> Seq<Move>
    decreases ms.len(),
{
    if ms.len() == 0 {
        Seq::empty()
    } else {
        mv_filter(pos, ms.drop_last()) + (if keep_pred(pos, ms.last()) {
            seq![ms.last()]
        } else {
            Seq::empty()
        })
    }
}

/// Every legal move of the position, in generation order.
pub open spec fn legal_moves(pos: Position) -> Seq<Move> {
    if in_check_pred(pos) {
        mv_filter(pos, evasion_moves(pos))
    } else {
        mv_filter(pos, all_moves(pos))
    }
}

/// Every move of the emitted sequences has board squares at both ends, and
/// carries the piece standing on its origin.
pub open spec fn mv_wf(pos: Position, m: Move) -> bool {
    m.from.wf() && m.to.wf() && pos.piece_at(m.from.idx()) == Option::Some(m.piece)
}

proof fn lemma_emit_tos_wf(pos: Position, pt: PieceType, from: int, target: Set<int>, m: int)
    requires
        0 <= from < 81,
        m <= 81,
        pos.is_occ(from),
    ensures
        forall|i: int|
            0 <= i < emit_tos(pos, pt, from, target, m).len() ==> mv_wf(
                pos,
                #[trigger] emit_tos(pos, pt, from, target, m)[i],
            ),
    decreases m,
{
    if m > 0 {
        lemma_emit_tos_wf(pos, pt, from, target, m - 1);
        let pre = emit_tos(pos, pt, from, target, m - 1);
        let cur = emit_tos(pos, pt, from, target, m);
        assert forall|i: int| 0 <= i < cur.len() implies mv_wf(pos, cur[i]) by {
            if i < pre.len() {
                assert(cur[i] == pre[i]);
            } else {
                assert(attack_of(pos, pt, from).contains(m - 1) && target.contains(m - 1));
                let add = emit_at(pos, pt, from, m - 1);
                assert(cur[i] == add[i - pre.len()]);
                assert(mv_wf(pos, add[0]));
                if add.len() == 2 {
                    assert(mv_wf(pos, add[1]));
                }
            }
        }
    }
}

proof fn lemma_gen_upto_wf(pos: Position, pt: PieceType, target: Set<int>, n: int)
    requires
        n <= 81,
    ensures
        forall|i: int|
            0 <= i < gen_upto(pos, pt, target, n).len() ==> mv_wf(
                pos,
                #[trigger] gen_upto(pos, pt, target, n)[i],
            ),
    decreases n,
{
    if n > 0 {
        lemma_gen_upto_wf(pos, pt, target, n - 1);
        let pre = gen_upto(pos, pt, target, n - 1);
        let cur = gen_upto(pos, pt, target, n);
        if from_matches(pos, pt, n - 1) {
            lemma_emit_tos_wf(pos, pt, n - 1, target, 81);
        }
        assert forall|i: int| 0 <= i < cur.len() implies mv_wf(pos, cur[i]) by {
            if i < pre.len() {
                assert(cur[i] == pre[i]);
            } else {
                assert(from_matches(pos, pt, n - 1));
                let add = emit_tos(pos, pt, n - 1, target, 81);
                assert(cur[i] == add[i - pre.len()]);
            }
        }
    }
}

proof fn lemma_base_wf(pos: Position)
    requires
        pos.has_king(pos.side) ==> (0 <= pos.spec_king(pos.side) < 81 && pos.is_occ(
            pos.spec_king(pos.side),
        )),
    ensures
        forall|i: int|
            0 <= i < all_moves(pos).len() ==> mv_wf(pos, #[trigger] all_moves(pos)[i]),
        pos.has_king(pos.side) ==> forall|i: int|
            0 <= i < evasion_moves(pos).len() ==> mv_wf(pos, #[trigger] evasion_moves(pos)[i]),
{
    let t0 = nonown(pos);
    lemma_gen_upto_wf(pos, PieceType::FU, t0, 81);
    lemma_gen_upto_wf(pos, PieceType::KY, t0, 81);
    lemma_gen_upto_wf(pos, PieceType::KE, t0, 81);
    lemma_gen_upto_wf(pos, PieceType::GI, t0, 81);
    lemma_gen_upto_wf(pos, PieceType::KA, t0, 81);
    lemma_gen_upto_wf(pos, PieceType::HI, t0, 81);
    lemma_gen_upto_wf(pos, PieceType::KI, t0, 81);
    lemma_gen_upto_wf(pos, PieceType::OU, t0, 81);
    if pos.has_king(pos.side) {
        lemma_emit_tos_wf(pos, PieceType::OU, pos.spec_king(pos.side), king_target(pos), 81);
        let t1 = evasion_target(pos);
        lemma_gen_upto_wf(pos, PieceType::FU, t1, 81);
        lemma_gen_upto_wf(pos, PieceType::KY, t1, 81);
        lemma_gen_upto_wf(pos, PieceType::KE, t1, 81);
        lemma_gen_upto_wf(pos, PieceType::GI, t1, 81);
        lemma_gen_upto_wf(pos, PieceType::KA, t1, 81);
        lemma_gen_upto_wf(pos, PieceType::HI, t1, 81);
        lemma_gen_upto_wf(pos, PieceType::KI, t1, 81);
    }
}

/// Capacity reserved before generation: no position reachable in play has
/// more legal moves. The generator does not depend on this figure, and its
/// contract states no output bound — a well-formed `Position` does not bound
/// piece counts, so none would hold in general.
pub const MAX_LEGAL_MOVES: usize = 593;

/// An append-only list of moves.
pub struct MoveList {
    pub moves: Vec<Move>,
}

impl MoveList {
    /// An empty list, its buffer reserved ahead.
    pub fn new() -> (r: MoveList)
        ensures
            r.moves@.len() == 0,
    {
        MoveList { moves: Vec::with_capacity(MAX_LEGAL_MOVES) }
    }

    pub fn len(&self) -> (r: usize)
        ensures
            r == self.moves@.len(),
    {
        self.moves.len()
    }

    /// The `i`-th generated move.
    pub fn get(&self, i: usize) -> (r: Move)
        requires
            i < self.moves@.len(),
        ensures
            r == self.moves@[i as int],
    {
        self.moves[i]
    }

    fn push(&mut self, m: Move)
        ensures
            final(self).moves@ == old(self).moves@.push(m),
    {
        self.moves.push(m);
    }

    /// Appends the moves of piece kind `pt` whose destinations lie in
    /// `target`, origins and destinations each in square order.
    fn generate_for_pt(
        &mut self,
        pos: &Position,
        at: &AttackTable,
        target: &Bitboard,
        pt: PieceType,
        Ghost(tset): Ghost<Set<int>>,
    )
        requires
            pos.wf(),
            at.wf(),
            target.wf(),
            forall|t: int| 0 <= t < 81 ==> (target.has(t) == tset.contains(t)),
            pt == PieceType::FU || pt == PieceType::KY || pt == PieceType::KE || pt
                == PieceType::GI || pt == PieceType::KA || pt == PieceType::HI || pt
                == PieceType::KI || pt == PieceType::OU,
        ensures
            final(self).moves@ == old(self).moves@ + gen_pt(*pos, pt, tset),
    {
        let ghost base = self.moves@;
        let c = pos.side_to_move();
        let occ = pos.pieces_p(PieceType::OCCUPIED);
        proof {
            assert(forall|s: int| pos.occ_set().contains(s) ==> 0 <= s < 81);
            assert(forall|s: int| occ.has(s) == pos.occ_set().contains(s));
        }
        let mut from: u8 = 0;
        while from < 81
            invariant
                pos.wf(),
                at.wf(),
                target.wf(),
                occ.wf(),
                c == pos.side,
                forall|s: int| occ.has(s) == pos.occ_set().contains(s),
                forall|t: int| 0 <= t < 81 ==> (target.has(t) == tset.contains(t)),
                pt == PieceType::FU || pt == PieceType::KY || pt == PieceType::KE || pt
                    == PieceType::GI || pt == PieceType::KA || pt == PieceType::HI || pt
                    == PieceType::KI || pt == PieceType::OU,
                from <= 81,
                self.moves@ == base + gen_upto(*pos, pt, tset, from as int),
            decreases 81 - from,
        {
            let fsq = Square(from);
            let matches: bool;
            let mut pc = Piece { color: Color::Black, piece_type: PieceType::FU };
            match pos.piece_on(fsq) {
                Option::Some(p) => {
                    pc = p;
                    if p.color == c {
                        if pt == PieceType::KI {
                            matches = p.piece_type == PieceType::KI || p.piece_type
                                == PieceType::TO || p.piece_type == PieceType::NY || p.piece_type
                                == PieceType::NK || p.piece_type == PieceType::NG;
                        } else {
                            matches = p.piece_type == pt;
                        }
                    } else {
                        matches = false;
                    }
                },
                Option::None => {
                    matches = false;
                },
            }
            proof {
                assert(matches == from_matches(*pos, pt, from as int));
            }
            if matches {
                proof {
                    assert(pc == piece_val(*pos, from as int));
                }
                let atk: Bitboard;
                if pt == PieceType::FU {
                    atk = at.fu.attack(fsq, c);
                } else if pt == PieceType::KY {
                    atk = at.ky.attack(fsq, c, &occ);
                    proof {
                        lemma_lance_masked(occ, pos.occ_set(), crate::types::file_of(fsq.idx()));
                    }
                } else if pt == PieceType::KE {
                    atk = at.ke.attack(fsq, c);
                } else if pt == PieceType::GI {
                    atk = at.gi.attack(fsq, c);
                } else if pt == PieceType::KA {
                    atk = at.ka.attack(fsq, &occ);
                    proof {
                        lemma_slider_masked(
                            occ,
                            at.ka.spec_mask(fsq.idx()),
                            pos.occ_set(),
                            ka_deltas(),
                            fsq.idx(),
                        );
                    }
                } else if pt == PieceType::HI {
                    atk = at.hi.attack(fsq, &occ);
                    proof {
                        lemma_slider_masked(
                            occ,
                            at.hi.spec_mask(fsq.idx()),
                            pos.occ_set(),
                            hi_deltas(),
                            fsq.idx(),
                        );
                    }
                } else if pt == PieceType::KI {
                    atk = at.ki.attack(fsq, c);
                } else {
                    atk = at.ou.attack(fsq, c);
                }
                proof {
                    assert(forall|t: int|
                        atk.has(t) == attack_of(*pos, pt, fsq.idx()).contains(t));
                    crate::attacks::lemma_step_in_board(fu_deltas(c), fsq.idx());
                    crate::attacks::lemma_step_in_board(ke_deltas(c), fsq.idx());
                    crate::attacks::lemma_step_in_board(gi_deltas(c), fsq.idx());
                    crate::attacks::lemma_step_in_board(ki_deltas(c), fsq.idx());
                    crate::attacks::lemma_step_in_board(ou_deltas(c), fsq.idx());
                    lemma_sliding_in_board(
                        fsq.idx(),
                        pos.occ_set().intersect(
                            crate::tables::lance_mask(crate::types::file_of(fsq.idx())).sqs(),
                        ),
                        crate::attacks::ky_deltas(c),
                        crate::attacks::ky_deltas(c).len() as int,
                    );
                    lemma_sliding_in_board(
                        fsq.idx(),
                        pos.occ_set().intersect(crate::tables::mask_set(fsq.idx(), ka_deltas())),
                        ka_deltas(),
                        ka_deltas().len() as int,
                    );
                    lemma_sliding_in_board(
                        fsq.idx(),
                        pos.occ_set().intersect(crate::tables::mask_set(fsq.idx(), hi_deltas())),
                        hi_deltas(),
                        hi_deltas().len() as int,
                    );
                }
                self.emit_for_from(pos, fsq, pc, &atk, target, pt, Ghost(tset));
            }
            proof {
                assert(gen_upto(*pos, pt, tset, from as int + 1) == gen_upto(
                    *pos,
                    pt,
                    tset,
                    from as int,
                ) + (if from_matches(*pos, pt, from as int) {
                    emit_tos(*pos, pt, from as int, tset, 81)
                } else {
                    Seq::<Move>::empty()
                }));
                if !matches {
                    assert(self.moves@ =~= base + gen_upto(*pos, pt, tset, from as int + 1));
                } else {
                    assert(self.moves@ =~= base + gen_upto(*pos, pt, tset, from as int + 1));
                }
            }
            from = from + 1;
        }
    }

    /// Appends the moves of one origin square: each destination in the attack
    /// set and the target, with a promoting twin where the zone allows it.
    fn emit_for_from(
        &mut self,
        pos: &Position,
        fsq: Square,
        pc: Piece,
        atk: &Bitboard,
        target: &Bitboard,
        pt: PieceType,
        Ghost(tset): Ghost<Set<int>>,
    )
        requires
            pos.wf(),
            fsq.wf(),
            atk.wf(),
            target.wf(),
            pc == piece_val(*pos, fsq.idx()),
            forall|t: int| 0 <= t < 81 ==> (target.has(t) == tset.contains(t)),
            forall|t: int| atk.has(t) == attack_of(*pos, pt, fsq.idx()).contains(t),
            forall|t: int| attack_of(*pos, pt, fsq.idx()).contains(t) ==> 0 <= t < 81,
        ensures
            final(self).moves@ == old(self).moves@ + emit_tos(*pos, pt, fsq.idx(), tset, 81),
    {
        let ghost base = self.moves@;
        let c = pos.side_to_move();
        let pair = pt == PieceType::GI || pt == PieceType::KA || pt == PieceType::HI;
        let from_zone = fsq.is_opponent_field(c);
        let mut to: u8 = 0;
        while to < 81
            invariant
                pos.wf(),
                fsq.wf(),
                atk.wf(),
                target.wf(),
                c == pos.side,
                pc == piece_val(*pos, fsq.idx()),
                pair == promo_pair(pt),
                from_zone == promo_zone(pos.side, rank_of(fsq.idx())),
                forall|t: int| 0 <= t < 81 ==> (target.has(t) == tset.contains(t)),
                forall|t: int| atk.has(t) == attack_of(*pos, pt, fsq.idx()).contains(t),
                to <= 81,
                self.moves@ == base + emit_tos(*pos, pt, fsq.idx(), tset, to as int),
            decreases 81 - to,
        {
            let tsq = Square(to);
            if atk.get(tsq) && target.get(tsq) {
                self.push(Move { from: fsq, to: tsq, promotion: false, piece: pc });
                if pair && (from_zone || tsq.is_opponent_field(c)) {
                    self.push(Move { from: fsq, to: tsq, promotion: true, piece: pc });
                }
            }
            proof {
                assert(self.moves@ =~= base + emit_tos(*pos, pt, fsq.idx(), tset, to as int + 1));
            }
            to = to + 1;
        }
    }

    /// Appends every pseudo-move onto squares free of own pieces.
    fn generate_all(&mut self, pos: &Position, at: &AttackTable)
        requires
            pos.wf(),
            at.wf(),
        ensures
            final(self).moves@ == old(self).moves@ + all_moves(*pos),
    {
        let own = pos.pieces_c(pos.side_to_move());
        let fullb = Bitboard::full();
        let target = fullb.diff(&own);
        proof {
            assert forall|t: int| 0 <= t < 81 implies (target.has(t) == nonown(*pos).contains(
                t,
            )) by {
                assert(target.has(t) == (fullb.has(t) && !own.has(t)));
                assert(fullb.has(t) == is_square(t));
                assert(own.has(t) == pos.is_c(t, pos.side));
                assert(nonown(*pos).contains(t) == !pos.is_c(t, pos.side));
            }
        }
        self.generate_for_pt(pos, at, &target, PieceType::FU, Ghost(nonown(*pos)));
        self.generate_for_pt(pos, at, &target, PieceType::KY, Ghost(nonown(*pos)));
        self.generate_for_pt(pos, at, &target, PieceType::KE, Ghost(nonown(*pos)));
        self.generate_for_pt(pos, at, &target, PieceType::GI, Ghost(nonown(*pos)));
        self.generate_for_pt(pos, at, &target, PieceType::KA, Ghost(nonown(*pos)));
        self.generate_for_pt(pos, at, &target, PieceType::HI, Ghost(nonown(*pos)));
        self.generate_for_pt(pos, at, &target, PieceType::KI, Ghost(nonown(*pos)));
        self.generate_for_pt(pos, at, &target, PieceType::OU, Ghost(nonown(*pos)));
        proof {
            assert(self.moves@ =~= old(self).moves@ + all_moves(*pos));
        }
    }

    /// Appends the evasions: king flights, then, under a single check,
    /// captures of the checker and interpositions.
    fn generate_evasions(&mut self, pos: &Position, at: &AttackTable, bt: &BetweenTable)
        requires
            pos.wf(),
            at.wf(),
            bt.wf(),
            pos.has_king(pos.side),
            in_check_pred(*pos),
        ensures
            final(self).moves@ == old(self).moves@ + evasion_moves(*pos),
    {
        let ghost base = self.moves@;
        let c = pos.side_to_move();
        let ksq = pos.king_square(c);
        let checkers = pos.checkers(at);
        let own = pos.pieces_c(c);
        let mut ca = Bitboard::empty();
        let mut two = false;
        let mut seen = false;
        let mut e: u8 = 0;
        while e < 81
            invariant
                pos.wf(),
                at.wf(),
                c == pos.side,
                ca.wf(),
                e <= 81,
                forall|s: int| checkers.has(s) == checker_pred(*pos, s),
                forall|t: int| ca.has(t) == checker_rays_upto(*pos, e as int).contains(t),
                seen == exists|s: int| 0 <= s < e as int && #[trigger] checker_pred(*pos, s),
                two == exists|s1: int, s2: int|
                    0 <= s1 < e as int && 0 <= s2 < e as int && s1 != s2 && #[trigger] checker_pred(
                        *pos,
                        s1,
                    ) && #[trigger] checker_pred(*pos, s2),
            decreases 81 - e,
        {
            let esq = Square(e);
            if checkers.get(esq) {
                if seen {
                    two = true;
                }
                seen = true;
                let pbb: Bitboard;
                match pos.piece_on(esq) {
                    Option::Some(p) => {
                        if p.piece_type == PieceType::KA {
                            pbb = at.ka.pseudo_attack(esq);
                            proof {
                                crate::bitboard::lemma_bb_empty_has();
                                assert(bb_empty().sqs() =~= Set::<int>::empty().intersect(
                                    crate::tables::mask_set(esq.idx(), ka_deltas()),
                                ));
                            }
                        } else if p.piece_type == PieceType::UM {
                            pbb = at.ka.pseudo_attack(esq).union(
                                &at.ou.attack(esq, Color::Black),
                            );
                            proof {
                                crate::bitboard::lemma_bb_empty_has();
                                assert(bb_empty().sqs() =~= Set::<int>::empty().intersect(
                                    crate::tables::mask_set(esq.idx(), ka_deltas()),
                                ));
                            }
                        } else if p.piece_type == PieceType::HI {
                            pbb = at.hi.pseudo_attack(esq);
                            proof {
                                crate::bitboard::lemma_bb_empty_has();
                                assert(bb_empty().sqs() =~= Set::<int>::empty().intersect(
                                    crate::tables::mask_set(esq.idx(), hi_deltas()),
                                ));
                            }
                        } else if p.piece_type == PieceType::RY {
                            pbb = at.hi.pseudo_attack(esq).union(
                                &at.ou.attack(esq, Color::Black),
                            );
                            proof {
                                crate::bitboard::lemma_bb_empty_has();
                                assert(bb_empty().sqs() =~= Set::<int>::empty().intersect(
                                    crate::tables::mask_set(esq.idx(), hi_deltas()),
                                ));
                            }
                        } else {
                            pbb = Bitboard::empty();
                        }
                    },
                    Option::None => {
                        pbb = Bitboard::empty();
                    },
                }
                proof {
                    assert(forall|t: int| pbb.has(t) == pseudo_of(*pos, e as int).contains(t));
                }
                ca = ca.union(&pbb);
            }
            proof {
                assert forall|t: int|
                    ca.has(t) == checker_rays_upto(*pos, e as int + 1).contains(t) by {}
            }
            e = e + 1;
        }
        proof {
            assert(two == double_check(*pos));
        }
        // King flights: not onto own pieces, not along a checker's ray.
        let fullb = Bitboard::full();
        let freeb = fullb.diff(&own);
        let kt = freeb.diff(&ca);
        let katk = at.ou.attack(ksq, c);
        let kpc = match pos.piece_on(ksq) {
            Option::Some(p) => p,
            Option::None => Piece { color: Color::Black, piece_type: PieceType::FU },
        };
        proof {
            assert forall|t: int| 0 <= t < 81 implies (kt.has(t) == king_target(*pos).contains(
                t,
            )) by {
                assert(kt.has(t) == (freeb.has(t) && !ca.has(t)));
                assert(freeb.has(t) == (fullb.has(t) && !own.has(t)));
                assert(fullb.has(t) == is_square(t));
                assert(own.has(t) == pos.is_c(t, pos.side));
                assert(king_target(*pos).contains(t) == (!pos.is_c(t, pos.side)
                    && !checker_rays_upto(*pos, 81).contains(t)));
                assert(ca.has(t) == checker_rays_upto(*pos, 81).contains(t));
            }
            assert(forall|t: int|
                katk.has(t) == attack_of(*pos, PieceType::OU, ksq.idx()).contains(t));
            assert(kpc == piece_val(*pos, ksq.idx()));
        }
        self.emit_for_from(pos, ksq, kpc, &katk, &kt, PieceType::OU, Ghost(king_target(*pos)));
        if two {
            return ;
        }
        let checker = match checkers.first() {
            Option::Some(sq) => sq,
            Option::None => {
                proof {
                    let w = choose|s: int| checker_pred(*pos, s);
                    assert(checkers.has(w));
                    assert(false);
                }
                Square(0)
            },
        };
        proof {
            let fc = first_checker(*pos);
            assert(checker_pred(*pos, checker.idx()) && forall|t: int|
                0 <= t < checker.idx() ==> !checker_pred(*pos, t));
            assert(checker_pred(*pos, fc) && forall|t: int| 0 <= t < fc ==> !checker_pred(*pos, t));
            assert(0 <= fc < 81);
            if fc < checker.idx() {
                assert(!checker_pred(*pos, fc));
            }
            if checker.idx() < fc {
                assert(!checker_pred(*pos, checker.idx()));
            }
            assert(fc == checker.idx());
        }
        let target = checkers.union(&bt.at(checker, ksq));
        proof {
            assert(forall|t: int|
                0 <= t < 81 ==> (target.has(t) == evasion_target(*pos).contains(t)));
        }
        self.generate_for_pt(pos, at, &target, PieceType::FU, Ghost(evasion_target(*pos)));
        self.generate_for_pt(pos, at, &target, PieceType::KY, Ghost(evasion_target(*pos)));
        self.generate_for_pt(pos, at, &target, PieceType::KE, Ghost(evasion_target(*pos)));
        self.generate_for_pt(pos, at, &target, PieceType::GI, Ghost(evasion_target(*pos)));
        self.generate_for_pt(pos, at, &target, PieceType::KA, Ghost(evasion_target(*pos)));
        self.generate_for_pt(pos, at, &target, PieceType::HI, Ghost(evasion_target(*pos)));
        self.generate_for_pt(pos, at, &target, PieceType::KI, Ghost(evasion_target(*pos)));
        proof {
            assert(self.moves@ =~= base + evasion_moves(*pos));
        }
    }

    /// Replaces the list's content with every legal move of `pos`, in a fixed
    /// order: the result depends on the position alone.
    ///
    /// Forced promotion is not applied: a pawn, lance or knight move into the
    /// ranks it could never move on from is emitted without the promotion
    /// flag, and ruling such moves out is left to the surrounding engine.
    pub fn generate_legals(&mut self, pos: &Position, at: &AttackTable, bt: &BetweenTable)
        requires
            pos.wf(),
            at.wf(),
            bt.wf(),
            pos.has_king(pos.side),
        ensures
            final(self).moves@ == legal_moves(*pos),
    {
        self.moves = Vec::new();
        let in_check = pos.in_check(at);
        proof {
            if in_check {
                let w = choose|s: int|
                    pos.attacks_to_pred(opp(pos.side), pos.spec_king(pos.side), s);
                assert(checker_pred(*pos, w));
            } else if in_check_pred(*pos) {
                let w = choose|s: int| checker_pred(*pos, s);
                assert(pos.attacks_to_pred(opp(pos.side), pos.spec_king(pos.side), w));
            }
            assert(in_check == in_check_pred(*pos));
        }
        if in_check {
            self.generate_evasions(pos, at, bt);
        } else {
            self.generate_all(pos, at);
        }
        let ghost raw = self.moves@;
        proof {
            lemma_base_wf(*pos);
            assert(forall|i: int| 0 <= i < raw.len() ==> mv_wf(*pos, #[trigger] raw[i]));
        }
        let ksq = pos.king_square(pos.side_to_move());
        let pinned = pos.pinned(at, bt);
        let mut out: Vec<Move> = Vec::new();
        let mut i: usize = 0;
        while i < self.moves.len()
            invariant
                pos.wf(),
                at.wf(),
                bt.wf(),
                pos.has_king(pos.side),
                ksq.wf(),
                ksq.idx() == pos.spec_king(pos.side),
                pinned.wf(),
                forall|s: int| pinned.has(s) == pos.pinned_pred(s),
                self.moves@ == raw,
                forall|j: int| 0 <= j < raw.len() ==> mv_wf(*pos, #[trigger] raw[j]),
                i <= raw.len(),
                out@ == mv_filter(*pos, raw.subrange(0, i as int)),
            decreases raw.len() - i,
        {
            let m = self.moves[i];
            let keep: bool;
            match pos.piece_on(m.from) {
                Option::Some(p) => {
                    if p.piece_type == PieceType::OU {
                        let abb = pos.attackers_to(pos.side_to_move().opponent(), m.to, at);
                        let emp = abb.is_empty();
                        proof {
                            if emp {
                                assert forall|s: int|
                                    !pos.attacks_to_pred(opp(pos.side), m.to.idx(), s) by {
                                    assert(!abb.has(s));
                                }
                            } else {
                                assert(exists|s: int| abb.has(s));
                                let w = choose|s: int| abb.has(s);
                                assert(pos.attacks_to_pred(opp(pos.side), m.to.idx(), w));
                            }
                        }
                        keep = emp;
                    } else if pinned.get(m.from) {
                        keep = bt.at(ksq, m.from).get(m.to) || bt.at(ksq, m.to).get(m.from);
                    } else {
                        keep = true;
                    }
                },
                Option::None => {
                    keep = true;
                },
            }
            proof {
                assert(keep == keep_pred(*pos, m));
            }
            if keep {
                out.push(m);
            }
            proof {
                let pre = raw.subrange(0, i as int);
                let post = raw.subrange(0, i as int + 1);
                assert(post.drop_last() =~= pre);
                assert(post.last() == m);
                assert(out@ =~= mv_filter(*pos, post));
            }
            i = i + 1;
        }
        proof {
            assert(raw.subrange(0, raw.len() as int) =~= raw);
        }
        self.moves = out;
    }
}

} // verus!
