//! The position the generator reads: side to move, the board, and the piece
//! bitboards, with the derived queries — attackers, checkers, pins.

use vstd::prelude::*;

use crate::bitboard::Bitboard;
use crate::bitboard::bb_and;
use crate::between::BetweenTable;
use crate::between::between_pred;
use crate::attacks::fu_deltas;
use crate::attacks::gi_deltas;
use crate::attacks::ka_deltas;
use crate::attacks::ke_deltas;
use crate::attacks::ki_deltas;
use crate::attacks::ou_deltas;
use crate::attacks::step_target;
use crate::tables::AttackTable;
use crate::tables::col_of;
use crate::tables::hi_att;
use crate::tables::ka_att;
use crate::tables::ky_att;
use crate::tables::lance_mask;
use crate::tables::mask_set;
use crate::types::Color;
use crate::types::Piece;
use crate::types::PieceType;
use crate::types::Square;
use crate::types::file_of;
use crate::types::opp;

verus! {

/// The piece type standing in type-table row `i`.
pub open spec fn pt_of(i: int) -> PieceType {
    if i == 0 {
        PieceType::FU
    } else if i == 1 {
        PieceType::KY
    } else if i == 2 {
        PieceType::KE
    } else if i == 3 {
        PieceType::GI
    } else if i == 4 {
        PieceType::KI
    } else if i == 5 {
        PieceType::KA
    } else if i == 6 {
        PieceType::HI
    } else if i == 7 {
        PieceType::OU
    } else if i == 8 {
        PieceType::TO
    } else if i == 9 {
        PieceType::NY
    } else if i == 10 {
        PieceType::NK
    } else if i == 11 {
        PieceType::NG
    } else if i == 12 {
        PieceType::UM
    } else if i == 13 {
        PieceType::RY
    } else {
        PieceType::OCCUPIED
    }
}

pub struct Position {
    pub side: Color,
    pub board: Vec<Option<Piece>>,
    pub color_bb: Vec<Bitboard>,
    pub type_bb: Vec<Bitboard>,
}

impl Position {
    /// The piece on square `s`, if any.
    pub open spec fn piece_at(self, s: int) -> Option<Piece> {
        if 0 <= s < 81 {
            self.board@[s]
        } else {
            Option::None
        }
    }

    pub open spec fn is_occ(self, s: int) -> bool {
        self.piece_at(s) is Some
    }

    pub open spec fn is_c(self, s: int, c: Color) -> bool {
        match self.piece_at(s) {
            Option::Some(p) => p.color == c,
            Option::None => false,
        }
    }

    pub open spec fn is_cp(self, s: int, c: Color, pt: PieceType) -> bool {
        match self.piece_at(s) {
            Option::Some(p) => p.color == c && p.piece_type == pt,
            Option::None => false,
        }
    }

    pub open spec fn is_pt(self, s: int, i: int) -> bool {
        match self.piece_at(s) {
            Option::Some(p) => p.piece_type.idx_spec() == i,
            Option::None => false,
        }
    }

    /// All occupied squares.
    pub open spec fn occ_set(self) -> Set<int> {
        Set::new(|s: int| self.is_occ(s))
    }

    pub open spec fn wf(self) -> bool {
        &&& self.board@.len() == 81
        &&& self.color_bb@.len() == 2
        &&& self.type_bb@.len() == 15
        &&& forall|s: int| !self.is_pt(s, 14)
        &&& forall|i: int| 0 <= i < 2 ==> (#[trigger] self.color_bb@[i]).wf()
        &&& forall|i: int| 0 <= i < 15 ==> (#[trigger] self.type_bb@[i]).wf()
        &&& forall|i: int, s: int|
            0 <= i < 2 ==> ((#[trigger] self.color_bb@[i].has(s)) == self.is_c(s, col_of(i)))
        &&& forall|i: int, s: int|
            0 <= i < 14 ==> ((#[trigger] self.type_bb@[i].has(s)) == self.is_pt(s, i))
        &&& forall|s: int| (#[trigger] self.type_bb@[14].has(s)) == self.is_occ(s)
    }

    pub open spec fn has_king(self, c: Color) -> bool {
        exists|s: int| self.is_cp(s, c, PieceType::OU)
    }

    /// The lowest square holding a king of `c`.
    pub open spec fn spec_king(self, c: Color) -> int {
        choose|s: int|
            self.is_cp(s, c, PieceType::OU) && forall|t: int|
                0 <= t < s ==> !self.is_cp(t, c, PieceType::OU)
    }

    /// Squares of `c`'s pieces that attack `sq` under the current occupancy.
    pub open spec fn attacks_to_pred(self, c: Color, sq: int, s: int) -> bool {
        let o = opp(c);
        let occ = self.occ_set();
        ||| (self.is_cp(s, c, PieceType::FU) && step_target(fu_deltas(o), sq, s))
        ||| (self.is_cp(s, c, PieceType::KE) && step_target(ke_deltas(o), sq, s))
        ||| (self.is_cp(s, c, PieceType::GI) && step_target(gi_deltas(o), sq, s))
        ||| (self.is_gold_like_at(s, c) && step_target(ki_deltas(o), sq, s))
        ||| (self.is_royalish_at(s, c) && step_target(ou_deltas(o), sq, s))
        ||| (self.is_cp(s, c, PieceType::KY) && ky_att(sq, o, occ).contains(s))
        ||| (self.is_bishopish_at(s, c) && ka_att(sq, occ).contains(s))
        ||| (self.is_rookish_at(s, c) && hi_att(sq, occ).contains(s))
    }

    pub open spec fn is_gold_like_at(self, s: int, c: Color) -> bool {
        match self.piece_at(s) {
            Option::Some(p) => p.color == c && p.piece_type.is_gold_like(),
            Option::None => false,
        }
    }

    pub open spec fn is_royalish_at(self, s: int, c: Color) -> bool {
        self.is_cp(s, c, PieceType::OU) || self.is_cp(s, c, PieceType::UM) || self.is_cp(
            s,
            c,
            PieceType::RY,
        )
    }

    pub open spec fn is_bishopish_at(self, s: int, c: Color) -> bool {
        self.is_cp(s, c, PieceType::KA) || self.is_cp(s, c, PieceType::UM)
    }

    pub open spec fn is_rookish_at(self, s: int, c: Color) -> bool {
        self.is_cp(s, c, PieceType::HI) || self.is_cp(s, c, PieceType::RY)
    }

    /// An enemy slider on `e` whose empty-board rays cover `k`.
    pub open spec fn slider_sees(self, e: int, k: int) -> bool {
        let c = opp(self.side);
        ||| (self.is_cp(e, c, PieceType::KY) && ky_att(e, c, Set::empty()).contains(k))
        ||| (self.is_bishopish_at(e, c) && ka_att(e, Set::empty()).contains(k))
        ||| (self.is_rookish_at(e, c) && hi_att(e, Set::empty()).contains(k))
    }

    /// The slider on `e` pins `s`: it sees the king on an empty board, and
    /// `s` is the only occupied square strictly between them.
    pub open spec fn pin_at(self, s: int, e: int) -> bool {
        &&& self.is_c(s, self.side)
        &&& self.slider_sees(e, self.spec_king(self.side))
        &&& forall|t: int|
            ((#[trigger] between_pred(e, self.spec_king(self.side), t)) && self.is_occ(t)) == (t
                == s)
    }

    /// A pin with its slider among the first `n` squares.
    pub open spec fn pinned_upto(self, s: int, n: int) -> bool
        decreases n,
    {
        if n <= 0 {
            false
        } else {
            self.pinned_upto(s, n - 1) || self.pin_at(s, n - 1)
        }
    }

    /// `s` holds a piece of the side to move that shields its king from an
    /// enemy slider, and is the only piece on that slider's line to the king.
    pub open spec fn pinned_pred(self, s: int) -> bool {
        self.pinned_upto(s, 81)
    }

    /// Builds a position from the side to move and the 81-square board.
    pub fn new(side: Color, board: Vec<Option<Piece>>) -> (r: Position)
        requires
            board@.len() == 81,
            forall|s: int|
                0 <= s < 81 ==> ((#[trigger] board@[s]) matches Option::Some(p) ==> p.piece_type
                    != PieceType::OCCUPIED),
        ensures
            r.wf(),
            r.side == side,
            r.board@ == board@,
    {
        let mut color_bb: Vec<Bitboard> = Vec::new();
        color_bb.push(scan_bb(&board, Option::Some(Color::Black), Option::None));
        color_bb.push(scan_bb(&board, Option::Some(Color::White), Option::None));
        let mut type_bb: Vec<Bitboard> = Vec::new();
        let mut i: usize = 0;
        while i < 14
            invariant
                board@.len() == 81,
                i <= 14,
                type_bb@.len() == i as int,
                forall|j: int| 0 <= j < i as int ==> (#[trigger] type_bb@[j]).wf(),
                forall|j: int, s: int|
                    0 <= j < i as int ==> ((#[trigger] type_bb@[j].has(s)) == (0 <= s < 81
                        && match board@[s] {
                        Option::Some(p) => p.piece_type.idx_spec() == j,
                        Option::None => false,
                    })),
            decreases 14 - i,
        {
            type_bb.push(scan_bb(&board, Option::None, Option::Some(pt_of_index(i))));
            i = i + 1;
        }
        type_bb.push(scan_bb(&board, Option::None, Option::None));
        let r = Position { side, board, color_bb, type_bb };
        proof {
            assert forall|i2: int, s: int| 0 <= i2 < 2 implies ((#[trigger] r.color_bb@[i2].has(s))
                == r.is_c(s, col_of(i2))) by {
                if i2 == 0 {
                } else {
                }
            }
        }
        r
    }

    pub fn side_to_move(&self) -> (r: Color)
        ensures
            r == self.side,
    {
        self.side
    }

    /// Bitboard of all pieces of `c`.
    pub fn pieces_c(&self, c: Color) -> (r: Bitboard)
        requires
            self.wf(),
        ensures
            r.wf(),
            forall|s: int| r.has(s) == self.is_c(s, c),
    {
        let r = self.color_bb[c.index()];
        proof {
            assert(col_of(c.idx_spec()) == c);
        }
        r
    }

    /// Bitboard of the pieces of `c` with type `pt`.
    pub fn pieces_cp(&self, c: Color, pt: PieceType) -> (r: Bitboard)
        requires
            self.wf(),
            pt != PieceType::OCCUPIED,
        ensures
            r.wf(),
            forall|s: int| r.has(s) == self.is_cp(s, c, pt),
    {
        let cb = self.color_bb[c.index()];
        let tb = self.type_bb[pt.index()];
        let r = cb.inter(&tb);
        proof {
            assert(col_of(c.idx_spec()) == c);
            assert forall|s: int| r.has(s) == self.is_cp(s, c, pt) by {
                match self.piece_at(s) {
                    Option::Some(p) => {
                        assert(p.piece_type.idx_spec() == pt.idx_spec() ==> p.piece_type == pt);
                    },
                    Option::None => {},
                }
            }
        }
        r
    }

    /// Bitboard of a piece type over both colors; `OCCUPIED` gives every
    /// occupied square.
    pub fn pieces_p(&self, pt: PieceType) -> (r: Bitboard)
        requires
            self.wf(),
        ensures
            r.wf(),
            pt == PieceType::OCCUPIED ==> forall|s: int| r.has(s) == self.is_occ(s),
            pt != PieceType::OCCUPIED ==> forall|s: int|
                r.has(s) == self.is_pt(s, pt.idx_spec()),
    {
        self.type_bb[pt.index()]
    }

    /// The piece on `sq`, if any.
    pub fn piece_on(&self, sq: Square) -> (r: Option<Piece>)
        requires
            self.wf(),
            sq.wf(),
        ensures
            r == self.piece_at(sq.idx()),
    {
        self.board[sq.index()]
    }

    /// The lowest square with a king of `c`.
    pub fn king_square(&self, c: Color) -> (r: Square)
        requires
            self.wf(),
            self.has_king(c),
        ensures
            r.wf(),
            r.idx() == self.spec_king(c),
            self.is_cp(r.idx(), c, PieceType::OU),
    {
        let bb = self.pieces_cp(c, PieceType::OU);
        let found = bb.first();
        proof {
            let w = choose|s: int| self.is_cp(s, c, PieceType::OU);
            assert(bb.has(w));
        }
        match found {
            Option::Some(sq) => {
                proof {
                    let ki = sq.idx();
                    assert(self.is_cp(ki, c, PieceType::OU));
                    assert forall|t: int| 0 <= t < ki implies !self.is_cp(t, c, PieceType::OU) by {
                        assert(!bb.has(t));
                    }
                    assert(self.is_cp(ki, c, PieceType::OU) && (forall|t: int|
                        0 <= t < ki ==> !self.is_cp(t, c, PieceType::OU)));
                    let k = self.spec_king(c);
                    assert(self.is_cp(k, c, PieceType::OU) && (forall|t: int|
                        0 <= t < k ==> !self.is_cp(t, c, PieceType::OU)));
                    assert(0 <= k < 81);
                    if k < ki {
                        assert(!self.is_cp(k, c, PieceType::OU));
                    }
                    if ki < k {
                        assert(!self.is_cp(ki, c, PieceType::OU));
                    }
                    assert(k == ki);
                }
                sq
            },
            Option::None => {
                proof {
                    assert(false);
                }
                Square(0)
            },
        }
    }

    /// Bitboard of `c`'s pieces attacking `sq`.
    pub fn attackers_to(&self, c: Color, sq: Square, at: &AttackTable) -> (r: Bitboard)
        requires
            self.wf(),
            at.wf(),
            sq.wf(),
        ensures
            r.wf(),
            forall|s: int| r.has(s) == self.attacks_to_pred(c, sq.idx(), s),
    {
        let o = c.opponent();
        let occ = self.pieces_p(PieceType::OCCUPIED);
        let fu = at.fu.attack(sq, o).inter(&self.pieces_cp(c, PieceType::FU));
        let ke = at.ke.attack(sq, o).inter(&self.pieces_cp(c, PieceType::KE));
        let gi = at.gi.attack(sq, o).inter(&self.pieces_cp(c, PieceType::GI));
        let golds = self.pieces_cp(c, PieceType::KI).union(
            &self.pieces_cp(c, PieceType::TO),
        ).union(&self.pieces_cp(c, PieceType::NY)).union(
            &self.pieces_cp(c, PieceType::NK),
        ).union(&self.pieces_cp(c, PieceType::NG));
        let ki = at.ki.attack(sq, o).inter(&golds);
        let royals = self.pieces_cp(c, PieceType::OU).union(
            &self.pieces_cp(c, PieceType::UM),
        ).union(&self.pieces_cp(c, PieceType::RY));
        let ou = at.ou.attack(sq, o).inter(&royals);
        let ky = at.ky.attack(sq, o, &occ).inter(&self.pieces_cp(c, PieceType::KY));
        let kab = at.ka.attack(sq, &occ).inter(
            &self.pieces_cp(c, PieceType::KA).union(&self.pieces_cp(c, PieceType::UM)),
        );
        let hib = at.hi.attack(sq, &occ).inter(
            &self.pieces_cp(c, PieceType::HI).union(&self.pieces_cp(c, PieceType::RY)),
        );
        let r = fu.union(&ke).union(&gi).union(&ki).union(&ou).union(&ky).union(&kab).union(&hib);
        proof {
            assert(forall|s: int| self.occ_set().contains(s) ==> 0 <= s < 81);
            assert(forall|s: int| occ.has(s) == self.occ_set().contains(s));
            crate::tables::lemma_lance_masked(occ, self.occ_set(), file_of(sq.idx()));
            crate::tables::lemma_slider_masked(
                occ,
                at.ka.spec_mask(sq.idx()),
                self.occ_set(),
                ka_deltas(),
                sq.idx(),
            );
            crate::tables::lemma_slider_masked(
                occ,
                at.hi.spec_mask(sq.idx()),
                self.occ_set(),
                crate::attacks::hi_deltas(),
                sq.idx(),
            );
        }
        r
    }

    /// Whether the side to move's king is attacked.
    pub fn in_check(&self, at: &AttackTable) -> (r: bool)
        requires
            self.wf(),
            at.wf(),
            self.has_king(self.side),
        ensures
            r == exists|s: int|
                self.attacks_to_pred(opp(self.side), self.spec_king(self.side), s),
    {
        let cb = self.checkers(at);
        let b = cb.is_empty();
        proof {
            if !b {
                assert(exists|s: int| cb.has(s));
                let w = choose|s: int| cb.has(s);
                assert(self.attacks_to_pred(opp(self.side), self.spec_king(self.side), w));
            }
            if exists|s: int|
                self.attacks_to_pred(opp(self.side), self.spec_king(self.side), s) {
                let w = choose|s: int|
                    self.attacks_to_pred(opp(self.side), self.spec_king(self.side), s);
                assert(cb.has(w));
            }
        }
        !b
    }

    /// Bitboard of the enemy pieces attacking the side to move's king.
    pub fn checkers(&self, at: &AttackTable) -> (r: Bitboard)
        requires
            self.wf(),
            at.wf(),
            self.has_king(self.side),
        ensures
            r.wf(),
            forall|s: int|
                r.has(s) == self.attacks_to_pred(opp(self.side), self.spec_king(self.side), s),
    {
        let k = self.king_square(self.side);
        self.attackers_to(self.side.opponent(), k, at)
    }

    /// Bitboard of the side to move's pieces pinned to their king.
    pub fn pinned(&self, at: &AttackTable, bt: &BetweenTable) -> (r: Bitboard)
        requires
            self.wf(),
            at.wf(),
            bt.wf(),
            self.has_king(self.side),
        ensures
            r.wf(),
            forall|s: int| r.has(s) == self.pinned_pred(s),
    {
        let ksq = self.king_square(self.side);
        let ec = self.side.opponent();
        let occ = self.pieces_p(PieceType::OCCUPIED);
        let own = self.pieces_c(self.side);
        let empty = Bitboard::empty();
        let mut r = Bitboard::empty();
        let mut e: u8 = 0;
        while e < 81
            invariant
                self.wf(),
                at.wf(),
                bt.wf(),
                self.has_king(self.side),
                r.wf(),
                e <= 81,
                ksq.wf(),
                ksq.idx() == self.spec_king(self.side),
                ec == opp(self.side),
                occ.wf(),
                forall|s: int| occ.has(s) == self.is_occ(s),
                own.wf(),
                forall|s: int| own.has(s) == self.is_c(s, self.side),
                empty.wf(),
                empty == crate::bitboard::bb_empty(),
                forall|s: int| !empty.has(s),
                forall|s: int| r.has(s) == self.pinned_upto(s, e as int),
            decreases 81 - e,
        {
            let ghost k = ksq.idx();
            let esq = Square(e);
            let sees: bool;
            match self.piece_on(esq) {
                Option::Some(p) => {
                    if p.color == ec {
                        if p.piece_type == PieceType::KY {
                            let pa = at.ky.attack(esq, ec, &empty);
                            proof {
                                crate::tables::lemma_lance_masked(
                                    empty,
                                    Set::empty(),
                                    file_of(esq.idx()),
                                );
                            }
                            sees = pa.get(ksq);
                        } else if p.piece_type == PieceType::KA || p.piece_type == PieceType::UM {
                            let pa = at.ka.pseudo_attack(esq);
                            proof {
                                crate::bitboard::lemma_bb_empty_has();
                                assert(crate::bitboard::bb_empty().sqs() =~= Set::<
                                    int,
                                >::empty().intersect(mask_set(esq.idx(), ka_deltas())));
                            }
                            sees = pa.get(ksq);
                        } else if p.piece_type == PieceType::HI || p.piece_type == PieceType::RY {
                            let pa = at.hi.pseudo_attack(esq);
                            proof {
                                crate::bitboard::lemma_bb_empty_has();
                                assert(crate::bitboard::bb_empty().sqs() =~= Set::<
                                    int,
                                >::empty().intersect(
                                    mask_set(esq.idx(), crate::attacks::hi_deltas()),
                                ));
                            }
                            sees = pa.get(ksq);
                        } else {
                            sees = false;
                        }
                    } else {
                        sees = false;
                    }
                },
                Option::None => {
                    sees = false;
                },
            }
            proof {
                assert(sees == self.slider_sees(e as int, k));
            }
            let ghost pre = r;
            let btw = bt.at(esq, ksq);
            let btwocc = btw.inter(&occ);
            let cnt = btwocc.count();
            if sees && cnt == 1 {
                match btwocc.first() {
                    Option::Some(s0) => {
                        proof {
                            assert(btwocc.has(s0.idx()) && self.is_occ(s0.idx()));
                            assert forall|t: int|
                                (between_pred(e as int, k, t) && self.is_occ(t)) == (t
                                    == s0.idx()) by {
                                if t != s0.idx() && between_pred(e as int, k, t) && self.is_occ(
                                    t,
                                ) {
                                    let pair = Set::<int>::empty().insert(s0.idx()).insert(t);
                                    assert(btwocc.sqs().contains(s0.idx()) && btwocc.sqs().contains(
                                    t));
                                    assert(pair.subset_of(btwocc.sqs()));
                                    assert(btwocc.sqs().finite());
                                    vstd::set_lib::lemma_len_subset(pair, btwocc.sqs());
                                }
                            }
                        }
                        let addit = own.get(s0);
                        if addit {
                            r = r.insert(s0);
                        }
                        proof {
                            assert(forall|x: int| r.has(x) ==> (pre.has(x) || x == s0.idx()));
                            if addit {
                                assert(self.pin_at(s0.idx(), e as int));
                                assert(self.pinned_upto(s0.idx(), e as int + 1));
                            }
                            assert forall|s2: int|
                                ((#[trigger] self.is_c(s2, self.side)) && (forall|t: int|
                                    (between_pred(e as int, k, t) && self.is_occ(t)) == (t
                                        == s2))) implies r.has(s2) by {
                                assert((between_pred(e as int, k, s0.idx()) && self.is_occ(
                                    s0.idx(),
                                )) == (s0.idx() == s2));
                                assert(s2 == s0.idx());
                            }
                        }
                    },
                    Option::None => {
                        proof {
                            assert(btwocc.sqs() =~= Set::<int>::empty());
                            assert(false);
                        }
                    },
                }
            }
            proof {
                assert forall|s: int| r.has(s) == self.pinned_upto(s, e as int + 1) by {
                    if pre.has(s) {
                        assert(self.pinned_upto(s, e as int));
                        assert(r.has(s));
                    }
                    if !pre.has(s) && r.has(s) {
                        assert(self.pinned_upto(s, e as int + 1));
                    }
                    if !r.has(s) && self.pinned_upto(s, e as int + 1) {
                        if self.pinned_upto(s, e as int) {
                            assert(pre.has(s));
                        } else {
                            assert(self.pin_at(s, e as int));
                            assert(sees);
                            assert(between_pred(e as int, self.spec_king(self.side), s)
                                && self.is_occ(s));
                            assert(between_pred(e as int, k, s));
                            assert(0 <= s < 81);
                            assert(btwocc.sqs() =~= Set::<int>::empty().insert(s));
                            assert(cnt == 1);
                            assert(self.is_c(s, self.side));
                        }
                        assert(false);
                    }
                }
            }
            e = e + 1;
        }
        r
    }
}

/// The piece type of type-table row `i`.
pub fn pt_of_index(i: usize) -> (r: PieceType)
    requires
        i < 15,
    ensures
        r == pt_of(i as int),
        r.idx_spec() == i as int,
{
    if i == 0 {
        PieceType::FU
    } else if i == 1 {
        PieceType::KY
    } else if i == 2 {
        PieceType::KE
    } else if i == 3 {
        PieceType::GI
    } else if i == 4 {
        PieceType::KI
    } else if i == 5 {
        PieceType::KA
    } else if i == 6 {
        PieceType::HI
    } else if i == 7 {
        PieceType::OU
    } else if i == 8 {
        PieceType::TO
    } else if i == 9 {
        PieceType::NY
    } else if i == 10 {
        PieceType::NK
    } else if i == 11 {
        PieceType::NG
    } else if i == 12 {
        PieceType::UM
    } else if i == 13 {
        PieceType::RY
    } else {
        PieceType::OCCUPIED
    }
}

/// Bitboard of the board squares whose piece matches the given color and type
/// filters.
fn scan_bb(board: &Vec<Option<Piece>>, c: Option<Color>, pt: Option<PieceType>) -> (r: Bitboard)
    requires
        board@.len() == 81,
    ensures
        r.wf(),
        forall|s: int|
            r.has(s) == (0 <= s < 81 && match board@[s] {
                Option::Some(p) => (c matches Option::Some(cv) ==> p.color == cv) && (
                pt matches Option::Some(pv) ==> p.piece_type == pv),
                Option::None => false,
            }),
{
    let mut r = Bitboard::empty();
    let mut s: u8 = 0;
    while s < 81
        invariant
            board@.len() == 81,
            r.wf(),
            s <= 81,
            forall|x: int|
                r.has(x) == (0 <= x < s as int && match board@[x] {
                    Option::Some(p) => (c matches Option::Some(cv) ==> p.color == cv) && (
                    pt matches Option::Some(pv) ==> p.piece_type == pv),
                    Option::None => false,
                }),
        decreases 81 - s,
    {
        let keep = match board[s as usize] {
            Option::Some(p) => {
                let cok = match c {
                    Option::Some(cv) => p.color == cv,
                    Option::None => true,
                };
                let pok = match pt {
                    Option::Some(pv) => p.piece_type == pv,
                    Option::None => true,
                };
                cok && pok
            },
            Option::None => false,
        };
        if keep {
            r = r.insert(Square(s));
        }
        s = s + 1;
    }
    r
}

} // verus!
