//! A set of board squares, held in two 64-bit lanes: lane `lo` holds squares
//! `0 .. 63` (files 0..6), lane `hi` holds squares `63 .. 81` (files 7..8), at
//! bit `s - 63`.

use vstd::prelude::*;

use crate::types::Square;
use vstd::assert_sets_equal;

verus! {

/// A board square index: `file * 9 + rank`, in `0 .. 81`.
pub open spec fn is_square(s: int) -> bool {
    0 <= s < 81
}

/// The empty bitboard, as a value.
pub open spec fn bb_empty() -> Bitboard {
    Bitboard { lo: 0u64, hi: 0u64 }
}

/// Intersection of two bitboards, lane by lane.
pub open spec fn bb_and(a: Bitboard, b: Bitboard) -> Bitboard {
    Bitboard { lo: a.lo & b.lo, hi: a.hi & b.hi }
}

#[derive(Clone, Copy, PartialEq, Eq, Structural, Debug)]
pub struct Bitboard {
    pub lo: u64,
    pub hi: u64,
}

proof fn lemma_lane_ops()
    by (bit_vector)
    ensures
        forall|a: u64, b: u64, x: u64|
            ((#[trigger] ((a | b) >> x)) & 1 == 1) == (((a >> x) & 1 == 1) || ((b >> x) & 1
                == 1)),
        forall|a: u64, b: u64, x: u64|
            ((#[trigger] ((a & b) >> x)) & 1 == 1) == (((a >> x) & 1 == 1) && ((b >> x) & 1
                == 1)),
        forall|a: u64, b: u64, x: u64|
            ((#[trigger] ((a & !b) >> x)) & 1 == 1) == (((a >> x) & 1 == 1) && !((b >> x) & 1
                == 1)),
        forall|x: u64| (0u64 >> x) & 1 != 1,
        forall|a: u64, y: u64, x: u64|
            y < 64 ==> (((#[trigger] ((a | (1u64 << y)) >> x)) & 1 == 1) == (((a >> x) & 1 == 1)
                || x == y)),
        forall|a: u64, b: u64, k: u64|
            (a >> k == 0 && b >> k == 0) ==> (#[trigger] ((a | b) >> k)) == 0,
        forall|a: u64, b: u64, k: u64| a >> k == 0 ==> (#[trigger] ((a & b) >> k)) == 0,
        forall|a: u64, b: u64, k: u64| a >> k == 0 ==> (#[trigger] ((a & !b) >> k)) == 0,
        forall|a: u64, y: u64, k: u64|
            (a >> k == 0 && y < k && k <= 63) ==> (#[trigger] ((a | (1u64 << y)) >> k)) == 0,
{
}

impl Bitboard {
    /// Both lanes hold only their live bits: 63 in `lo`, 18 in `hi`.
    pub open spec fn wf(self) -> bool {
        self.lo >> 63u64 == 0 && self.hi >> 18u64 == 0
    }

    /// Whether square `s` is in the set.
    pub open spec fn has(self, s: int) -> bool {
        if 0 <= s < 63 {
            (self.lo >> (s as u64)) & 1 == 1
        } else if 63 <= s < 81 {
            (self.hi >> ((s - 63) as u64)) & 1 == 1
        } else {
            false
        }
    }

    /// The set of squares, as a mathematical set.
    pub open spec fn sqs(self) -> Set<int> {
        Set::new(|s: int| is_square(s) && self.has(s))
    }

    pub fn empty() -> (r: Bitboard)
        ensures
            r.wf(),
            r == bb_empty(),
            forall|s: int| !r.has(s),
    {
        proof {
            lemma_lane_ops();
            assert(0u64 >> 63u64 == 0 && 0u64 >> 18u64 == 0) by (bit_vector);
        }
        Bitboard { lo: 0, hi: 0 }
    }

    /// Every board square.
    pub fn full() -> (r: Bitboard)
        ensures
            r.wf(),
            forall|s: int| r.has(s) == is_square(s),
    {
        proof {
            assert(0x7fff_ffff_ffff_ffffu64 >> 63u64 == 0 && 0x3ffffu64 >> 18u64 == 0)
                by (bit_vector);
            assert(forall|x: u64| x < 63 ==> (0x7fff_ffff_ffff_ffffu64 >> x) & 1 == 1)
                by (bit_vector);
            assert(forall|x: u64| x < 18 ==> (0x3ffffu64 >> x) & 1 == 1) by (bit_vector);
        }
        Bitboard { lo: 0x7fff_ffff_ffff_ffff, hi: 0x3ffff }
    }

    pub fn get(&self, sq: Square) -> (r: bool)
        requires
            sq.wf(),
        ensures
            r == self.has(sq.idx()),
    {
        if sq.0 < 63 {
            (self.lo >> (sq.0 as u64)) & 1 == 1
        } else {
            (self.hi >> ((sq.0 - 63) as u64)) & 1 == 1
        }
    }

    pub fn insert(&self, sq: Square) -> (r: Bitboard)
        requires
            self.wf(),
            sq.wf(),
        ensures
            r.wf(),
            forall|s: int| r.has(s) == (self.has(s) || s == sq.idx()),
    {
        proof {
            lemma_lane_ops();
        }
        if sq.0 < 63 {
            Bitboard { lo: self.lo | (1u64 << (sq.0 as u64)), hi: self.hi }
        } else {
            Bitboard { lo: self.lo, hi: self.hi | (1u64 << ((sq.0 - 63) as u64)) }
        }
    }

    pub fn union(&self, o: &Bitboard) -> (r: Bitboard)
        requires
            self.wf(),
            o.wf(),
        ensures
            r.wf(),
            forall|s: int| r.has(s) == (self.has(s) || o.has(s)),
    {
        proof {
            lemma_lane_ops();
        }
        Bitboard { lo: self.lo | o.lo, hi: self.hi | o.hi }
    }

    pub fn inter(&self, o: &Bitboard) -> (r: Bitboard)
        requires
            self.wf(),
            o.wf(),
        ensures
            r.wf(),
            forall|s: int| r.has(s) == (self.has(s) && o.has(s)),
    {
        proof {
            lemma_lane_ops();
        }
        Bitboard { lo: self.lo & o.lo, hi: self.hi & o.hi }
    }

    /// The squares of `self` that are not in `o`.
    pub fn diff(&self, o: &Bitboard) -> (r: Bitboard)
        requires
            self.wf(),
            o.wf(),
        ensures
            r.wf(),
            forall|s: int| r.has(s) == (self.has(s) && !o.has(s)),
    {
        proof {
            lemma_lane_ops();
        }
        Bitboard { lo: self.lo & !o.lo, hi: self.hi & !o.hi }
    }

    pub fn is_empty(&self) -> (r: bool)
        requires
            self.wf(),
        ensures
            r == (forall|s: int| !self.has(s)),
    {
        proof {
            lemma_lane_ops();
            let lo = self.lo;
            let hi = self.hi;
            if lo != 0 {
                lemma_exists_bit(lo);
                let x = choose|x: u64| x < 64 && (lo >> x) & 1 == 1;
                assert(x < 63) by (bit_vector)
                    requires (lo >> x) & 1 == 1, lo >> 63u64 == 0, x < 64;
                assert(self.has(x as int));
            }
            if hi != 0 {
                lemma_exists_bit(hi);
                let x = choose|x: u64| x < 64 && (hi >> x) & 1 == 1;
                assert(x < 18) by (bit_vector)
                    requires (hi >> x) & 1 == 1, hi >> 18u64 == 0, x < 64;
                assert(self.has(x + 63));
            }
        }
        self.lo == 0 && self.hi == 0
    }

    /// The lowest square of the set, if any.
    pub fn first(&self) -> (r: Option<Square>)
        requires
            self.wf(),
        ensures
            match r {
                Option::Some(sq) => sq.wf() && self.has(sq.idx()) && forall|t: int|
                    0 <= t < sq.idx() ==> !self.has(t),
                Option::None => forall|s: int| !self.has(s),
            },
    {
        let mut i: u8 = 0;
        while i < 81
            invariant
                i <= 81,
                forall|t: int| 0 <= t < i ==> !self.has(t),
            decreases 81 - i,
        {
            if self.get(Square(i)) {
                return Option::Some(Square(i));
            }
            i = i + 1;
        }
        Option::None
    }

    /// How many squares the set holds.
    pub fn count(&self) -> (r: u8)
        requires
            self.wf(),
        ensures
            r == self.sqs().len(),
            self.sqs().finite(),
    {
        let mut i: u8 = 0;
        let mut c: u8 = 0;
        proof {
            assert_sets_equal!(Set::new(|s: int| is_square(s) && 0 <= s < 0 && self.has(s)) == Set::<int>::empty());
        }
        while i < 81
            invariant
                self.wf(),
                i <= 81,
                c <= i,
                Set::new(|s: int| is_square(s) && 0 <= s < i as int && self.has(s)).finite(),
                c == Set::new(|s: int| is_square(s) && 0 <= s < i as int && self.has(s)).len(),
            decreases 81 - i,
        {
            let ghost pre = Set::new(|s: int| is_square(s) && 0 <= s < i as int && self.has(s));
            let ghost post = Set::new(
                |s: int| is_square(s) && 0 <= s < i as int + 1 && self.has(s),
            );
            if self.get(Square(i)) {
                proof {
                    assert_sets_equal!(post == pre.insert(i as int));
                }
                c = c + 1;
            } else {
                proof {
                    assert_sets_equal!(post == pre);
                }
            }
            i = i + 1;
        }
        proof {
            assert_sets_equal!(Set::new(|s: int| is_square(s) && 0 <= s < 81 && self.has(s)) == self.sqs());
        }
        c
    }
}

/// Lane-wise intersection matches square membership.
pub proof fn lemma_bb_and_has(a: Bitboard, b: Bitboard)
    ensures
        forall|s: int| bb_and(a, b).has(s) == (a.has(s) && b.has(s)),
{
    lemma_lane_ops();
}

/// The empty bitboard holds no square.
pub proof fn lemma_bb_empty_has()
    ensures
        forall|s: int| !bb_empty().has(s),
{
    assert(forall|x: u64| (0u64 >> x) & 1 != 1) by (bit_vector);
}

/// Two well-formed bitboards with the same squares are the same value.
pub proof fn lemma_bb_ext(a: Bitboard, b: Bitboard)
    requires
        a.wf(),
        b.wf(),
        forall|s: int| a.has(s) == b.has(s),
    ensures
        a == b,
{
    lemma_lane_ops();
    let al = a.lo;
    let bl = b.lo;
    let ah = a.hi;
    let bh = b.hi;
    if a.lo != b.lo {
        let d = al ^ bl;
        assert(d != 0) by (bit_vector)
            requires d == al ^ bl, al != bl;
        lemma_exists_bit(d);
        let x = choose|x: u64| x < 64 && (d >> x) & 1 == 1;
        assert(x < 63 && ((al >> x) & 1 == 1) != ((bl >> x) & 1 == 1)) by (bit_vector)
            requires
                ((al ^ bl) >> x) & 1 == 1,
                x < 64,
                al >> 63u64 == 0,
                bl >> 63u64 == 0,
        ;
        assert(a.has(x as int) != b.has(x as int));
    }
    if a.hi != b.hi {
        let d = ah ^ bh;
        assert(d != 0) by (bit_vector)
            requires d == ah ^ bh, ah != bh;
        lemma_exists_bit(d);
        let x = choose|x: u64| x < 64 && (d >> x) & 1 == 1;
        assert(x < 18 && ((ah >> x) & 1 == 1) != ((bh >> x) & 1 == 1)) by (bit_vector)
            requires
                ((ah ^ bh) >> x) & 1 == 1,
                x < 64,
                ah >> 18u64 == 0,
                bh >> 18u64 == 0,
        ;
        assert(a.has(x + 63) != b.has(x + 63));
    }
}

/// A non-zero word has a set bit.
proof fn lemma_exists_bit(m: u64)
    requires
        m != 0,
    ensures
        exists|x: u64| x < 64 && (m >> x) & 1 == 1,
    decreases m,
{
    if m & 1 == 1 {
        assert((m >> 0u64) & 1 == 1) by (bit_vector)
            requires m & 1 == 1;
        assert(0u64 < 64 && (m >> 0u64) & 1 == 1);
    } else {
        assert(m >> 1 < m && m >> 1 != 0) by (bit_vector)
            requires m != 0, m & 1 != 1;
        lemma_exists_bit(m >> 1);
        let x = choose|x: u64| x < 64 && ((m >> 1) >> x) & 1 == 1;
        assert((m >> (x + 1)) & 1 == 1 && x + 1 < 64) by (bit_vector)
            requires ((m >> 1) >> x) & 1 == 1, x < 64, m >> 1 < m;
    }
}

} // verus!
