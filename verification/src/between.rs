//! The between table: for any two aligned squares, the open squares strictly
//! between them.

use vstd::prelude::*;

use crate::bitboard::Bitboard;
use crate::types::Square;
use crate::types::file_of;
use crate::types::rank_of;

verus! {

pub open spec fn sgn(x: int) -> int {
    if x > 0 {
        1
    } else if x < 0 {
        -1
    } else {
        0
    }
}

pub open spec fn absi(x: int) -> int {
    if x >= 0 {
        x
    } else {
        -x
    }
}

pub open spec fn maxi(a: int, b: int) -> int {
    if a >= b {
        a
    } else {
        b
    }
}

/// Two distinct squares on one file, one rank, or one diagonal.
pub open spec fn aligned(a: int, b: int) -> bool {
    let df = file_of(b) - file_of(a);
    let dr = rank_of(b) - rank_of(a);
    a != b && (df == 0 || dr == 0 || absi(df) == absi(dr))
}

/// The number of king steps along the line from `a` to `b`.
pub open spec fn line_dist(a: int, b: int) -> int {
    maxi(absi(file_of(b) - file_of(a)), absi(rank_of(b) - rank_of(a)))
}

/// `t` lies strictly between `a` and `b` on their common line.
pub open spec fn between_pred(a: int, b: int, t: int) -> bool {
    &&& aligned(a, b)
    &&& aligned(a, t)
    &&& sgn(file_of(t) - file_of(a)) == sgn(file_of(b) - file_of(a))
    &&& sgn(rank_of(t) - rank_of(a)) == sgn(rank_of(b) - rank_of(a))
    &&& line_dist(a, t) < line_dist(a, b)
}

/// The open segment is the same seen from either end.
pub proof fn lemma_between_symmetric(a: int, b: int)
    requires
        0 <= a < 81,
        0 <= b < 81,
    ensures
        forall|t: int| between_pred(a, b, t) == between_pred(b, a, t),
{
    assert forall|t: int| between_pred(a, b, t) implies between_pred(b, a, t) by {
        lemma_between_one_way(a, b, t);
    }
    assert forall|t: int| between_pred(b, a, t) implies between_pred(a, b, t) by {
        lemma_between_one_way(b, a, t);
    }
}

proof fn lemma_between_one_way(a: int, b: int, t: int)
    requires
        between_pred(a, b, t),
    ensures
        between_pred(b, a, t),
{
    let fa = file_of(a);
    let ra = rank_of(a);
    let fb = file_of(b);
    let rb = rank_of(b);
    let ft = file_of(t);
    let rt = rank_of(t);
    assert(a == 9 * (a / 9) + a % 9 && b == 9 * (b / 9) + b % 9 && t == 9 * (t / 9) + t % 9)
        by (nonlinear_arith);
}

/// The open squares strictly between `a` and `b`, as a set.
pub open spec fn between_set(a: int, b: int) -> Set<int> {
    Set::new(|t: int| between_pred(a, b, t))
}

/// The prefix of the segment within `u` king steps of `a`.
spec fn seg_upto(a: int, b: int, u: int) -> Set<int> {
    Set::new(|t: int| between_pred(a, b, t) && line_dist(a, t) <= u)
}

/// A square equals the square of its own file and rank.
proof fn lemma_sq_id(t: int)
    ensures
        t == 9 * (t / 9) + t % 9,
{
    assert(t == 9 * (t / 9) + t % 9) by (nonlinear_arith);
}

/// The coordinates of an in-board square pair.
proof fn lemma_coords(f: int, r: int)
    requires
        0 <= f < 9,
        0 <= r < 9,
    ensures
        0 <= f * 9 + r < 81,
        file_of(f * 9 + r) == f,
        rank_of(f * 9 + r) == r,
{
    assert(0 <= f * 9 + r < 81 && (f * 9 + r) / 9 == f && (f * 9 + r) % 9 == r)
        by (nonlinear_arith)
        requires 0 <= f < 9, 0 <= r < 9;
}

proof fn lemma_seg_card_upto(a: int, b: int, u: int)
    requires
        0 <= a < 81,
        0 <= b < 81,
        aligned(a, b),
        0 <= u < line_dist(a, b),
    ensures
        seg_upto(a, b, u).finite(),
        seg_upto(a, b, u).len() == u,
    decreases u,
{
    let fa = file_of(a);
    let ra = rank_of(a);
    let sf = sgn(file_of(b) - fa);
    let sr = sgn(rank_of(b) - ra);
    let n = line_dist(a, b);
    if u == 0 {
        assert forall|t: int| !(between_pred(a, b, t) && line_dist(a, t) <= 0) by {
            if between_pred(a, b, t) && line_dist(a, t) <= 0 {
                lemma_sq_id(t);
                lemma_sq_id(a);
            }
        }
        assert(seg_upto(a, b, u) =~= Set::<int>::empty());
    } else {
        lemma_seg_card_upto(a, b, u - 1);
        let ft = if sf == 1 {
            fa + u
        } else if sf == -1 {
            fa - u
        } else {
            fa
        };
        let rt = if sr == 1 {
            ra + u
        } else if sr == -1 {
            ra - u
        } else {
            ra
        };
        lemma_coords(ft, rt);
        let tu = ft * 9 + rt;
        assert(between_pred(a, b, tu) && line_dist(a, tu) == u);
        assert forall|t: int|
            (between_pred(a, b, t) && line_dist(a, t) == u) implies t == tu by {
            lemma_sq_id(t);
        }
        assert(seg_upto(a, b, u) =~= seg_upto(a, b, u - 1).insert(tu));
        assert(!seg_upto(a, b, u - 1).contains(tu));
    }
}

/// For aligned distinct squares, the open segment holds exactly
/// `max(|file delta|, |rank delta|) - 1` squares.
pub proof fn lemma_between_count(a: int, b: int)
    requires
        0 <= a < 81,
        0 <= b < 81,
        aligned(a, b),
    ensures
        between_set(a, b).finite(),
        between_set(a, b).len() == line_dist(a, b) - 1,
{
    lemma_sq_id(a);
    lemma_sq_id(b);
    let n = line_dist(a, b);
    assert(1 <= n);
    lemma_seg_card_upto(a, b, n - 1);
    assert(between_set(a, b) =~= seg_upto(a, b, n - 1));
}

/// No square lies between a square and itself.
pub proof fn lemma_between_self(a: int)
    ensures
        forall|t: int| !between_pred(a, a, t),
{
}

/// Table of the open segment between any two squares; empty when they are not
/// aligned.
pub struct BetweenTable {
    pub table: Vec<Vec<Bitboard>>,
}

impl BetweenTable {
    pub open spec fn wf(self) -> bool {
        &&& self.table@.len() == 81
        &&& forall|a: int| 0 <= a < 81 ==> (#[trigger] self.table@[a])@.len() == 81
        &&& forall|a: int, b: int|
            0 <= a < 81 && 0 <= b < 81 ==> (#[trigger] self.table@[a]@[b]).wf()
        &&& forall|a: int, b: int, t: int|
            0 <= a < 81 && 0 <= b < 81 ==> ((#[trigger] self.table@[a]@[b].has(t)) == between_pred(
                a,
                b,
                t,
            ))
    }

    /// The open squares strictly between `a` and `b`.
    pub fn at(&self, a: Square, b: Square) -> (r: Bitboard)
        requires
            self.wf(),
            a.wf(),
            b.wf(),
        ensures
            r.wf(),
            forall|t: int| r.has(t) == between_pred(a.idx(), b.idx(), t),
    {
        self.table[a.index()][b.index()]
    }

    fn segment(a: Square, b: Square) -> (r: Bitboard)
        requires
            a.wf(),
            b.wf(),
        ensures
            r.wf(),
            forall|t: int| r.has(t) == between_pred(a.idx(), b.idx(), t),
    {
        let fa = a.file() as i16;
        let ra = a.rank() as i16;
        let fb = b.file() as i16;
        let rb = b.rank() as i16;
        let df = fb - fa;
        let dr = rb - ra;
        let mut r = Bitboard::empty();
        let adf = if df >= 0 {
            df
        } else {
            -df
        };
        let adr = if dr >= 0 {
            dr
        } else {
            -dr
        };
        if a.0 == b.0 || (df != 0 && dr != 0 && adf != adr) {
            proof {
                assert(forall|t: int| !between_pred(a.idx(), b.idx(), t));
            }
            return r;
        }
        let sf: i16 = if df > 0 {
            1
        } else if df < 0 {
            -1
        } else {
            0
        };
        let sr: i16 = if dr > 0 {
            1
        } else if dr < 0 {
            -1
        } else {
            0
        };
        let n = if adf >= adr {
            adf
        } else {
            adr
        };
        let mut u: i16 = 1;
        let mut cf = fa + sf;
        let mut cr = ra + sr;
        while u < n
            invariant
                a.wf(),
                b.wf(),
                r.wf(),
                fa == file_of(a.idx()),
                ra == rank_of(a.idx()),
                fb == file_of(b.idx()),
                rb == rank_of(b.idx()),
                aligned(a.idx(), b.idx()),
                sf == sgn(fb - fa),
                sr == sgn(rb - ra),
                n == line_dist(a.idx(), b.idx()),
                1 <= u <= n,
                cf == fa + u * sf,
                cr == ra + u * sr,
                forall|t: int|
                    r.has(t) == (between_pred(a.idx(), b.idx(), t) && line_dist(a.idx(), t) < u),
            decreases n - u,
        {
            proof {
                assert(0 <= cf < 9 && 0 <= cr < 9 && 0 <= cf * 9 + cr < 81 && file_of(
                    cf * 9 + cr,
                ) == cf && rank_of(cf * 9 + cr) == cr && absi(cf - fa) == (if sf == 0 {
                    0int
                } else {
                    u as int
                }) && absi(cr - ra) == (if sr == 0 {
                    0int
                } else {
                    u as int
                })) by (nonlinear_arith)
                    requires
                        cf == fa + u * sf,
                        cr == ra + u * sr,
                        sf == sgn(fb - fa),
                        sr == sgn(rb - ra),
                        0 <= fa < 9,
                        0 <= ra < 9,
                        0 <= fb < 9,
                        0 <= rb < 9,
                        1 <= u,
                        u < n,
                        !(sf == 0 && sr == 0),
                        sf != 0 ==> n == absi(fb - fa),
                        sr != 0 ==> n == absi(rb - ra),
                ;
            }
            let nsq = Square((cf * 9 + cr) as u8);
            let ghost pre = r;
            r = r.insert(nsq);
            proof {
                assert(between_pred(a.idx(), b.idx(), nsq.idx()) && line_dist(a.idx(), nsq.idx())
                    == u);
                assert forall|t: int|
                    r.has(t) == (between_pred(a.idx(), b.idx(), t) && line_dist(a.idx(), t) < u
                        + 1) by {
                    if between_pred(a.idx(), b.idx(), t) && line_dist(a.idx(), t) == u as int {
                        let ft = file_of(t);
                        let rt = rank_of(t);
                        assert(ft == cf && rt == cr);
                        assert(t == 9 * (t / 9) + t % 9) by (nonlinear_arith);
                        assert(t == nsq.idx());
                    }
                }
            }
            u = u + 1;
            cf = cf + sf;
            cr = cr + sr;
            proof {
                assert(cf == fa + u * sf && cr == ra + u * sr) by (nonlinear_arith)
                    requires
                        cf == fa + (u - 1) * sf + sf,
                        cr == ra + (u - 1) * sr + sr,
                ;
            }
        }
        proof {
            assert(forall|t: int|
                between_pred(a.idx(), b.idx(), t) ==> line_dist(a.idx(), t) < n as int);
        }
        r
    }

    pub fn new() -> (r: BetweenTable)
        ensures
            r.wf(),
    {
        let mut table: Vec<Vec<Bitboard>> = Vec::new();
        let mut a: u8 = 0;
        while a < 81
            invariant
                a <= 81,
                table@.len() == a as int,
                forall|x: int| 0 <= x < a as int ==> (#[trigger] table@[x])@.len() == 81,
                forall|x: int, y: int|
                    0 <= x < a as int && 0 <= y < 81 ==> (#[trigger] table@[x]@[y]).wf(),
                forall|x: int, y: int, t: int|
                    0 <= x < a as int && 0 <= y < 81 ==> ((#[trigger] table@[x]@[y].has(t))
                        == between_pred(x, y, t)),
            decreases 81 - a,
        {
            let mut row: Vec<Bitboard> = Vec::new();
            let mut b: u8 = 0;
            while b < 81
                invariant
                    a < 81,
                    b <= 81,
                    row@.len() == b as int,
                    forall|y: int| 0 <= y < b as int ==> (#[trigger] row@[y]).wf(),
                    forall|y: int, t: int|
                        0 <= y < b as int ==> ((#[trigger] row@[y].has(t)) == between_pred(
                            a as int,
                            y,
                            t,
                        )),
                decreases 81 - b,
            {
                row.push(Self::segment(Square(a), Square(b)));
                b = b + 1;
            }
            table.push(row);
            a = a + 1;
        }
        BetweenTable { table }
    }
}

} // verus!
