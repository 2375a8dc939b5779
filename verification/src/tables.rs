//! Precomputed attack tables: per-square step attacks, the file-indexed lance
//! table, and the occupancy-indexed sliding tables for bishop and rook.

use vstd::prelude::*;

use crate::attacks::fu_deltas;
use crate::attacks::gi_deltas;
use crate::attacks::hi_deltas;
use crate::attacks::ka_deltas;
use crate::attacks::ke_deltas;
use crate::attacks::ki_deltas;
use crate::attacks::ky_deltas;
use crate::attacks::ou_deltas;
use crate::attacks::slide_delta_ok;
use crate::attacks::sliding_attacks;
use crate::attacks::sliding_spec;
use crate::attacks::lemma_sliding_in_board;
use crate::attacks::step_bb;
use crate::attacks::step_delta_ok;
use crate::attacks::step_target;
use crate::bitboard::Bitboard;
use crate::bitboard::bb_and;
use crate::bitboard::bb_empty;
use crate::bits::pop_spec;
use crate::bits::pdep_spec;
use crate::bits::pdep64;
use crate::bits::pext64;
use crate::bits::popcount64;
use crate::bits::lemma_pop_bound;
use crate::bits::lemma_pext_range;
use crate::bits::lemma_pdep_pext;
use crate::bits::lemma_pdep_submask;
use crate::bits::lemma_pdep_zero;
use crate::types::Color;
use crate::types::Square;
use crate::types::file_of;
use crate::types::rank_of;

verus! {

/// The color a table row belongs to: row 0 Black, row 1 White.
pub open spec fn col_of(c: int) -> Color {
    if c == 0 {
        Color::Black
    } else {
        Color::White
    }
}

pub fn fu_deltas_vec(c: Color) -> (v: Vec<(i8, i8)>)
    ensures
        v@ == fu_deltas(c),
        forall|i: int| 0 <= i < v@.len() ==> step_delta_ok(v@[i]),
{
    let v = match c {
        Color::Black => vec![(0i8, -1i8)],
        Color::White => vec![(0i8, 1i8)],
    };
    proof {
        assert(v@ =~= fu_deltas(c));
    }
    v
}

pub fn ke_deltas_vec(c: Color) -> (v: Vec<(i8, i8)>)
    ensures
        v@ == ke_deltas(c),
        forall|i: int| 0 <= i < v@.len() ==> step_delta_ok(v@[i]),
{
    let v = match c {
        Color::Black => vec![(-1i8, -2i8), (1i8, -2i8)],
        Color::White => vec![(-1i8, 2i8), (1i8, 2i8)],
    };
    proof {
        assert(v@ =~= ke_deltas(c));
    }
    v
}

pub fn gi_deltas_vec(c: Color) -> (v: Vec<(i8, i8)>)
    ensures
        v@ == gi_deltas(c),
        forall|i: int| 0 <= i < v@.len() ==> step_delta_ok(v@[i]),
{
    let v = match c {
        Color::Black => vec![
            (0i8, -1i8),
            (-1i8, -1i8),
            (-1i8, 1i8),
            (1i8, 1i8),
            (1i8, -1i8),
        ],
        Color::White => vec![(0i8, 1i8), (-1i8, -1i8), (-1i8, 1i8), (1i8, 1i8), (1i8, -1i8)],
    };
    proof {
        assert(v@ =~= gi_deltas(c));
    }
    v
}

pub fn ki_deltas_vec(c: Color) -> (v: Vec<(i8, i8)>)
    ensures
        v@ == ki_deltas(c),
        forall|i: int| 0 <= i < v@.len() ==> step_delta_ok(v@[i]),
{
    let v = match c {
        Color::Black => vec![
            (0i8, -1i8),
            (-1i8, 0i8),
            (0i8, 1i8),
            (1i8, 0i8),
            (-1i8, -1i8),
            (1i8, -1i8),
        ],
        Color::White => vec![
            (0i8, -1i8),
            (-1i8, 0i8),
            (0i8, 1i8),
            (1i8, 0i8),
            (-1i8, 1i8),
            (1i8, 1i8),
        ],
    };
    proof {
        assert(v@ =~= ki_deltas(c));
    }
    v
}

pub fn ou_deltas_vec(c: Color) -> (v: Vec<(i8, i8)>)
    ensures
        v@ == ou_deltas(c),
        forall|i: int| 0 <= i < v@.len() ==> step_delta_ok(v@[i]),
        forall|i: int| 0 <= i < v@.len() ==> slide_delta_ok(v@[i]),
{
    let v = vec![
        (0i8, -1i8),
        (-1i8, 0i8),
        (0i8, 1i8),
        (1i8, 0i8),
        (-1i8, -1i8),
        (-1i8, 1i8),
        (1i8, 1i8),
        (1i8, -1i8),
    ];
    proof {
        assert(v@ =~= ou_deltas(c));
    }
    v
}

pub fn ky_deltas_vec(c: Color) -> (v: Vec<(i8, i8)>)
    ensures
        v@ == ky_deltas(c),
        forall|i: int| 0 <= i < v@.len() ==> slide_delta_ok(v@[i]),
{
    let v = match c {
        Color::Black => vec![(0i8, -1i8)],
        Color::White => vec![(0i8, 1i8)],
    };
    proof {
        assert(v@ =~= ky_deltas(c));
    }
    v
}

pub fn ka_deltas_vec() -> (v: Vec<(i8, i8)>)
    ensures
        v@ == ka_deltas(),
        forall|i: int| 0 <= i < v@.len() ==> slide_delta_ok(v@[i]),
{
    let v = vec![(-1i8, -1i8), (-1i8, 1i8), (1i8, 1i8), (1i8, -1i8)];
    proof {
        assert(v@ =~= ka_deltas());
    }
    v
}

pub fn hi_deltas_vec() -> (v: Vec<(i8, i8)>)
    ensures
        v@ == hi_deltas(),
        forall|i: int| 0 <= i < v@.len() ==> slide_delta_ok(v@[i]),
{
    let v = vec![(0i8, -1i8), (-1i8, 0i8), (0i8, 1i8), (1i8, 0i8)];
    proof {
        assert(v@ =~= hi_deltas());
    }
    v
}

/// Attack table of a step or leap piece: one bitboard per square and color.
pub struct PieceAttackTable {
    pub table: Vec<Vec<Bitboard>>,
    pub deltas: Vec<Vec<(i8, i8)>>,
}

impl PieceAttackTable {
    pub open spec fn wf(self) -> bool {
        &&& self.deltas@.len() == 2
        &&& self.table@.len() == 81
        &&& forall|s: int| 0 <= s < 81 ==> (#[trigger] self.table@[s])@.len() == 2
        &&& forall|s: int, c: int|
            0 <= s < 81 && 0 <= c < 2 ==> (#[trigger] self.table@[s]@[c]).wf()
        &&& forall|s: int, c: int, t: int|
            0 <= s < 81 && 0 <= c < 2 ==> ((#[trigger] self.table@[s]@[c].has(t)) == step_target(
                self.deltas@[c]@,
                s,
                t,
            ))
    }

    /// The delta list this table was built from, per color.
    pub open spec fn spec_deltas(self, c: Color) -> Seq<(i8, i8)> {
        self.deltas@[c.idx_spec()]@
    }

    pub fn new(bd: Vec<(i8, i8)>, wd: Vec<(i8, i8)>) -> (r: PieceAttackTable)
        requires
            forall|i: int| 0 <= i < bd@.len() ==> step_delta_ok(bd@[i]),
            forall|i: int| 0 <= i < wd@.len() ==> step_delta_ok(wd@[i]),
        ensures
            r.wf(),
            r.spec_deltas(Color::Black) == bd@,
            r.spec_deltas(Color::White) == wd@,
    {
        let mut table: Vec<Vec<Bitboard>> = Vec::new();
        let mut s: u8 = 0;
        while s < 81
            invariant
                s <= 81,
                table@.len() == s as int,
                forall|i: int| 0 <= i < bd@.len() ==> step_delta_ok(bd@[i]),
                forall|i: int| 0 <= i < wd@.len() ==> step_delta_ok(wd@[i]),
                forall|q: int| 0 <= q < s as int ==> (#[trigger] table@[q])@.len() == 2,
                forall|q: int, c: int|
                    0 <= q < s as int && 0 <= c < 2 ==> (#[trigger] table@[q]@[c]).wf(),
                forall|q: int, t: int|
                    0 <= q < s as int ==> ((#[trigger] table@[q]@[0].has(t)) == step_target(
                        bd@,
                        q,
                        t,
                    )),
                forall|q: int, t: int|
                    0 <= q < s as int ==> ((#[trigger] table@[q]@[1].has(t)) == step_target(
                        wd@,
                        q,
                        t,
                    )),
            decreases 81 - s,
        {
            let mut row: Vec<Bitboard> = Vec::new();
            row.push(step_bb(&bd, Square(s)));
            row.push(step_bb(&wd, Square(s)));
            table.push(row);
            s = s + 1;
        }
        let mut deltas: Vec<Vec<(i8, i8)>> = Vec::new();
        deltas.push(bd);
        deltas.push(wd);
        let r = PieceAttackTable { table, deltas };
        proof {
            assert forall|s2: int, c: int, t: int|
                0 <= s2 < 81 && 0 <= c < 2 implies ((#[trigger] r.table@[s2]@[c].has(t))
                == step_target(r.deltas@[c]@, s2, t)) by {
                if c == 0 {
                } else {
                }
            }
        }
        r
    }

    /// The squares a piece of color `c` on `sq` attacks.
    pub fn attack(&self, sq: Square, c: Color) -> (r: Bitboard)
        requires
            self.wf(),
            sq.wf(),
        ensures
            r.wf(),
            forall|t: int| r.has(t) == step_target(self.spec_deltas(c), sq.idx(), t),
    {
        self.table[sq.index()][c.index()]
    }
}

/// Lance occupancy pattern `i` of the seven inner squares of file `f`.
pub open spec fn lance_occ(f: int, i: u64) -> Bitboard {
    if f <= 6 {
        Bitboard { lo: i << ((9 * f + 1) as u64), hi: 0u64 }
    } else if f == 7 {
        Bitboard { lo: 0u64, hi: i << 1u64 }
    } else {
        Bitboard { lo: 0u64, hi: i << 10u64 }
    }
}

/// The seven inner squares of file `f`, as a bitboard mask.
pub open spec fn lance_mask(f: int) -> Bitboard {
    lance_occ(f, 0x7fu64)
}

/// Attack table of the lance: per square and color, indexed by the seven-bit
/// occupancy of the square's file.
pub struct LanceAttackTable {
    pub table: Vec<Vec<Vec<Bitboard>>>,
}

impl LanceAttackTable {
    pub open spec fn wf(self) -> bool {
        &&& self.table@.len() == 81
        &&& forall|s: int| 0 <= s < 81 ==> (#[trigger] self.table@[s])@.len() == 2
        &&& forall|s: int, c: int|
            0 <= s < 81 && 0 <= c < 2 ==> (#[trigger] self.table@[s]@[c])@.len() == 128
        &&& forall|s: int, c: int, i: int|
            0 <= s < 81 && 0 <= c < 2 && 0 <= i < 128 ==> (#[trigger] self.table@[s]@[c]@[i]).wf()
        &&& forall|s: int, c: int, i: int, t: int|
            0 <= s < 81 && 0 <= c < 2 && 0 <= i < 128 ==> ((#[trigger] self.table@[s]@[c]@[i].has(
                t,
            )) == sliding_spec(s, lance_occ(file_of(s), i as u64).sqs(), ky_deltas(col_of(c))).contains(
                t,
            ))
    }

    fn entries(sq: Square, ds: &Vec<(i8, i8)>) -> (r: Vec<Bitboard>)
        requires
            sq.wf(),
            forall|i: int| 0 <= i < ds@.len() ==> slide_delta_ok(ds@[i]),
        ensures
            r@.len() == 128,
            forall|i: int| 0 <= i < 128 ==> (#[trigger] r@[i]).wf(),
            forall|i: int, t: int|
                0 <= i < 128 ==> ((#[trigger] r@[i].has(t)) == sliding_spec(
                    sq.idx(),
                    lance_occ(file_of(sq.idx()), i as u64).sqs(),
                    ds@,
                ).contains(t)),
    {
        let f = sq.file();
        let mut r: Vec<Bitboard> = Vec::new();
        let mut i: u16 = 0;
        while i < 128
            invariant
                sq.wf(),
                i <= 128,
                f == file_of(sq.idx()),
                forall|j: int| 0 <= j < ds@.len() ==> slide_delta_ok(ds@[j]),
                r@.len() == i as int,
                forall|j: int| 0 <= j < i as int ==> (#[trigger] r@[j]).wf(),
                forall|j: int, t: int|
                    0 <= j < i as int ==> ((#[trigger] r@[j].has(t)) == sliding_spec(
                        sq.idx(),
                        lance_occ(file_of(sq.idx()), j as u64).sqs(),
                        ds@,
                    ).contains(t)),
            decreases 128 - i,
        {
            let iv = i as u64;
            let occ: Bitboard = if f <= 6 {
                let off: u64 = 9 * (f as u64) + 1;
                proof {
                    assert((iv << off) >> 63u64 == 0 && 0u64 >> 18u64 == 0) by (bit_vector)
                        requires iv < 128, off <= 55;
                }
                Bitboard { lo: iv << off, hi: 0 }
            } else if f == 7 {
                proof {
                    assert(0u64 >> 63u64 == 0 && (iv << 1u64) >> 18u64 == 0) by (bit_vector)
                        requires iv < 128;
                }
                Bitboard { lo: 0, hi: iv << 1u64 }
            } else {
                proof {
                    assert(0u64 >> 63u64 == 0 && (iv << 10u64) >> 18u64 == 0) by (bit_vector)
                        requires iv < 128;
                }
                Bitboard { lo: 0, hi: iv << 10u64 }
            };
            proof {
                assert(occ == lance_occ(file_of(sq.idx()), i as u64));
            }
            r.push(sliding_attacks(sq, &occ, ds));
            i = i + 1;
        }
        r
    }

    pub fn new() -> (r: LanceAttackTable)
        ensures
            r.wf(),
    {
        let bd = ky_deltas_vec(Color::Black);
        let wd = ky_deltas_vec(Color::White);
        let mut table: Vec<Vec<Vec<Bitboard>>> = Vec::new();
        let mut s: u8 = 0;
        while s < 81
            invariant
                s <= 81,
                bd@ == ky_deltas(Color::Black),
                wd@ == ky_deltas(Color::White),
                forall|i: int| 0 <= i < bd@.len() ==> slide_delta_ok(bd@[i]),
                forall|i: int| 0 <= i < wd@.len() ==> slide_delta_ok(wd@[i]),
                table@.len() == s as int,
                forall|q: int| 0 <= q < s as int ==> (#[trigger] table@[q])@.len() == 2,
                forall|q: int, c: int|
                    0 <= q < s as int && 0 <= c < 2 ==> (#[trigger] table@[q]@[c])@.len() == 128,
                forall|q: int, c: int, i: int|
                    0 <= q < s as int && 0 <= c < 2 && 0 <= i < 128 ==> (#[trigger] table@[q]@[c]@[i]).wf(),
                forall|q: int, c: int, i: int, t: int|
                    0 <= q < s as int && 0 <= c < 2 && 0 <= i < 128 ==> ((#[trigger] table@[q]@[c]@[i].has(
                        t,
                    )) == sliding_spec(q, lance_occ(file_of(q), i as u64).sqs(), ky_deltas(
                        col_of(c),
                    )).contains(t)),
            decreases 81 - s,
        {
            let mut row: Vec<Vec<Bitboard>> = Vec::new();
            row.push(Self::entries(Square(s), &bd));
            row.push(Self::entries(Square(s), &wd));
            table.push(row);
            s = s + 1;
        }
        LanceAttackTable { table }
    }

    /// The squares a lance of color `c` on `sq` attacks under occupancy `occ`:
    /// its file toward the enemy camp, up to and including the first blocker.
    pub fn attack(&self, sq: Square, c: Color, occ: &Bitboard) -> (r: Bitboard)
        requires
            self.wf(),
            sq.wf(),
            occ.wf(),
        ensures
            r.wf(),
            forall|t: int|
                r.has(t) == sliding_spec(
                    sq.idx(),
                    bb_and(*occ, lance_mask(file_of(sq.idx()))).sqs(),
                    ky_deltas(c),
                ).contains(t),
    {
        let f = sq.file();
        let lo = occ.lo;
        let hi = occ.hi;
        let idxv: u64;
        if f <= 6 {
            let off: u64 = 9 * (f as u64) + 1;
            idxv = (lo >> off) & 0x7f;
            proof {
                assert(((lo >> off) & 0x7f) << off == lo & (0x7fu64 << off) && ((lo >> off) & 0x7f)
                    < 128 && hi & 0 == 0) by (bit_vector)
                    requires off <= 55;
                assert(lance_occ(file_of(sq.idx()), idxv) == bb_and(
                    *occ,
                    lance_mask(file_of(sq.idx())),
                ));
            }
        } else if f == 7 {
            idxv = (hi >> 1u64) & 0x7f;
            proof {
                assert(((hi >> 1u64) & 0x7f) << 1u64 == hi & (0x7fu64 << 1u64) && ((hi >> 1u64)
                    & 0x7f) < 128 && lo & 0 == 0) by (bit_vector);
                assert(lance_occ(file_of(sq.idx()), idxv) == bb_and(
                    *occ,
                    lance_mask(file_of(sq.idx())),
                ));
            }
        } else {
            idxv = (hi >> 10u64) & 0x7f;
            proof {
                assert(((hi >> 10u64) & 0x7f) << 10u64 == hi & (0x7fu64 << 10u64) && ((hi
                    >> 10u64) & 0x7f) < 128 && lo & 0 == 0) by (bit_vector);
                assert(lance_occ(file_of(sq.idx()), idxv) == bb_and(
                    *occ,
                    lance_mask(file_of(sq.idx())),
                ));
            }
        }
        proof {
            assert(((idxv as usize) as u64 == idxv) && ((idxv as usize) < 128)) by (bit_vector)
                requires idxv < 128;
        }
        let idx: usize = idxv as usize;
        let r = self.table[sq.index()][c.index()][idx];
        proof {
            assert(col_of(c.idx_spec()) == c);
        }
        r
    }
}

/// Which board-edge squares a mask keeps: an edge file or rank is kept only
/// when the piece itself stands on it, since a blocker there cannot matter.
pub open spec fn edge_keep(s: int, t: int) -> bool {
    &&& (file_of(t) == 0 ==> file_of(s) == 0)
    &&& (file_of(t) == 8 ==> file_of(s) == 8)
    &&& (rank_of(t) == 0 ==> rank_of(s) == 0)
    &&& (rank_of(t) == 8 ==> rank_of(s) == 8)
}

/// The relevant-occupancy mask of a slider on `s`: its empty-board attacks,
/// less the edges it cannot be blocked behind.
pub open spec fn mask_ok(s: int, t: int, ds: Seq<(i8, i8)>) -> bool {
    sliding_spec(s, bb_empty().sqs(), ds).contains(t) && edge_keep(s, t)
}

/// The occupancy subset of `mask` encoded by index `i`: the low bits of `i`
/// deposit into the low lane, the rest into the high lane.
pub open spec fn idx_occ(mask: Bitboard, i: u64) -> Bitboard {
    let k0 = pop_spec(mask.lo) as u64;
    Bitboard {
        lo: pdep_spec(i & (((1u64 << k0) - 1) as u64), mask.lo),
        hi: pdep_spec(i >> k0, mask.hi),
    }
}

/// How many occupancy subsets a mask has.
pub open spec fn slots_of(mask: Bitboard) -> int {
    (1u64 << ((pop_spec(mask.lo) + pop_spec(mask.hi)) as u64)) as int
}

/// The start of square `q`'s slot segment: the sum of the earlier squares'
/// slot counts.
pub open spec fn offsets_sum(masks: Seq<Bitboard>, q: int) -> int
    decreases q,
{
    if q <= 0 {
        0
    } else {
        offsets_sum(masks, q - 1) + slots_of(masks[q - 1])
    }
}

/// The partial sums depend only on the masks before `q`.
proof fn lemma_offsets_sum_prefix(m1: Seq<Bitboard>, m2: Seq<Bitboard>, q: int)
    requires
        forall|i: int| 0 <= i < q ==> m1[i] == m2[i],
    ensures
        offsets_sum(m1, q) == offsets_sum(m2, q),
    decreases q,
{
    if q > 0 {
        lemma_offsets_sum_prefix(m1, m2, q - 1);
    }
}

/// `m` is the relevant-occupancy mask of square `q` for the delta list `ds`.
pub open spec fn mask_matches(m: Bitboard, q: int, ds: Seq<(i8, i8)>) -> bool {
    m.wf() && forall|t: int| m.has(t) == mask_ok(q, t, ds)
}

/// What can stop the packing: a square whose relevant-occupancy mask is too
/// wide to index, or a packed table too large for the address space.
pub open spec fn pack_obstruction(ds: Seq<(i8, i8)>) -> bool {
    ||| exists|q: int, m: Bitboard|
        0 <= q < 81 && #[trigger] mask_matches(m, q, ds) && pop_spec(m.lo) + pop_spec(m.hi) > 26
    ||| exists|q: int, ms: Seq<Bitboard>, m: Bitboard|
        #![trigger offsets_sum(ms, q), mask_matches(m, q, ds)]
        0 <= q < 81 && ms.len() == q && (forall|i: int|
            0 <= i < q ==> mask_matches(#[trigger] ms[i], i, ds)) && mask_matches(m, q, ds)
            && offsets_sum(ms, q) + slots_of(m) > usize::MAX
}

/// The packed table entry for square `q`, subset index `i`.
pub open spec fn sl_entry(table: Seq<Bitboard>, offsets: Seq<usize>, q: int, i: int) -> Bitboard {
    table[offsets[q] + i]
}

/// That entry holds the attacks of `q` under the occupancy subset `i`.
pub open spec fn sl_entry_ok(
    table: Seq<Bitboard>,
    offsets: Seq<usize>,
    masks: Seq<Bitboard>,
    ds: Seq<(i8, i8)>,
    q: int,
    i: int,
) -> bool {
    &&& sl_entry(table, offsets, q, i).wf()
    &&& forall|t: int|
        sl_entry(table, offsets, q, i).has(t) == sliding_spec(
            q,
            idx_occ(masks[q], i as u64).sqs(),
            ds,
        ).contains(t)
}

/// An entry's meaning carries over to extended table, offset and mask
/// sequences that agree on what the entry depends on.
proof fn lemma_entry_transfer(
    t1: Seq<Bitboard>,
    o1: Seq<usize>,
    m1: Seq<Bitboard>,
    t2: Seq<Bitboard>,
    o2: Seq<usize>,
    m2: Seq<Bitboard>,
    ds: Seq<(i8, i8)>,
    q: int,
    i: int,
)
    requires
        sl_entry_ok(t1, o1, m1, ds, q, i),
        0 <= q < o1.len(),
        q < o2.len(),
        q < m1.len(),
        q < m2.len(),
        o1[q] == o2[q],
        m1[q] == m2[q],
        t2[o2[q] + i] == t1[o1[q] + i],
    ensures
        sl_entry_ok(t2, o2, m2, ds, q, i),
{
    assert(sl_entry(t2, o2, q, i) == sl_entry(t1, o1, q, i));
}

/// Attack table of a sliding piece: per square, a mask of relevant occupancy
/// and an offset into one packed vector of attack bitboards, indexed by
/// parallel bit extraction of the occupancy against the mask.
pub struct SlidingAttackTable {
    pub table: Vec<Bitboard>,
    pub masks: Vec<Bitboard>,
    pub offsets: Vec<usize>,
    pub deltas: Vec<(i8, i8)>,
}

impl SlidingAttackTable {
    pub open spec fn wf(self) -> bool {
        &&& forall|i: int| 0 <= i < self.deltas@.len() ==> slide_delta_ok(self.deltas@[i])
        &&& self.masks@.len() == 81
        &&& self.offsets@.len() == 81
        &&& forall|q: int| 0 <= q < 81 ==> (#[trigger] self.masks@[q]).wf()
        &&& forall|q: int, t: int|
            0 <= q < 81 ==> ((#[trigger] self.masks@[q].has(t)) == mask_ok(q, t, self.deltas@))
        &&& forall|q: int|
            0 <= q < 81 ==> pop_spec((#[trigger] self.masks@[q]).lo) + pop_spec(self.masks@[q].hi)
                <= 26
        &&& forall|q: int|
            0 <= q < 81 ==> (#[trigger] self.offsets@[q]) + slots_of(self.masks@[q])
                <= self.table@.len()
        &&& forall|q: int|
            0 <= q < 81 ==> (#[trigger] self.offsets@[q]) == offsets_sum(self.masks@, q)
        &&& self.table@.len() == offsets_sum(self.masks@, 81)
        &&& forall|q: int, i: int|
            0 <= q < 81 && 0 <= i < slots_of(self.masks@[q]) ==> #[trigger] sl_entry_ok(
                self.table@,
                self.offsets@,
                self.masks@,
                self.deltas@,
                q,
                i,
            )
    }

    /// The mask of square `q`.
    pub open spec fn spec_mask(self, q: int) -> Bitboard {
        self.masks@[q]
    }

    /// The relevant-occupancy mask: empty-board attacks less unreachable edges.
    fn attack_mask(sq: Square, ds: &Vec<(i8, i8)>) -> (m: Bitboard)
        requires
            sq.wf(),
            forall|i: int| 0 <= i < ds@.len() ==> slide_delta_ok(ds@[i]),
        ensures
            m.wf(),
            forall|t: int| m.has(t) == mask_ok(sq.idx(), t, ds@),
    {
        let empty = Bitboard::empty();
        let pseudo = sliding_attacks(sq, &empty, ds);
        let f0 = sq.file();
        let r0 = sq.rank();
        let mut m = Bitboard::empty();
        let mut t: u8 = 0;
        while t < 81
            invariant
                sq.wf(),
                m.wf(),
                t <= 81,
                f0 == file_of(sq.idx()),
                r0 == rank_of(sq.idx()),
                forall|x: int| pseudo.has(x) == sliding_spec(sq.idx(), bb_empty().sqs(), ds@).contains(x),
                forall|x: int| 0 <= x < t as int ==> m.has(x) == mask_ok(sq.idx(), x, ds@),
                forall|x: int| m.has(x) ==> 0 <= x < t as int,
            decreases 81 - t,
        {
            let ft = t / 9;
            let rt = t % 9;
            if pseudo.get(Square(t)) && (ft != 0 || f0 == 0) && (ft != 8 || f0 == 8) && (rt != 0
                || r0 == 0) && (rt != 8 || r0 == 8) {
                m = m.insert(Square(t));
            }
            t = t + 1;
        }
        proof {
            lemma_sliding_in_board(sq.idx(), bb_empty().sqs(), ds@, ds@.len() as int);
        }
        m
    }

    /// Builds the packed table. `None` only when the packing is obstructed: a
    /// square's relevant-occupancy mask needs more than 26 index bits, or the
    /// packed table would outgrow the address space.
    pub fn new(ds: Vec<(i8, i8)>) -> (r: Option<SlidingAttackTable>)
        requires
            forall|i: int| 0 <= i < ds@.len() ==> slide_delta_ok(ds@[i]),
        ensures
            match r {
                Option::Some(t) => t.wf() && t.deltas@ == ds@,
                Option::None => pack_obstruction(ds@),
            },
    {
        let mut table: Vec<Bitboard> = Vec::new();
        let mut masks: Vec<Bitboard> = Vec::new();
        let mut offsets: Vec<usize> = Vec::new();
        let mut s: u8 = 0;
        while s < 81
            invariant
                s <= 81,
                forall|i: int| 0 <= i < ds@.len() ==> slide_delta_ok(ds@[i]),
                masks@.len() == s as int,
                offsets@.len() == s as int,
                forall|q: int| 0 <= q < s as int ==> (#[trigger] masks@[q]).wf(),
                forall|q: int, t: int|
                    0 <= q < s as int ==> ((#[trigger] masks@[q].has(t)) == mask_ok(q, t, ds@)),
                forall|q: int|
                    0 <= q < s as int ==> pop_spec((#[trigger] masks@[q]).lo) + pop_spec(
                        masks@[q].hi,
                    ) <= 26,
                forall|q: int|
                    0 <= q < s as int ==> (#[trigger] offsets@[q]) + slots_of(masks@[q])
                        <= table@.len(),
                forall|q: int|
                    0 <= q < s as int ==> (#[trigger] offsets@[q]) == offsets_sum(masks@, q),
                table@.len() == offsets_sum(masks@, s as int),
                forall|q: int, i: int|
                    0 <= q < s as int && 0 <= i < slots_of(masks@[q]) ==> #[trigger] sl_entry_ok(
                        table@,
                        offsets@,
                        masks@,
                        ds@,
                        q,
                        i,
                    ),
            decreases 81 - s,
        {
            let mask = Self::attack_mask(Square(s), &ds);
            let k0 = popcount64(mask.lo);
            let k1 = popcount64(mask.hi);
            proof {
                lemma_pop_bound(mask.lo, 63);
                lemma_pop_bound(mask.hi, 18);
            }
            if k0 + k1 > 26 {
                proof {
                    assert(mask_matches(mask, s as int, ds@) && pop_spec(mask.lo) + pop_spec(
                        mask.hi,
                    ) > 26);
                }
                return Option::None;
            }
            let k = k0 + k1;
            let n: usize = 1usize << k;
            proof {
                assert(1usize << k >= 1 && 1usize << k <= 67108864 && 1usize << k == (1u64 << (
                k as u64)) as int) by (bit_vector)
                    requires k <= 26;
            }
            let off = table.len();
            if off > usize::MAX - n {
                proof {
                    assert(mask_matches(mask, s as int, ds@));
                    assert(forall|i: int|
                        0 <= i < s as int ==> mask_matches(#[trigger] masks@[i], i, ds@));
                    assert(offsets_sum(masks@, s as int) + slots_of(mask) > usize::MAX);
                }
                return Option::None;
            }
            let ghost offsets_snap = offsets@;
            let ghost masks_snap = masks@;
            offsets.push(off);
            masks.push(mask);
            proof {
                assert forall|q: int| 0 <= q <= s as int implies offsets_sum(masks@, q)
                    == offsets_sum(masks_snap, q) by {
                    lemma_offsets_sum_prefix(masks@, masks_snap, q);
                }
            }
            proof {
                assert(1u64 << (k0 as u64) >= 1) by (bit_vector)
                    requires k0 <= 63;
            }
            let ones0: u64 = (1u64 << (k0 as u64)) - 1;
            let ghost table_snap = table@;
            let mut i: usize = 0;
            while i < n
                invariant
                    s < 81,
                    i <= n,
                    mask.wf(),
                    k0 == pop_spec(mask.lo),
                    k1 == pop_spec(mask.hi),
                    k0 <= 63,
                    k == k0 + k1,
                    k <= 26,
                    n == 1usize << k,
                    n == slots_of(mask),
                    ones0 == (((1u64 << (k0 as u64)) - 1) as u64),
                    forall|j: int| 0 <= j < ds@.len() ==> slide_delta_ok(ds@[j]),
                    table@.len() == off + i,
                    off + n <= usize::MAX,
                    forall|j: int| 0 <= j < off ==> table@[j] == table_snap[j],
                    masks@.len() == s as int + 1,
                    offsets@.len() == s as int + 1,
                    masks@[s as int] == mask,
                    offsets@[s as int] == off,
                    forall|iv: int|
                        0 <= iv < i as int ==> #[trigger] sl_entry_ok(
                            table@,
                            offsets@,
                            masks@,
                            ds@,
                            s as int,
                            iv,
                        ),
                decreases n - i,
            {
                let iv = i as u64;
                let lo = pdep64(iv & ones0, mask.lo);
                let hi = pdep64(iv >> (k0 as u64), mask.hi);
                proof {
                    lemma_pdep_submask(iv & ones0, mask.lo);
                    lemma_pdep_submask(iv >> (k0 as u64), mask.hi);
                    let ml = mask.lo;
                    let mh = mask.hi;
                    assert(lo & ml == lo && ml >> 63u64 == 0 ==> lo >> 63u64 == 0) by (bit_vector);
                    assert(hi & mh == hi && mh >> 18u64 == 0 ==> hi >> 18u64 == 0) by (bit_vector);
                }
                let occ = Bitboard { lo, hi };
                proof {
                    assert(occ == idx_occ(mask, i as u64));
                }
                let ghost pre_table = table@;
                table.push(sliding_attacks(Square(s), &occ, &ds));
                proof {
                    assert forall|iv: int| 0 <= iv < i as int + 1 implies #[trigger] sl_entry_ok(
                        table@,
                        offsets@,
                        masks@,
                        ds@,
                        s as int,
                        iv,
                    ) by {
                        if iv < i as int {
                            lemma_entry_transfer(
                                pre_table,
                                offsets@,
                                masks@,
                                table@,
                                offsets@,
                                masks@,
                                ds@,
                                s as int,
                                iv,
                            );
                        } else {
                            assert(sl_entry(table@, offsets@, s as int, iv) == table@[off + i as int]);
                        }
                    }
                }
                i = i + 1;
            }
            proof {
                assert forall|q: int, i2: int|
                    0 <= q < s as int + 1 && 0 <= i2 < slots_of(masks@[q]) implies #[trigger] sl_entry_ok(
                    table@,
                    offsets@,
                    masks@,
                    ds@,
                    q,
                    i2,
                ) by {
                    if q < s as int {
                        assert(masks@[q] == masks_snap[q]);
                        assert(offsets@[q] == offsets_snap[q]);
                        assert(sl_entry_ok(table_snap, offsets_snap, masks_snap, ds@, q, i2));
                        assert(offsets_snap[q] + i2 < off);
                        assert(table@[offsets_snap[q] + i2] == table_snap[offsets_snap[q] + i2]);
                        lemma_entry_transfer(
                            table_snap,
                            offsets_snap,
                            masks_snap,
                            table@,
                            offsets@,
                            masks@,
                            ds@,
                            q,
                            i2,
                        );
                    } else {
                        assert(sl_entry_ok(table@, offsets@, masks@, ds@, q, i2));
                    }
                }
                assert forall|q: int| 0 <= q < s as int + 1 implies (#[trigger] offsets@[q])
                    == offsets_sum(masks@, q) by {
                    if q < s as int {
                        assert(offsets@[q] == offsets_snap[q]);
                        lemma_offsets_sum_prefix(masks@, masks_snap, q);
                    } else {
                        assert(offsets@[q] == off);
                    }
                }
                assert(offsets_sum(masks@, s as int + 1) == offsets_sum(masks@, s as int)
                    + slots_of(masks@[s as int]));
                assert(table@.len() == offsets_sum(masks@, s as int + 1));
            }
            s = s + 1;
        }
        Option::Some(SlidingAttackTable { table, masks, offsets, deltas: ds })
    }

    /// How many entries the packed table holds.
    pub fn size(&self) -> (r: usize)
        ensures
            r == self.table@.len(),
    {
        self.table.len()
    }

    /// The squares a slider on `sq` attacks under occupancy `occ`: every ray
    /// square up to and including the first blocker.
    pub fn attack(&self, sq: Square, occ: &Bitboard) -> (r: Bitboard)
        requires
            self.wf(),
            sq.wf(),
            occ.wf(),
        ensures
            r.wf(),
            forall|t: int|
                r.has(t) == sliding_spec(
                    sq.idx(),
                    bb_and(*occ, self.spec_mask(sq.idx())).sqs(),
                    self.deltas@,
                ).contains(t),
    {
        let sidx = sq.index();
        let mask = self.masks[sidx];
        let u0 = occ.lo & mask.lo;
        let u1 = occ.hi & mask.hi;
        proof {
            lemma_pop_bound(mask.lo, 63);
            lemma_pop_bound(mask.hi, 18);
        }
        let j0 = pext64(u0, mask.lo);
        let j1 = pext64(u1, mask.hi);
        let k0 = popcount64(mask.lo);
        let k1 = popcount64(mask.hi);
        proof {
            lemma_pext_range(u0, mask.lo, k0 as u64);
            lemma_pext_range(u1, mask.hi, k1 as u64);
        }
        let j: u64 = j0 | (j1 << (k0 as u64));
        proof {
            assert((j0 | (j1 << (k0 as u64))) < (1u64 << ((k0 + k1) as u64)) && ((j0 | (j1 << (
            k0 as u64))) & (((1u64 << (k0 as u64)) - 1) as u64)) == j0 && (j0 | (j1 << (
            k0 as u64))) >> (k0 as u64) == j1 && ((j0 | (j1 << (k0 as u64))) as usize) as u64 == (
            j0 | (j1 << (k0 as u64))) && ((j0 | (j1 << (k0 as u64))) as usize) as int == (j0 | (j1
                << (k0 as u64))) as int) by (bit_vector)
                requires
                    j0 < (1u64 << (k0 as u64)),
                    j1 < (1u64 << (k1 as u64)),
                    k0 <= 63,
                    k1 <= 18,
                    k0 + k1 <= 26,
            ;
            lemma_pdep_pext(u0, mask.lo);
            lemma_pdep_pext(u1, mask.hi);
            let ml = mask.lo;
            let mh = mask.hi;
            let ol = occ.lo;
            let oh = occ.hi;
            assert((ol & ml) & ml == ol & ml && (oh & mh) & mh == oh & mh) by (bit_vector);
            assert(idx_occ(mask, j) == bb_and(*occ, mask));
            assert((1u64 << ((k0 + k1) as u64)) as int == slots_of(mask));
            assert(sl_entry_ok(self.table@, self.offsets@, self.masks@, self.deltas@, sq.idx(),
            j as int));
        }
        let tl = self.table.len();
        proof {
            assert(self.offsets@[sq.idx()] + slots_of(self.masks@[sq.idx()]) <= tl);
            assert((j as usize) < slots_of(mask));
        }
        let r = self.table[self.offsets[sidx] + (j as usize)];
        r
    }

    /// The empty-board attacks of `sq`: its full rays to every edge.
    pub fn pseudo_attack(&self, sq: Square) -> (r: Bitboard)
        requires
            self.wf(),
            sq.wf(),
        ensures
            r.wf(),
            forall|t: int|
                r.has(t) == sliding_spec(sq.idx(), bb_empty().sqs(), self.deltas@).contains(t),
    {
        let sidx = sq.index();
        proof {
            let mask = self.masks@[sq.idx()];
            lemma_pdep_zero(mask.lo);
            lemma_pdep_zero(mask.hi);
            let k0 = pop_spec(mask.lo) as u64;
            let ksum = (pop_spec(mask.lo) + pop_spec(mask.hi)) as u64;
            lemma_pop_bound(mask.lo, 63);
            lemma_pop_bound(mask.hi, 18);
            assert((0u64 & (((1u64 << k0) - 1) as u64)) == 0 && 0u64 >> k0 == 0 && (1u64 << ksum)
                > 0) by (bit_vector)
                requires k0 <= 63, ksum <= 26;
            assert(idx_occ(mask, 0) == bb_empty());
            assert(idx_occ(mask, 0).sqs() == bb_empty().sqs());
            assert(slots_of(mask) > 0);
            assert(sl_entry_ok(self.table@, self.offsets@, self.masks@, self.deltas@, sq.idx(), 0));
        }
        let r = self.table[self.offsets[sidx]];
        proof {
            assert(sl_entry(self.table@, self.offsets@, sq.idx(), 0) == self.table@[self.offsets@[sq.idx()] as int]);
        }
        r
    }
}

/// The relevant-occupancy mask of square `s`, as a set.
pub open spec fn mask_set(s: int, ds: Seq<(i8, i8)>) -> Set<int> {
    Set::new(|t: int| mask_ok(s, t, ds))
}

/// Bishop attacks from `s` under occupancy `occ`.
pub open spec fn ka_att(s: int, occ: Set<int>) -> Set<int> {
    sliding_spec(s, occ.intersect(mask_set(s, ka_deltas())), ka_deltas())
}

/// Rook attacks from `s` under occupancy `occ`.
pub open spec fn hi_att(s: int, occ: Set<int>) -> Set<int> {
    sliding_spec(s, occ.intersect(mask_set(s, hi_deltas())), hi_deltas())
}

/// Lance attacks of color `c` from `s` under occupancy `occ`.
pub open spec fn ky_att(s: int, c: Color, occ: Set<int>) -> Set<int> {
    sliding_spec(s, occ.intersect(lance_mask(file_of(s)).sqs()), ky_deltas(c))
}

/// Lane-wise masking agrees with set intersection for slider masks.
pub proof fn lemma_slider_masked(
    occ: Bitboard,
    mask: Bitboard,
    occs: Set<int>,
    ds: Seq<(i8, i8)>,
    q: int,
)
    requires
        forall|s: int| occ.has(s) == occs.contains(s),
        forall|s: int| occs.contains(s) ==> 0 <= s < 81,
        forall|t: int| mask.has(t) == mask_ok(q, t, ds),
    ensures
        bb_and(occ, mask).sqs() == occs.intersect(mask_set(q, ds)),
{
    crate::bitboard::lemma_bb_and_has(occ, mask);
    lemma_sliding_in_board(q, bb_empty().sqs(), ds, ds.len() as int);
    assert(bb_and(occ, mask).sqs() =~= occs.intersect(mask_set(q, ds)));
}

/// Lane-wise masking agrees with set intersection for the lance mask.
pub proof fn lemma_lance_masked(occ: Bitboard, occs: Set<int>, f: int)
    requires
        forall|s: int| occ.has(s) == occs.contains(s),
        forall|s: int| occs.contains(s) ==> 0 <= s < 81,
    ensures
        bb_and(occ, lance_mask(f)).sqs() == occs.intersect(lance_mask(f).sqs()),
{
    crate::bitboard::lemma_bb_and_has(occ, lance_mask(f));
    assert(bb_and(occ, lance_mask(f)).sqs() =~= occs.intersect(lance_mask(f).sqs()));
}

/// The attack tables of every piece type, bundled.
pub struct AttackTable {
    pub fu: PieceAttackTable,
    pub ky: LanceAttackTable,
    pub ke: PieceAttackTable,
    pub gi: PieceAttackTable,
    pub ki: PieceAttackTable,
    pub ka: SlidingAttackTable,
    pub hi: SlidingAttackTable,
    pub ou: PieceAttackTable,
}

impl AttackTable {
    pub open spec fn wf(self) -> bool {
        &&& self.fu.wf()
        &&& self.fu.spec_deltas(Color::Black) == fu_deltas(Color::Black)
        &&& self.fu.spec_deltas(Color::White) == fu_deltas(Color::White)
        &&& self.ky.wf()
        &&& self.ke.wf()
        &&& self.ke.spec_deltas(Color::Black) == ke_deltas(Color::Black)
        &&& self.ke.spec_deltas(Color::White) == ke_deltas(Color::White)
        &&& self.gi.wf()
        &&& self.gi.spec_deltas(Color::Black) == gi_deltas(Color::Black)
        &&& self.gi.spec_deltas(Color::White) == gi_deltas(Color::White)
        &&& self.ki.wf()
        &&& self.ki.spec_deltas(Color::Black) == ki_deltas(Color::Black)
        &&& self.ki.spec_deltas(Color::White) == ki_deltas(Color::White)
        &&& self.ka.wf()
        &&& self.ka.deltas@ == ka_deltas()
        &&& self.hi.wf()
        &&& self.hi.deltas@ == hi_deltas()
        &&& self.ou.wf()
        &&& self.ou.spec_deltas(Color::Black) == ou_deltas(Color::Black)
        &&& self.ou.spec_deltas(Color::White) == ou_deltas(Color::White)
    }

    /// Builds every table. `None` only when a sliding table's packing is
    /// obstructed, or a packed table comes out at other than its declared
    /// size — which a sound build never does.
    pub fn new() -> (r: Option<AttackTable>)
        ensures
            match r {
                Option::Some(t) => t.wf() && t.ka.table@.len() == 20224 && t.hi.table@.len()
                    == 495616,
                Option::None => pack_obstruction(ka_deltas()) || pack_obstruction(hi_deltas()) || (
                exists|t: SlidingAttackTable|
                    (#[trigger] t.wf()) && t.deltas@ == ka_deltas() && t.table@.len() != 20224) || (
                exists|t: SlidingAttackTable|
                    (#[trigger] t.wf()) && t.deltas@ == hi_deltas() && t.table@.len() != 495616),
            },
    {
        let ka = match SlidingAttackTable::new(ka_deltas_vec()) {
            Option::Some(t) => t,
            Option::None => {
                return Option::None;
            },
        };
        let hi = match SlidingAttackTable::new(hi_deltas_vec()) {
            Option::Some(t) => t,
            Option::None => {
                return Option::None;
            },
        };
        if ka.size() != 20224 {
            proof {
                assert(ka.wf() && ka.deltas@ == ka_deltas() && ka.table@.len() != 20224);
            }
            return Option::None;
        }
        if hi.size() != 495616 {
            proof {
                assert(hi.wf() && hi.deltas@ == hi_deltas() && hi.table@.len() != 495616);
            }
            return Option::None;
        }
        Option::Some(
            AttackTable {
                fu: PieceAttackTable::new(
                    fu_deltas_vec(Color::Black),
                    fu_deltas_vec(Color::White),
                ),
                ky: LanceAttackTable::new(),
                ke: PieceAttackTable::new(
                    ke_deltas_vec(Color::Black),
                    ke_deltas_vec(Color::White),
                ),
                gi: PieceAttackTable::new(
                    gi_deltas_vec(Color::Black),
                    gi_deltas_vec(Color::White),
                ),
                ki: PieceAttackTable::new(
                    ki_deltas_vec(Color::Black),
                    ki_deltas_vec(Color::White),
                ),
                ka,
                hi,
                ou: PieceAttackTable::new(
                    ou_deltas_vec(Color::Black),
                    ou_deltas_vec(Color::White),
                ),
            },
        )
    }
}

} // verus!
