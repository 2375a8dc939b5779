//! Bit-level helpers: population count, parallel bit deposit, and a trusted
//! parallel-bit-extract wrapper, together with the lemmas that relate them.

use vstd::prelude::*;

verus! {

/// Small word facts shared by the lemmas below.
proof fn lemma_bit_basics()
    by (bit_vector)
    ensures
        forall|m: u64| m != 0 ==> #[trigger] (m >> 1) < m,
        forall|m: u64| #[trigger] (m & 1) <= 1,
        forall|m: u64| (#[trigger] (m >> 1)) >> 63u64 == 0,
        forall|k: u64| k <= 63 ==> 0 < #[trigger] (1u64 << k),
        forall|u: u64| #[trigger] (u & 0) == 0,
{
}

/// Number of set bits of `m`.
pub open spec fn pop_spec(m: u64) -> nat
    decreases m via pop_spec_dec
{
    if m == 0 {
        0
    } else {
        ((m & 1) + pop_spec(m >> 1)) as nat
    }
}

#[via_fn]
proof fn pop_spec_dec(m: u64) {
    lemma_bit_basics();
}

/// Parallel bit extract: bit `i` of the result is the bit of `x` found at the
/// position of the `i`-th lowest set bit of `m`; the high bits are zero.
pub open spec fn pext_spec(x: u64, m: u64) -> u64
    decreases m via pext_spec_dec
{
    if m == 0 {
        0u64
    } else if m & 1 == 1 {
        (x & 1) | (pext_spec(x >> 1, m >> 1) << 1)
    } else {
        pext_spec(x >> 1, m >> 1)
    }
}

#[via_fn]
proof fn pext_spec_dec(x: u64, m: u64) {
    lemma_bit_basics();
}

/// Parallel bit deposit: the inverse of `pext_spec` — bit `i` of `x` is placed
/// at the position of the `i`-th lowest set bit of `m`.
pub open spec fn pdep_spec(x: u64, m: u64) -> u64
    decreases m via pdep_spec_dec
{
    if m == 0 {
        0u64
    } else if m & 1 == 1 {
        (x & 1) | (pdep_spec(x >> 1, m >> 1) << 1)
    } else {
        pdep_spec(x, m >> 1) << 1
    }
}

#[via_fn]
proof fn pdep_spec_dec(x: u64, m: u64) {
    lemma_bit_basics();
}

/// If `m` has no bits at or above position `k`, it has at most `k` set bits.
pub proof fn lemma_pop_bound(m: u64, k: u64)
    requires
        k <= 64,
        k < 64 ==> m >> k == 0,
    ensures
        pop_spec(m) <= k,
    decreases k,
{
    lemma_bit_basics();
    if k == 0 {
        assert(m == 0) by (bit_vector)
            requires m >> 0u64 == 0;
    } else if m == 0 {
    } else {
        let k1 = (k - 1) as u64;
        if k < 64 {
            assert((m >> 1) >> k1 == 0) by (bit_vector)
                requires k <= 63, k1 == k - 1, m >> k == 0;
        }
        lemma_pop_bound(m >> 1, k1);
    }
}

/// The extract result fits in `pop_spec(m)` bits.
pub proof fn lemma_pext_range(x: u64, m: u64, k: u64)
    requires
        pop_spec(m) <= k,
        k <= 63,
    ensures
        pext_spec(x, m) < (1u64 << k),
    decreases m,
{
    lemma_bit_basics();
    if m == 0 {
        assert(0 < (1u64 << k));
    } else if m & 1 == 1 {
        lemma_pop_bound(m, 64);
        let k1 = (k - 1) as u64;
        assert(m & 1 == 1 ==> pop_spec(m) == 1 + pop_spec(m >> 1));
        lemma_pext_range(x >> 1, m >> 1, k1);
        let q = pext_spec(x >> 1, m >> 1);
        assert((x & 1) | (q << 1) < (1u64 << k)) by (bit_vector)
            requires q < (1u64 << k1), k1 <= 62, k == k1 + 1;
    } else {
        assert(pop_spec(m) == pop_spec(m >> 1));
        lemma_pext_range(x >> 1, m >> 1, k);
    }
}

/// Depositing an extracted submask restores it: for any `u`,
/// `pdep(pext(u, m), m) == u & m`.
pub proof fn lemma_pdep_pext(u: u64, m: u64)
    ensures
        pdep_spec(pext_spec(u, m), m) == u & m,
    decreases m,
{
    lemma_bit_basics();
    if m == 0 {
    } else if m & 1 == 1 {
        let q = pext_spec(u >> 1, m >> 1);
        let e = (u & 1) | (q << 1);
        lemma_pop_bound(m >> 1, 63);
        lemma_pext_range(u >> 1, m >> 1, 63);
        lemma_pdep_pext(u >> 1, m >> 1);
        let d = (u >> 1) & (m >> 1);
        assert(e & 1 == u & 1 && e >> 1 == q && ((u & 1) | (d << 1)) == (u & m)) by (bit_vector)
            requires
                e == (u & 1) | (q << 1),
                q < (1u64 << 63u64),
                m & 1 == 1,
                d == (u >> 1) & (m >> 1),
        ;
    } else {
        let q = pext_spec(u >> 1, m >> 1);
        lemma_pdep_pext(u >> 1, m >> 1);
        let d = (u >> 1) & (m >> 1);
        assert(d << 1 == u & m) by (bit_vector)
            requires m & 1 != 1, d == (u >> 1) & (m >> 1);
    }
}

/// The deposit result is a submask of `m`.
pub proof fn lemma_pdep_submask(x: u64, m: u64)
    ensures
        pdep_spec(x, m) & m == pdep_spec(x, m),
    decreases m,
{
    lemma_bit_basics();
    if m == 0 {
    } else if m & 1 == 1 {
        lemma_pdep_submask(x >> 1, m >> 1);
        let d = pdep_spec(x >> 1, m >> 1);
        assert(((x & 1) | (d << 1)) & m == (x & 1) | (d << 1)) by (bit_vector)
            requires m & 1 == 1, d & (m >> 1) == d;
    } else {
        lemma_pdep_submask(x, m >> 1);
        let d = pdep_spec(x, m >> 1);
        assert((d << 1) & m == d << 1) by (bit_vector)
            requires m & 1 != 1, d & (m >> 1) == d;
    }
}

/// Depositing zero gives zero.
pub proof fn lemma_pdep_zero(m: u64)
    ensures
        pdep_spec(0, m) == 0,
    decreases m,
{
    lemma_bit_basics();
    assert(0u64 >> 1 == 0 && (0u64 & 1) | (0u64 << 1) == 0 && 0u64 << 1 == 0) by (bit_vector);
    if m != 0 {
        lemma_pdep_zero(m >> 1);
    }
}

/// Number of set bits of `m`.
pub fn popcount64(m: u64) -> (r: u32)
    ensures
        r == pop_spec(m),
{
    let mut v: u64 = m;
    let mut c: u32 = 0;
    proof {
        lemma_pop_bound(m, 64);
    }
    while v != 0
        invariant
            pop_spec(m) == c + pop_spec(v),
            pop_spec(m) <= 64,
        decreases v,
    {
        proof {
            lemma_bit_basics();
        }
        c = c + (v & 1) as u32;
        v = v >> 1;
    }
    c
}

/// Parallel bit deposit, computed bit by bit.
pub fn pdep64(x: u64, m: u64) -> (r: u64)
    ensures
        r == pdep_spec(x, m),
{
    let mut xv: u64 = x;
    let mut mv: u64 = m;
    let mut r: u64 = 0;
    let mut s: u32 = 0;
    proof {
        let p = pdep_spec(x, m);
        assert(m >> 0u64 == m && 0u64 | (p << 0u64) == p) by (bit_vector);
    }
    while mv != 0
        invariant
            s <= 64,
            mv == m >> s,
            pdep_spec(x, m) == r | (pdep_spec(xv, mv) << s),
        decreases mv,
    {
        proof {
            assert(mv >> 1 < mv && s < 64) by (bit_vector)
                requires mv != 0, mv == m >> s;
        }
        let s1: u32 = s + 1;
        proof {
            assert(m >> s1 == (m >> s) >> 1) by (bit_vector) requires s1 == s + 1, s <= 63;
        }
        if mv & 1 == 1 {
            let ghost q = pdep_spec(xv >> 1, mv >> 1);
            let ghost r0 = r;
            proof {
                assert(pdep_spec(xv, mv) == (xv & 1) | (q << 1));
                assert((xv & 1 == 1 ==> r0 | (((xv & 1) | (q << 1)) << s) == (r0 | (1u64 << s)) | (
                q << s1)) && (xv & 1 != 1 ==> r0 | (((xv & 1) | (q << 1)) << s) == r0 | (q << s1)))
                    by (bit_vector)
                    requires s <= 63, s1 == s + 1;
            }
            if xv & 1 == 1 {
                r = r | (1u64 << s);
            }
            xv = xv >> 1;
        } else {
            let ghost q = pdep_spec(xv, mv >> 1);
            proof {
                assert(pdep_spec(xv, mv) == q << 1);
                assert((q << 1) << s == q << s1) by (bit_vector)
                    requires s <= 63, s1 == s + 1;
            }
        }
        mv = mv >> 1;
        s = s1;
    }
    proof {
        let q0 = pdep_spec(xv, 0);
        assert(q0 << s == 0 && r | 0 == r) by (bit_vector)
            requires q0 == 0;
    }
    r
}

/// Relies on `bitintr::Pext` for `u64`: gathers the bits of `x` selected by
/// `mask` into the contiguous low bits of the result, high bits zero.
///
/// A full 64-bit mask is excluded: on targets without the hardware
/// instruction the software fallback doubles an accumulator once per set mask
/// bit, and the 64th doubling would overflow.
#[verifier::external_body]
pub fn pext64(x: u64, mask: u64) -> (r: u64)
    requires
        pop_spec(mask) <= 63,
    ensures
        r == pext_spec(x, mask),
{
    bitintr::Pext::pext(x, mask)
}

} // verus!
