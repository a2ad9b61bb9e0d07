//! Arithmetic for splitting a key into a cluster index (high bits) and an
//! offset within that cluster (low bits), and for recombining the two.

use vstd::prelude::*;

verus! {

use vstd::arithmetic::power2::{
    pow2, lemma_pow2_adds, lemma_pow2_pos, lemma_pow2_strictly_increases, lemma_pow2_unfold,
    lemma2_to64,
};
use vstd::arithmetic::div_mod::{
    lemma_fundamental_div_mod, lemma_fundamental_div_mod_converse_div,
    lemma_fundamental_div_mod_converse_mod, lemma_multiply_divide_lt,
    lemma_mod_division_less_than_divisor, lemma_div_pos_is_pos,
};

/// Number of low-order bits of a key: they form the offset within a cluster.
pub open spec fn lo_bits(m: nat) -> nat {
    m / 2
}

/// Number of high-order bits of a key: they form the cluster index.
pub open spec fn hi_bits(m: nat) -> nat {
    (m - m / 2) as nat
}

/// The cluster index of key `x` in a node of magnitude `m`.
pub open spec fn high_part(x: int, m: nat) -> int {
    x / (pow2(lo_bits(m)) as int)
}

/// The offset of key `x` within its cluster, in a node of magnitude `m`.
pub open spec fn low_part(x: int, m: nat) -> int {
    x % (pow2(lo_bits(m)) as int)
}

/// Rebuild a key from a cluster index `c` and an offset `o`.
pub open spec fn combine(c: int, o: int, m: nat) -> int {
    c * pow2(lo_bits(m)) + o
}

/// Basic facts about the two bit-halves of a magnitude `m >= 2`.
pub proof fn lemma_split_bits(m: nat)
    requires
        m >= 2,
    ensures
        1 <= lo_bits(m) < m,
        1 <= hi_bits(m) < m,
        lo_bits(m) + hi_bits(m) == m,
        pow2(lo_bits(m)) * pow2(hi_bits(m)) == pow2(m),
        2 <= pow2(lo_bits(m)) < pow2(m),
        2 <= pow2(hi_bits(m)) < pow2(m),
{
    lemma_pow2_adds(lo_bits(m), hi_bits(m));
    lemma_pow2_unfold(lo_bits(m));
    lemma_pow2_pos((lo_bits(m) - 1) as nat);
    lemma_pow2_unfold(hi_bits(m));
    lemma_pow2_pos((hi_bits(m) - 1) as nat);
    lemma_pow2_strictly_increases(lo_bits(m), m);
    lemma_pow2_strictly_increases(hi_bits(m), m);
}

/// Splitting a key of the universe `[0, 2^m)` gives a cluster index below
/// `2^hi_bits(m)` and an offset below `2^lo_bits(m)`, and recombining them
/// gives the key back.
pub proof fn lemma_parts(x: int, m: nat)
    requires
        m >= 2,
        0 <= x < pow2(m),
    ensures
        0 <= high_part(x, m) < pow2(hi_bits(m)),
        0 <= low_part(x, m) < pow2(lo_bits(m)),
        x == combine(high_part(x, m), low_part(x, m), m),
{
    let p = pow2(lo_bits(m)) as int;
    lemma_split_bits(m);
    lemma_fundamental_div_mod(x, p);
    lemma_mod_division_less_than_divisor(x, p);
    lemma_div_pos_is_pos(x, p);
    assert(x < p * (pow2(hi_bits(m)) as int)) by {
        assert(p * (pow2(hi_bits(m)) as int) == pow2(m));
    }
    lemma_multiply_divide_lt(x, p, pow2(hi_bits(m)) as int);
    assert(x == p * (x / p) + x % p);
    assert(p * (x / p) == (x / p) * p) by (nonlinear_arith);
}

/// Any key equals its parts recombined.
pub proof fn lemma_recombine(z: int, m: nat)
    requires
        m >= 2,
    ensures
        z == combine(high_part(z, m), low_part(z, m), m),
{
    let p = pow2(lo_bits(m)) as int;
    lemma_split_bits(m);
    lemma_fundamental_div_mod(z, p);
    assert(p * (z / p) == (z / p) * p) by (nonlinear_arith);
}

/// Recombining an in-range cluster index and offset gives a key of the
/// universe whose parts are that index and that offset.
pub proof fn lemma_combine(c: int, o: int, m: nat)
    requires
        m >= 2,
        0 <= c < pow2(hi_bits(m)),
        0 <= o < pow2(lo_bits(m)),
    ensures
        0 <= combine(c, o, m) < pow2(m),
        high_part(combine(c, o, m), m) == c,
        low_part(combine(c, o, m), m) == o,
{
    let p = pow2(lo_bits(m)) as int;
    let cap = pow2(hi_bits(m)) as int;
    lemma_split_bits(m);
    assert(0 <= c * p + o && c * p + o < cap * p) by (nonlinear_arith)
        requires
            0 <= c < cap,
            0 <= o < p,
            0 < p,
    ;
    assert(cap * p == p * cap) by (nonlinear_arith);
    lemma_fundamental_div_mod_converse_div(combine(c, o, m), p, c, o);
    lemma_fundamental_div_mod_converse_mod(combine(c, o, m), p, c, o);
}

/// Keys compare exactly as their (cluster index, offset) pairs compare
/// lexicographically.
pub proof fn lemma_combine_lt(c1: int, o1: int, c2: int, o2: int, m: nat)
    requires
        m >= 2,
        0 <= c1,
        0 <= o1 < pow2(lo_bits(m)),
        0 <= c2,
        0 <= o2 < pow2(lo_bits(m)),
    ensures
        (combine(c1, o1, m) < combine(c2, o2, m)) <==> (c1 < c2 || (c1 == c2 && o1 < o2)),
{
    let p = pow2(lo_bits(m)) as int;
    lemma_split_bits(m);
    assert((c1 * p + o1 < c2 * p + o2) <==> (c1 < c2 || (c1 == c2 && o1 < o2)))
        by (nonlinear_arith)
        requires
            0 <= o1 < p,
            0 <= o2 < p,
            0 < p,
    ;
}

/// `2^e` computed by repeated doubling.
pub fn pow2_exec(e: usize) -> (r: usize)
    requires
        pow2(e as nat) <= usize::MAX as nat,
    ensures
        r as nat == pow2(e as nat),
{
    proof {
        lemma2_to64();
    }
    let mut r: usize = 1;
    let mut i: usize = 0;
    while i < e
        invariant
            i <= e,
            r as nat == pow2(i as nat),
            pow2(e as nat) <= usize::MAX as nat,
        decreases e - i,
    {
        proof {
            lemma_pow2_unfold((i + 1) as nat);
            if i + 1 < e {
                lemma_pow2_strictly_increases((i + 1) as nat, e as nat);
            }
        }
        r = r * 2;
        i = i + 1;
    }
    r
}

} // verus!
