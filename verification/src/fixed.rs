//! Fixed-point coordinates and their wire form as IEEE-754 double bits.
//!
//! The world measures positions in 1/16384ths of a block: fine enough for
//! every decision the engine makes, and exact in integer arithmetic. A
//! position double arriving on the wire is floored to this grid; a stored
//! coordinate converts back to a bit-exact double, because every in-range
//! multiple of the step is representable.

use vstd::prelude::*;
use vstd::arithmetic::power2::{
    pow2,
    lemma_pow2_adds,
    lemma_pow2_pos,
    lemma_pow2_strictly_increases,
    lemma_pow2_unfold,
    lemma2_to64,
    lemma2_to64_rest,
};
use vstd::arithmetic::div_mod::{
    lemma_fundamental_div_mod,
    lemma_fundamental_div_mod_converse,
    lemma_div_denominator,
};

verus! {

/// Sub-block resolution: this many fixed-point steps make one block.
pub const FIXED_PER_BLOCK: i64 = 16384;

/// Coordinates live strictly within this many fixed steps of the origin
/// (2^25 blocks, comfortably past the packed position format's 26-bit
/// span when measured in blocks).
pub const FIXED_LIMIT: i64 = 0x80_0000_0000;

/// A coordinate the world will store.
pub open spec fn fixed_in_range(m: i64) -> bool {
    -FIXED_LIMIT < m < FIXED_LIMIT
}

/// What a position double means on the world's fixed grid: the double's
/// exact value times 2^14, floored — or nothing for a NaN, an infinity
/// or a magnitude outside the world.
///
/// The double's bits split as 1-bit sign, 11-bit exponent `e` and 52-bit
/// fraction; a normal number has value ±(2^52 + frac) · 2^(e-1075), a
/// subnormal ±frac · 2^(1-1075).
pub open spec fn spec_fixed_of_bits(b: u64) -> Option<i64> {
    let e = (b / 0x10_0000_0000_0000) % 0x800;
    let frac = b % 0x10_0000_0000_0000;
    let neg = b / 0x8000_0000_0000_0000 == 1;
    if e == 0x7FF {
        None
    } else {
        let mag: int = if e == 0 {
            frac as int
        } else {
            0x10_0000_0000_0000 + frac
        };
        let ex: int = if e == 0 {
            1
        } else {
            e as int
        };
        let num: int = if neg {
            -mag
        } else {
            mag
        };
        let f: int = if ex >= 1061 {
            num * pow2((ex - 1061) as nat)
        } else {
            num / pow2((1061 - ex) as nat) as int
        };
        if -FIXED_LIMIT < f < FIXED_LIMIT {
            Some(f as i64)
        } else {
            None
        }
    }
}

fn pow2_exec(k: u64) -> (r: u64)
    requires
        k <= 63,
    ensures
        r == pow2(k as nat),
{
    let mut r: u64 = 1;
    let mut i: u64 = 0;
    assert(r == pow2(0)) by {
        lemma2_to64();
    }
    while i < k
        invariant
            i <= k <= 63,
            r == pow2(i as nat),
        decreases k - i,
    {
        proof {
            lemma_pow2_unfold((i + 1) as nat);
            if ((i + 1) as nat) < 63 {
                lemma_pow2_strictly_increases((i + 1) as nat, 63);
            }
            lemma2_to64_rest();
        }
        r = r * 2;
        i = i + 1;
    }
    r
}

/// Euclidean division of a negated numerator: how the floor of a negative
/// quotient relates to the floor of its positive counterpart.
pub proof fn lemma_neg_div(m: int, d: int)
    requires
        m >= 0,
        d > 0,
    ensures
        m % d == 0 ==> (-m) / d == -(m / d),
        m % d != 0 ==> (-m) / d == -(m / d) - 1,
{
    lemma_fundamental_div_mod(m, d);
    let q = m / d;
    let r = m % d;
    assert((-q) * d == -(d * q) && (-q - 1) * d == -(d * q) - d) by (nonlinear_arith);
    if r == 0 {
        lemma_fundamental_div_mod_converse(-m, d, -q, 0);
    } else {
        lemma_fundamental_div_mod_converse(-m, d, -q - 1, d - r);
    }
}

/// Floor a position double onto the fixed grid.
pub fn fixed_of_bits(b: u64) -> (r: Option<i64>)
    ensures
        r == spec_fixed_of_bits(b),
{
    let e: u64 = (b / 0x10_0000_0000_0000) % 0x800;
    let frac: u64 = b % 0x10_0000_0000_0000;
    let neg: bool = b / 0x8000_0000_0000_0000 == 1;
    if e == 0x7FF {
        return None;
    }
    let mag: u64 = if e == 0 {
        frac
    } else {
        0x10_0000_0000_0000 + frac
    };
    if e >= 1061 {
        // the magnitude is at least 2^52 even before scaling up: far
        // outside the world
        proof {
            let sh = (e - 1061) as nat;
            lemma_pow2_pos(sh);
            assert(mag * pow2(sh) >= mag && (-(mag as int)) * pow2(sh) <= -(mag as int))
                by (nonlinear_arith)
                requires
                    pow2(sh) >= 1,
                    mag >= 0x10_0000_0000_0000,
            ;
        }
        return None;
    }
    let ex: u64 = if e == 0 {
        1
    } else {
        e
    };
    let k: u64 = 1061 - ex;
    let (q, exact): (u64, bool) = if k >= 53 {
        proof {
            lemma2_to64_rest();
            if (k as nat) > 53 {
                lemma_pow2_strictly_increases(53, k as nat);
            }
            assert(mag < pow2(k as nat));
            vstd::arithmetic::div_mod::lemma_basic_div(mag as int, pow2(k as nat) as int);
            vstd::arithmetic::div_mod::lemma_small_mod(mag as nat, pow2(k as nat));
        }
        (0, mag == 0)
    } else {
        let d: u64 = pow2_exec(k);
        proof {
            lemma_pow2_pos(k as nat);
        }
        (mag / d, mag % d == 0)
    };
    proof {
        lemma_pow2_pos(k as nat);
        lemma_neg_div(mag as int, pow2(k as nat) as int);
    }
    let f: i64 = if !neg {
        q as i64
    } else {
        if exact {
            -(q as i64)
        } else {
            -(q as i64) - 1
        }
    };
    if -FIXED_LIMIT < f && f < FIXED_LIMIT {
        Some(f)
    } else {
        None
    }
}

/// Position of the highest set bit.
pub open spec fn log2f(a: nat) -> nat
    decreases a,
{
    if a <= 1 {
        0
    } else {
        (1 + log2f(a / 2)) as nat
    }
}

proof fn lemma_log2f(a: nat, p: nat)
    requires
        pow2(p) <= a < pow2(p + 1),
    ensures
        log2f(a) == p,
    decreases p,
{
    lemma_pow2_unfold(p + 1);
    if p == 0 {
        lemma2_to64();
        assert(a == 1);
    } else {
        lemma_pow2_unfold(p);
        lemma_pow2_pos((p - 1) as nat);
        assert(a >= 2);
        assert(pow2((p - 1) as nat) <= a / 2 < pow2(p)) by {
            lemma_fundamental_div_mod(a as int, 2);
        }
        lemma_log2f(a / 2, (p - 1) as nat);
    }
}

/// The double bits of an in-range fixed coordinate: sign, biased
/// exponent, and the normalized mantissa with its leading bit dropped.
pub open spec fn spec_bits_of_fixed(m: i64) -> u64
    recommends
        fixed_in_range(m),
{
    if m == 0 {
        0
    } else {
        let a: int = if m < 0 {
            -(m as int)
        } else {
            m as int
        };
        let p = log2f(a as nat);
        let sign: int = if m < 0 {
            0x8000_0000_0000_0000
        } else {
            0
        };
        (sign + (p + 1009) * 0x10_0000_0000_0000 + (a * pow2((52 - p) as nat)
            - 0x10_0000_0000_0000)) as u64
    }
}

/// Convert a stored coordinate back to the bit-exact double.
pub fn bits_of_fixed(m: i64) -> (r: u64)
    requires
        fixed_in_range(m),
    ensures
        r == spec_bits_of_fixed(m),
{
    if m == 0 {
        return 0;
    }
    let neg: bool = m < 0;
    let a: u64 = if neg {
        (-m) as u64
    } else {
        m as u64
    };
    let mut p: u64 = 0;
    let mut t: u64 = a;
    proof {
        lemma2_to64();
    }
    while t >= 2
        invariant
            1 <= a < 0x80_0000_0000,
            t == a as int / (pow2(p as nat) as int),
            t >= 1,
            pow2(p as nat) <= a,
            p <= 63,
        decreases t,
    {
        proof {
            lemma_pow2_pos(p as nat);
            lemma_pow2_unfold((p + 1) as nat);
            lemma_div_denominator(a as int, pow2(p as nat) as int, 2);
            assert(a as int / (pow2((p + 1) as nat) as int) == t / 2);
            // two full halvings fit below `a`, so the divisor may double
            lemma_fundamental_div_mod(a as int, pow2(p as nat) as int);
            assert(a >= 2 * pow2(p as nat)) by (nonlinear_arith)
                requires
                    a as int == pow2(p as nat) * (a as int / (pow2(p as nat) as int)) + a as int
                        % (pow2(p as nat) as int),
                    a as int / (pow2(p as nat) as int) >= 2,
                    pow2(p as nat) > 0,
                    a as int % (pow2(p as nat) as int) >= 0,
            ;
            if p + 1 > 63 {
                // impossible: a < 2^39 yet pow2(p+1) <= a
                lemma_pow2_strictly_increases(39, (p + 1) as nat);
                lemma2_to64_rest();
                assert(false);
            }
        }
        t = t / 2;
        p = p + 1;
    }
    proof {
        // t == 1 pins a between pow2(p) and pow2(p + 1)
        lemma_pow2_pos(p as nat);
        lemma_fundamental_div_mod(a as int, pow2(p as nat) as int);
        lemma_pow2_unfold((p + 1) as nat);
        lemma_log2f(a as nat, p as nat);
        if p >= 39 {
            if p > 39 {
                lemma_pow2_strictly_increases(39, p as nat);
            }
            lemma2_to64_rest();
            assert(false);
        }
    }
    let d: u64 = pow2_exec(52 - p);
    proof {
        lemma_pow2_adds(p as nat, (52 - p) as nat);
        lemma_pow2_adds((p + 1) as nat, (52 - p) as nat);
        lemma2_to64_rest();
        assert(a * d >= pow2(52) && a * d < pow2(53)) by (nonlinear_arith)
            requires
                pow2(p as nat) <= a < pow2((p + 1) as nat),
                d == pow2((52 - p) as nat),
                pow2(52 as nat) == pow2(p as nat) * pow2((52 - p) as nat),
                pow2(53 as nat) == pow2((p + 1) as nat) * pow2((52 - p) as nat),
                0 < d,
        ;
    }
    let mant: u64 = a * d;
    let frac: u64 = mant - 0x10_0000_0000_0000;
    let e: u64 = p + 1009;
    let sign: u64 = if neg {
        0x8000_0000_0000_0000
    } else {
        0
    };
    sign + e * 0x10_0000_0000_0000 + frac
}


proof fn lemma_log2f_bounds(a: nat)
    requires
        a >= 1,
    ensures
        pow2(log2f(a)) <= a < pow2(log2f(a) + 1),
    decreases a,
{
    if a <= 1 {
        lemma2_to64();
    } else {
        lemma_log2f_bounds(a / 2);
        let p = log2f(a / 2);
        lemma_fundamental_div_mod(a as int, 2);
        lemma_pow2_unfold(p + 1);
        lemma_pow2_unfold(p + 2);
    }
}

/// A coordinate survives the trip onto the wire and back unchanged: its
/// double is exact, and flooring it onto the grid is the identity.
pub proof fn lemma_fixed_bits_round_trip(m: i64)
    requires
        fixed_in_range(m),
    ensures
        spec_fixed_of_bits(spec_bits_of_fixed(m)) == Some(m),
{
    if m == 0 {
        lemma_pow2_pos(1060);
        vstd::arithmetic::div_mod::lemma_div_of0(pow2(1060) as int);
        assert(spec_fixed_of_bits(0) == Some(0i64));
    } else {
        let a: int = if m < 0 { -(m as int) } else { m as int };
        let p = log2f(a as nat);
        lemma_log2f_bounds(a as nat);
        if p >= 39 {
            if p > 39 {
                lemma_pow2_strictly_increases(39, p);
            }
            lemma2_to64_rest();
            assert(false);
        }
        let d: int = pow2((52 - p) as nat) as int;
        lemma_pow2_adds(p, (52 - p) as nat);
        lemma_pow2_adds(p + 1, (52 - p) as nat);
        lemma2_to64_rest();
        lemma_pow2_pos((52 - p) as nat);
        assert(a * d >= pow2(52) && a * d < pow2(53)) by (nonlinear_arith)
            requires
                pow2(p) <= a < pow2(p + 1),
                d == pow2((52 - p) as nat),
                pow2(52 as nat) == pow2(p) * pow2((52 - p) as nat),
                pow2(53 as nat) == pow2(p + 1) * pow2((52 - p) as nat),
                0 < d,
        ;
        let ee: int = p as int + 1009;
        let ff: int = a * d - 0x10_0000_0000_0000;
        let s_bit: int = if m < 0 { 1 } else { 0 };
        let b_int: int = s_bit * 0x8000_0000_0000_0000 + ee * 0x10_0000_0000_0000 + ff;
        assert(spec_bits_of_fixed(m) == b_int as u64);
        assert(0 <= b_int < 0x1_0000_0000_0000_0000);
        let b: u64 = b_int as u64;
        let qq: int = s_bit * 0x800 + ee;
        lemma_fundamental_div_mod_converse(b as int, 0x10_0000_0000_0000, qq, ff);
        lemma_fundamental_div_mod_converse(qq, 0x800, s_bit, ee);
        lemma_fundamental_div_mod_converse(
            b as int,
            0x8000_0000_0000_0000,
            s_bit,
            ee * 0x10_0000_0000_0000 + ff,
        );
        assert((b / 0x10_0000_0000_0000) % 0x800 == ee);
        assert(b % 0x10_0000_0000_0000 == ff);
        assert((b / 0x8000_0000_0000_0000 == 1) <==> (m < 0));
        // the decoder now sees a normal number with exponent ee and
        // magnitude a * d; dividing by 2^(52 - p) recovers a exactly
        let mag: int = 0x10_0000_0000_0000 + ff;
        assert(mag == a * d);
        vstd::arithmetic::div_mod::lemma_mod_multiples_basic(a, d);
        vstd::arithmetic::div_mod::lemma_div_by_multiple(a, d);
        assert((a * d) / d == a);
        lemma_neg_div(a * d, d);
        assert((-(a * d)) / d == -a);
        assert(1061 - ee == 52 - p);
    }
}

/// The block column a fixed coordinate stands in.
pub open spec fn spec_block_of_fixed(m: i64) -> int {
    m as int / (FIXED_PER_BLOCK as int)
}

/// The chunk column a fixed coordinate stands in (16 blocks to a chunk).
pub open spec fn spec_chunk_of_fixed(m: i64) -> int {
    m as int / 0x4_0000
}

fn floor_div_fixed(m: i64, d: u64) -> (q: i64)
    requires
        0 < d <= 0x4_0000,
        fixed_in_range(m),
    ensures
        q == m as int / d as int,
        -(((FIXED_LIMIT - 1) as int / d as int) + 1) <= q <= (FIXED_LIMIT - 1) as int / d as int,
{
    if m >= 0 {
        proof {
            vstd::arithmetic::div_mod::lemma_div_is_ordered(
                m as int,
                (FIXED_LIMIT - 1) as int,
                d as int,
            );
        }
        let qq: u64 = (m as u64) / d;
        proof {
            vstd::arithmetic::div_mod::lemma_div_nonincreasing(m as int, d as int);
            vstd::arithmetic::div_mod::lemma_div_pos_is_pos(m as int, d as int);
        }
        qq as i64
    } else {
        let mm: u64 = (-m) as u64;
        let qq: u64 = mm / d;
        let exact: bool = mm % d == 0;
        proof {
            lemma_neg_div(mm as int, d as int);
            vstd::arithmetic::div_mod::lemma_div_nonincreasing(mm as int, d as int);
            vstd::arithmetic::div_mod::lemma_div_pos_is_pos(mm as int, d as int);
            vstd::arithmetic::div_mod::lemma_div_is_ordered(
                mm as int,
                (FIXED_LIMIT - 1) as int,
                d as int,
            );
            if d > 1 {
                vstd::arithmetic::div_mod::lemma_div_decreases(mm as int, d as int);
            }
        }
        if exact {
            -(qq as i64)
        } else {
            -(qq as i64) - 1
        }
    }
}

/// Floor a fixed coordinate to its block column.
pub fn block_of_fixed(m: i64) -> (b: i64)
    requires
        fixed_in_range(m),
    ensures
        b == spec_block_of_fixed(m),
        -0x200_0000 <= b <= 0x200_0000,
{
    floor_div_fixed(m, 16384)
}

/// Floor a fixed coordinate to its chunk column.
pub fn chunk_of_fixed(m: i64) -> (c: i64)
    requires
        fixed_in_range(m),
    ensures
        c == spec_chunk_of_fixed(m),
        -0x20_0000 <= c <= 0x20_0000,
{
    floor_div_fixed(m, 0x4_0000)
}

} // verus!
