//! The default depth limit of a tree: 8 + 1.3 log2(n), rounded.
//!
//! The rounded value is found without logarithms. For n >= 1, the integer
//! nearest to 1.3 log2(n) is the greatest d with 2^(10d - 5) <= n^13, so it
//! is read off the bit length of n^13, which is computed exactly in
//! multi-word arithmetic.

use vstd::prelude::*;
use vstd::arithmetic::power::pow;
use vstd::arithmetic::power2::pow2;

verus! {

/// The number that the 32-bit words of `limbs` write, least word first.
pub open spec fn value_of(limbs: Seq<u32>) -> nat
    decreases limbs.len(),
{
    if limbs.len() == 0 {
        0
    } else {
        value_of(limbs.drop_last()) + limbs.last() as nat * pow2((32 * (limbs.len() - 1)) as nat)
    }
}

/// True where `d` is 1.3 log2(n) rounded to the nearest integer, halves
/// rounded up: 2^(10d - 5) <= n^13 < 2^(10d + 5).
pub open spec fn is_rounded_log(n: nat, d: nat) -> bool {
    &&& d == 0 || pow2((10 * d - 5) as nat) <= pow(n as int, 13)
    &&& pow(n as int, 13) < pow2(10 * d + 5)
}

/// True where `depth` is the default depth limit for `n` triangles:
/// 8 + 1.3 log2(n) rounded, and 8 where there is no triangle.
pub open spec fn is_default_depth(n: nat, depth: nat) -> bool {
    if n == 0 {
        depth == 8
    } else {
        depth >= 8 && is_rounded_log(n, (depth - 8) as nat)
    }
}

/// Only one number is 1.3 log2(n) rounded, so only one depth is the
/// default for a mesh.
pub proof fn lemma_default_depth_unique(n: nat, a: nat, b: nat)
    requires
        is_default_depth(n, a),
        is_default_depth(n, b),
    ensures
        a == b,
{
    if n > 0 {
        let da = (a - 8) as nat;
        let db = (b - 8) as nat;
        if da < db {
            if 10 * da + 5 < 10 * db - 5 {
                vstd::arithmetic::power2::lemma_pow2_strictly_increases(
                    10 * da + 5,
                    (10 * db - 5) as nat,
                );
            }
        }
        if db < da {
            if 10 * db + 5 < 10 * da - 5 {
                vstd::arithmetic::power2::lemma_pow2_strictly_increases(
                    10 * db + 5,
                    (10 * da - 5) as nat,
                );
            }
        }
    }
}

/// A power grows with its base.
proof fn lemma_pow_grows_with_base(a: nat, b: nat, e: nat)
    requires
        a <= b,
    ensures
        0 <= pow(a as int, e) <= pow(b as int, e),
    decreases e,
{
    reveal(pow);
    if e > 0 {
        lemma_pow_grows_with_base(a, b, (e - 1) as nat);
        let x = pow(a as int, (e - 1) as nat);
        let y = pow(b as int, (e - 1) as nat);
        assert(0 <= a * x <= b * y) by (nonlinear_arith)
            requires
                0 <= a <= b,
                0 <= x <= y,
        ;
    }
}

/// The default depth for a number of triangles that fits 64 bits is at
/// most 91.
pub proof fn lemma_default_depth_bounded(n: nat, depth: nat)
    requires
        is_default_depth(n, depth),
        n <= 0xFFFF_FFFF_FFFF_FFFF,
    ensures
        8 <= depth <= 91,
{
    if n > 0 {
        let d = (depth - 8) as nat;
        if d > 83 {
            let top: nat = 0x1_0000_0000_0000_0000;
            lemma_pow_grows_with_base(n, top, 13);
            vstd::arithmetic::power2::lemma2_to64();
            vstd::arithmetic::power2::lemma_pow2(64);
            vstd::arithmetic::power2::lemma_pow2(832);
            vstd::arithmetic::power::lemma_pow_multiplies(2, 64, 13);
            assert(pow(top as int, 13) == pow2(832));
            if 832 < 10 * d - 5 {
                vstd::arithmetic::power2::lemma_pow2_strictly_increases(832, (10 * d - 5) as nat);
            }
            assert(pow(n as int, 13) < pow2((10 * d - 5) as nat)) by {
                lemma_pow_strictly_below(n, top);
            }
        }
    }
}

/// The thirteenth power of a number below a bound lies below the bound's.
proof fn lemma_pow_strictly_below(n: nat, top: nat)
    requires
        n < top,
    ensures
        pow(n as int, 13) < pow(top as int, 13),
{
    reveal(pow);
    lemma_pow_grows_with_base(n, top, 12);
    vstd::arithmetic::power::lemma_pow_positive(top as int, 12);
    let x = pow(n as int, 12);
    let y = pow(top as int, 12);
    assert(n * x < top * y) by (nonlinear_arith)
        requires
            0 <= n < top,
            0 <= x <= y,
            0 < y,
    ;
}

proof fn lemma_word(i: nat)
    ensures
        pow2(32 * (i + 1)) == pow2(32 * i) * 0x1_0000_0000,
        pow2(32 * i) >= 1,
{
    vstd::arithmetic::power2::lemma_pow2_adds(32 * i, 32);
    vstd::arithmetic::power2::lemma2_to64();
    vstd::arithmetic::power2::lemma_pow2_pos(32 * i);
}

proof fn lemma_value_push(limbs: Seq<u32>, limb: u32)
    ensures
        value_of(limbs.push(limb)) == value_of(limbs) + limb as nat * pow2(
            (32 * limbs.len()) as nat,
        ),
{
    assert(limbs.push(limb).drop_last() =~= limbs);
}

proof fn lemma_value_bounded(limbs: Seq<u32>)
    ensures
        value_of(limbs) < pow2((32 * limbs.len()) as nat),
    decreases limbs.len(),
{
    if limbs.len() == 0 {
        vstd::arithmetic::power2::lemma2_to64();
    } else {
        let rest = limbs.drop_last();
        lemma_value_bounded(rest);
        lemma_word(rest.len());
        let w = pow2((32 * rest.len()) as nat);
        let top = limbs.last() as nat;
        assert(value_of(rest) + top * w < w * 0x1_0000_0000) by (nonlinear_arith)
            requires
                value_of(rest) < w,
                top < 0x1_0000_0000,
        ;
    }
}

/// Multiplies a multi-word number by a machine word.
fn times(limbs: &Vec<u32>, factor: u64) -> (product: Vec<u32>)
    ensures
        value_of(product@) == value_of(limbs@) * factor,
        product@.len() == limbs@.len() + 2,
{
    let mut product: Vec<u32> = Vec::new();
    let mut carry: u64 = 0;
    let mut i: usize = 0;
    proof {
        assert(limbs@.subrange(0, 0) =~= Seq::<u32>::empty());
        assert(0 * pow2(0) == 0) by (nonlinear_arith);
        assert(0 * factor == 0) by (nonlinear_arith);
    }
    while i < limbs.len()
        invariant
            i <= limbs@.len(),
            product@.len() == i,
            value_of(product@) + carry * pow2((32 * i) as nat) == value_of(limbs@.subrange(0, i as int))
                * factor,
        decreases limbs@.len() - i,
    {
        let limb: u32 = limbs[i];
        assert(limb as u128 * factor as u128 + carry as u128 <= 0xFFFF_FFFF_FFFF_FFFF_0000_0000u128)
            by (nonlinear_arith)
            requires
                limb <= 0xFFFF_FFFFu32,
                factor <= 0xFFFF_FFFF_FFFF_FFFFu64,
                carry <= 0xFFFF_FFFF_FFFF_FFFFu64,
        ;
        let total: u128 = limb as u128 * factor as u128 + carry as u128;
        let low: u32 = (total % 0x1_0000_0000u128) as u32;
        let high: u64 = (total / 0x1_0000_0000u128) as u64;
        proof {
            let w = pow2((32 * i) as nat);
            let prefix = limbs@.subrange(0, i as int);
            lemma_word(i as nat);
            assert(limbs@.subrange(0, i + 1) =~= prefix.push(limb));
            lemma_value_push(prefix, limb);
            lemma_value_push(product@, low);
            assert(value_of(product@) + low * w + high * (w * 0x1_0000_0000) == (value_of(prefix)
                + limb * w) * factor) by (nonlinear_arith)
                requires
                    value_of(product@) + carry * w == value_of(prefix) * factor,
                    limb * factor + carry == high * 0x1_0000_0000 + low,
            ;
        }
        product.push(low);
        carry = high;
        i += 1;
    }
    let low: u32 = (carry % 0x1_0000_0000u64) as u32;
    let high: u32 = (carry / 0x1_0000_0000u64) as u32;
    proof {
        let n = limbs@.len();
        let w = pow2((32 * n) as nat);
        assert(limbs@.subrange(0, n as int) =~= limbs@);
        lemma_word(n);
        lemma_value_push(product@, low);
        lemma_value_push(product@.push(low), high);
        assert(value_of(product@) + low * w + high * (w * 0x1_0000_0000) == value_of(limbs@) * factor)
            by (nonlinear_arith)
            requires
                value_of(product@) + carry * w == value_of(limbs@) * factor,
                carry == high * 0x1_0000_0000 + low,
        ;
    }
    product.push(low);
    product.push(high);
    product
}

/// Number of bits of a word: 0 for 0, else the b with 2^(b-1) <= x < 2^b.
fn word_bits(x: u32) -> (bits: usize)
    ensures
        bits <= 32,
        x == 0 <==> bits == 0,
        x > 0 ==> pow2((bits - 1) as nat) <= x < pow2(bits as nat),
{
    let mut bits: usize = 0;
    let mut bound: u64 = 1;
    proof {
        vstd::arithmetic::power2::lemma2_to64();
    }
    while bound <= x as u64
        invariant
            bits <= 32,
            bound == pow2(bits as nat),
            bits > 0 ==> pow2((bits - 1) as nat) <= x,
            bits == 0 || x > 0,
            bound <= 0x1_0000_0000,
        decreases 0x1_0000_0000 - bound,
    {
        proof {
            vstd::arithmetic::power2::lemma_pow2_unfold((bits + 1) as nat);
            vstd::arithmetic::power2::lemma2_to64();
            if bits >= 32 {
                vstd::arithmetic::power2::lemma_pow2_strictly_increases(31, bits as nat);
            }
        }
        bound = bound * 2;
        bits += 1;
    }
    bits
}

/// Number of bits of a multi-word number.
fn bit_length(limbs: &Vec<u32>) -> (bits: usize)
    requires
        32 * limbs@.len() <= usize::MAX,
    ensures
        value_of(limbs@) == 0 <==> bits == 0,
        value_of(limbs@) > 0 ==> pow2((bits - 1) as nat) <= value_of(limbs@) < pow2(bits as nat),
{
    let mut top: usize = limbs.len();
    assert(limbs@.subrange(0, top as int) =~= limbs@);
    while top > 0 && limbs[top - 1] == 0
        invariant
            top <= limbs@.len(),
            value_of(limbs@) == value_of(limbs@.subrange(0, top as int)),
        decreases top,
    {
        proof {
            let shorter = limbs@.subrange(0, top as int);
            assert(shorter.drop_last() =~= limbs@.subrange(0, top - 1));
            assert(shorter.last() == 0);
            assert(0 * pow2((32 * (top - 1)) as nat) == 0) by (nonlinear_arith);
        }
        top -= 1;
    }
    if top == 0 {
        assert(limbs@.subrange(0, 0) =~= Seq::<u32>::empty());
        return 0;
    }
    let high: u32 = limbs[top - 1];
    let high_bits = word_bits(high);
    proof {
        let used = limbs@.subrange(0, top as int);
        let rest = used.drop_last();
        let w = pow2((32 * (top - 1)) as nat);
        assert(used.last() == high);
        lemma_value_bounded(rest);
        vstd::arithmetic::power2::lemma_pow2_adds((high_bits - 1) as nat, (32 * (top - 1)) as nat);
        vstd::arithmetic::power2::lemma_pow2_adds(high_bits as nat, (32 * (top - 1)) as nat);
        assert(pow2((high_bits - 1) as nat) * w <= high * w) by (nonlinear_arith)
            requires
                pow2((high_bits - 1) as nat) <= high,
                w >= 0,
        ;
        assert(value_of(rest) + high * w < pow2(high_bits as nat) * w) by (nonlinear_arith)
            requires
                value_of(rest) < w,
                high < pow2(high_bits as nat),
        ;
        assert((high_bits - 1) + 32 * (top - 1) == 32 * (top - 1) + high_bits - 1);
        vstd::arithmetic::power2::lemma_pow2_pos((32 * (top - 1) + high_bits - 1) as nat);
    }
    32 * (top - 1) + high_bits
}

/// The default depth limit for a mesh of `n` triangles: 8 + 1.3 log2(n),
/// rounded to the nearest integer.
pub fn default_max_depth(n: usize) -> (depth: usize)
    ensures
        is_default_depth(n as nat, depth as nat),
        8 <= depth <= 100,
{
    if n == 0 {
        return 8;
    }
    let mut power: Vec<u32> = Vec::new();
    power.push(1);
    proof {
        lemma_value_push(Seq::<u32>::empty(), 1u32);
        assert(power@ =~= Seq::<u32>::empty().push(1u32));
        vstd::arithmetic::power2::lemma2_to64();
        vstd::arithmetic::power::lemma_pow0(n as int);
    }
    let mut k: usize = 0;
    while k < 13
        invariant
            k <= 13,
            n >= 1,
            power@.len() == 1 + 2 * k,
            value_of(power@) == pow(n as int, k as nat),
        decreases 13 - k,
    {
        proof {
            reveal(pow);
            assert(pow(n as int, (k + 1) as nat) == n * pow(n as int, k as nat));
            assert(pow(n as int, k as nat) * n == n * pow(n as int, k as nat)) by (nonlinear_arith);
        }
        power = times(&power, n as u64);
        k += 1;
    }
    let bits = bit_length(&power);
    proof {
        vstd::arithmetic::power::lemma_pow_positive(n as int, 13);
        lemma_value_bounded(power@);
        if bits > 32 * 27 {
            vstd::arithmetic::power2::lemma_pow2_strictly_increases(
                (32 * 27) as nat,
                (bits - 1) as nat,
            );
        }
    }
    let log: usize = bits - 1;
    let rounded: usize = (log + 5) / 10;
    proof {
        let d = rounded as nat;
        if d > 0 && 10 * d - 5 < log {
            vstd::arithmetic::power2::lemma_pow2_strictly_increases(
                (10 * d - 5) as nat,
                log as nat,
            );
        }
        if bits < 10 * d + 5 {
            vstd::arithmetic::power2::lemma_pow2_strictly_increases(bits as nat, 10 * d + 5);
        }
    }
    8 + rounded
}

} // verus!
