//! Four-limb numbers, least significant limb first.

use vstd::arithmetic::div_mod::{
    lemma_div_denominator, lemma_div_multiples_vanish_fancy, lemma_hoist_over_denominator,
    lemma_mod_multiples_vanish,
};
use vstd::arithmetic::power2::{
    lemma2_to64, lemma2_to64_rest, lemma_pow2_adds, lemma_pow2_pos, pow2,
};
use vstd::bits::{
    lemma_u64_low_bits_mask_is_mod, lemma_u64_pow2_no_overflow, lemma_u64_shl_is_mul,
    lemma_u64_shr_is_div, low_bits_mask,
};
use vstd::prelude::*;

use crate::bytes::{
    be_bytes, be_to_u64, be_value, lemma_be_bytes_split,
    lemma_be_value_concat, lemma_pow256_values, u64_to_be,
};

verus! {

/// The number that four 64-bit limbs stand for.
pub open spec fn limbs_value(l: Seq<u64>) -> nat {
    (l[0] as nat) + (l[1] as nat) * 0x1_0000_0000_0000_0000 + (l[2] as nat)
        * 0x1_0000_0000_0000_0000_0000_0000_0000_0000 + (l[3] as nat)
        * 0x1_0000_0000_0000_0000_0000_0000_0000_0000_0000_0000_0000_0000
}

/// Four limbs are determined by the number they stand for.
pub proof fn lemma_limbs_value_injective(a: Seq<u64>, b: Seq<u64>)
    requires
        a.len() == 4,
        b.len() == 4,
        limbs_value(a) == limbs_value(b),
    ensures
        a == b,
{
    assert(a[3] == b[3]);
    assert(a[2] == b[2]);
    assert(a[1] == b[1]);
    assert(a[0] == b[0]);
    assert(a =~= b);
}

/// The four limbs of a number.
pub open spec fn limbs_of(v: nat) -> [u64; 4] {
    let b = 0x1_0000_0000_0000_0000nat;
    [
        (v % b) as u64,
        ((v / b) % b) as u64,
        ((v / b / b) % b) as u64,
        ((v / b / b / b) % b) as u64,
    ]
}

/// Every number of 256 bits has limbs that stand for it.
pub proof fn lemma_limbs_of(v: nat)
    requires
        v < 0x1_0000_0000_0000_0000_0000_0000_0000_0000_0000_0000_0000_0000_0000_0000_0000_0000nat,
    ensures
        limbs_value(limbs_of(v)@) == v,
{
    let b = 0x1_0000_0000_0000_0000nat;
    let l = limbs_of(v)@;
    assert(l[0] == v % b);
    assert(l[1] == (v / b) % b);
    assert(l[2] == (v / b / b) % b);
    assert(l[3] == (v / b / b / b) % b);
    assert(v / b / b / b < b);
}

/// Whether two four-limb numbers are equal.
pub fn limbs_equal(a: &[u64; 4], b: &[u64; 4]) -> (r: bool)
    ensures
        r == (limbs_value(a@) == limbs_value(b@)),
        r == (a@ == b@),
{
    let r: bool = a[0] == b[0] && a[1] == b[1] && a[2] == b[2] && a[3] == b[3];
    proof {
        if r {
            assert(a@ =~= b@);
        }
        if limbs_value(a@) == limbs_value(b@) {
            lemma_limbs_value_injective(a@, b@);
        }
    }
    r
}

/// Whether one four-limb number is below another.
pub fn limbs_less(a: &[u64; 4], b: &[u64; 4]) -> (r: bool)
    ensures
        r == (limbs_value(a@) < limbs_value(b@)),
{
    if a[3] != b[3] {
        a[3] < b[3]
    } else if a[2] != b[2] {
        a[2] < b[2]
    } else if a[1] != b[1] {
        a[1] < b[1]
    } else {
        a[0] < b[0]
    }
}

/// The limbs from index `q` on, as a number.
spec fn limbs_above(l: Seq<u64>, q: int) -> nat {
    if q <= 0 {
        limbs_value(l)
    } else if q == 1 {
        (l[1] as nat) + (l[2] as nat) * 0x1_0000_0000_0000_0000nat + (l[3] as nat)
            * 0x1_0000_0000_0000_0000_0000_0000_0000_0000nat
    } else if q == 2 {
        (l[2] as nat) + (l[3] as nat) * 0x1_0000_0000_0000_0000nat
    } else if q == 3 {
        l[3] as nat
    } else {
        0
    }
}

proof fn lemma_pow2_limbs()
    ensures
        pow2(0) == 1,
        pow2(64) == 0x1_0000_0000_0000_0000nat,
        pow2(128) == 0x1_0000_0000_0000_0000_0000_0000_0000_0000nat,
        pow2(192) == 0x1_0000_0000_0000_0000_0000_0000_0000_0000_0000_0000_0000_0000nat,
        pow2(256)
            == 0x1_0000_0000_0000_0000_0000_0000_0000_0000_0000_0000_0000_0000_0000_0000_0000_0000nat,
{
    lemma2_to64();
    lemma2_to64_rest();
    lemma_pow2_adds(32, 32);
    lemma_pow2_adds(64, 64);
    lemma_pow2_adds(128, 64);
    lemma_pow2_adds(192, 64);
}

/// Four limbs stay below the power of two that five limbs would need.
pub proof fn lemma_limbs_value_bound(l: Seq<u64>)
    ensures
        limbs_value(l) < pow2(256),
{
    lemma_pow2_limbs();
}

/// Dropping whole limbs is dividing by the power of two that they span.
proof fn lemma_limbs_above(l: Seq<u64>, q: nat)
    requires
        q < 4,
    ensures
        limbs_value(l) / pow2(64 * q) == limbs_above(l, q as int),
        limbs_above(l, q as int) == l[q as int] as nat + pow2(64) * limbs_above(l, (q + 1) as int),
{
    lemma_pow2_limbs();
    let v = limbs_value(l) as int;
    let above = limbs_above(l, q as int) as int;
    let l0 = l[0] as int;
    let l1 = l[1] as int;
    let l2 = l[2] as int;
    if q == 0 {
        assert(64 * q == 0);
        vstd::arithmetic::div_mod::lemma_div_basics(v);
    } else if q == 1 {
        assert(64 * q == 64);
        assert(v == 0x1_0000_0000_0000_0000 * above + l0);
        lemma_div_multiples_vanish_fancy(above, l0, 0x1_0000_0000_0000_0000);
    } else if q == 2 {
        assert(64 * q == 128);
        let low = l0 + l1 * 0x1_0000_0000_0000_0000;
        assert(v == 0x1_0000_0000_0000_0000_0000_0000_0000_0000int * above + low);
        lemma_div_multiples_vanish_fancy(
            above,
            low,
            0x1_0000_0000_0000_0000_0000_0000_0000_0000int,
        );
    } else {
        assert(64 * q == 192);
        let low = l0 + l1 * 0x1_0000_0000_0000_0000 + l2
            * 0x1_0000_0000_0000_0000_0000_0000_0000_0000int;
        assert(v == 0x1_0000_0000_0000_0000_0000_0000_0000_0000_0000_0000_0000_0000int * above
            + low);
        lemma_div_multiples_vanish_fancy(
            above,
            low,
            0x1_0000_0000_0000_0000_0000_0000_0000_0000_0000_0000_0000_0000int,
        );
    }
}

/// A window of bits in a number that splits into a low limb and a rest.
proof fn lemma_window_split(low: nat, rest: nat, s: nat, w: nat)
    requires
        low < pow2(64),
        s < 64,
    ensures
        (low + pow2(64) * rest) / pow2(s) == low / pow2(s) + pow2((64 - s) as nat) * rest,
{
    lemma_pow2_adds(s, (64 - s) as nat);
    lemma_pow2_pos(s);
    let a = pow2(s) as int;
    let b = pow2((64 - s) as nat) as int;
    assert((a * b) * rest == a * (b * rest)) by (nonlinear_arith);
    lemma_hoist_over_denominator(low as int, b * rest, pow2(s));
    assert((b * rest) * pow2(s) == a * (b * rest)) by (nonlinear_arith)
        requires
            a == pow2(s),
    ;
}

/// Adding a multiple of a higher power of two does not show in a window below it.
proof fn lemma_window_high(x: nat, e: nat, rest: nat, w: nat)
    requires
        w <= e,
    ensures
        (x + pow2(e) * rest) % pow2(w) == x % pow2(w),
{
    lemma_pow2_adds(w, (e - w) as nat);
    lemma_pow2_pos(w);
    let c = pow2((e - w) as nat) * rest;
    let m = pow2(w);
    let d = pow2((e - w) as nat);
    assert(m * d * rest == m * (d * rest)) by (nonlinear_arith);
    lemma_mod_multiples_vanish(c as int, x as int, m as int);
}

/// Two words read as one double word, shifted down by `s` bits and cut to one word.
proof fn lemma_word_pair(a: u64, n: u64, s: u64)
    requires
        0 < s < 64,
    ensures
        ((a >> s) | (n << ((64 - s) as u64))) as nat == a as nat / pow2(s as nat) + pow2(
            (64 - s) as nat,
        ) * (n as nat % pow2(s as nat)),
{
    let t: u64 = (64 - s) as u64;
    let mask: u64 = low_bits_mask(s as nat) as u64;
    lemma_u64_pow2_no_overflow(s as nat);
    lemma_u64_pow2_no_overflow(t as nat);
    lemma_pow2_adds(s as nat, t as nat);
    lemma_pow2_limbs();
    lemma_pow2_pos(s as nat);
    lemma_u64_shr_is_div(a, s);
    lemma_u64_low_bits_mask_is_mod(n, s as nat);
    lemma_u64_shl_is_mul(1, s);
    let low: u64 = n & mask;
    assert(mask == (1u64 << s) - 1);
    assert((n << t) == (low << t)) by (bit_vector)
        requires
            0 < s < 64,
            t == 64 - s,
            mask == (1u64 << s) - 1,
            low == n & mask,
    ;
    assert((a >> s) | (n << t) == (a >> s) + (n << t)) by (bit_vector)
        requires
            0 < s < 64,
            t == 64 - s,
    ;
    let k = pow2(t as nat);
    assert(low as nat * k <= u64::MAX) by (nonlinear_arith)
        requires
            low < pow2(s as nat),
            pow2(s as nat) * k == 0x1_0000_0000_0000_0000nat,
            k > 0,
    ;
    lemma_u64_shl_is_mul(low, t);
    assert(low as nat * k == k * low as nat) by (nonlinear_arith);
}

/// The `width` bits of a four-limb number that start at bit `offset`.
pub fn limbs_window(limbs: &[u64; 4], offset: usize, width: usize) -> (r: usize)
    requires
        1 <= width < 32,
    ensures
        r as nat == (limbs_value(limbs@) / pow2(offset as nat)) % pow2(width as nat),
        r < pow2(width as nat),
{
    let limb_idx: usize = offset / 64;
    let bit_shift: usize = offset % 64;
    let ghost w = width as nat;
    let ghost s = bit_shift as nat;
    let ghost value = limbs_value(limbs@);
    proof {
        lemma_pow2_pos(w);
    }
    if limb_idx < 4 {
        let ghost q = limb_idx as nat;
        let ghost above = limbs_above(limbs@, (q + 1) as int);
        let ghost low = limbs@[q as int] as nat;
        proof {
            lemma_limbs_above(limbs@, q);
            lemma_pow2_adds(64 * q, s);
            lemma_pow2_pos(64 * q);
            lemma_pow2_pos(s);
            lemma_div_denominator(value as int, pow2(64 * q) as int, pow2(s) as int);
            lemma_pow2_limbs();
            lemma_window_split(low, above, s, w);
            lemma_u64_shr_is_div(limbs@[q as int], s as u64);
        }
        let mut raw: u64 = limbs[limb_idx] >> bit_shift;
        if bit_shift > 64 - width && limb_idx + 1 < 4 {
            let next: u64 = limbs[limb_idx + 1];
            raw = raw | (next << (64 - bit_shift));
            proof {
                lemma_word_pair(limbs@[q as int], next, s as u64);
                lemma_limbs_above(limbs@, q + 1);
                let above2 = limbs_above(limbs@, (q + 2) as int);
                let t = (64 - s) as nat;
                let k = pow2(t);
                let m = pow2(s);
                // raw leaves out multiples of 2^64
                vstd::arithmetic::div_mod::lemma_fundamental_div_mod(next as int, m as int);
                lemma_pow2_adds(t, s);
                lemma_pow2_adds(t, 64);
                let n = next as nat;
                let hi = n / m;
                let lo = n % m;
                assert(k * n == k * lo + (k * m) * hi) by (nonlinear_arith)
                    requires
                        n == m * hi + lo,
                ;
                assert(k * (next as nat + pow2(64) * above2) == k * (next as nat) + pow2(64) * (k
                    * above2)) by (nonlinear_arith);
                let whole = hi + k * above2;
                assert(pow2(64) * hi + pow2(64) * (k * above2) == pow2(64) * whole)
                    by (nonlinear_arith)
                    requires
                        whole == hi + k * above2,
                ;
                lemma_window_high(raw as nat, 64, whole, w);
            }
        } else {
            proof {
                if s + w <= 64 {
                    lemma_window_high(raw as nat, (64 - s) as nat, above, w);
                } else {
                    assert(above == 0);
                    assert(pow2((64 - s) as nat) * above == 0) by (nonlinear_arith)
                        requires
                            above == 0,
                    ;
                }
            }
        }
        proof {
            lemma_u64_pow2_no_overflow(w);
            lemma_u64_shl_is_mul(1, w as u64);
            lemma_u64_low_bits_mask_is_mod(raw, w);
            lemma2_to64();
            vstd::arithmetic::power2::lemma_pow2_strictly_increases(w, 32);
        }
        let mask: u64 = (1u64 << width) - 1;
        proof {
            assert(value / pow2(offset as nat) == low / pow2(s) + pow2((64 - s) as nat) * above);
            assert((value / pow2(offset as nat)) % pow2(w) == raw as nat % pow2(w));
        }
        (raw & mask) as usize
    } else {
        proof {
            lemma_limbs_value_bound(limbs@);
            if offset > 256 {
                vstd::arithmetic::power2::lemma_pow2_strictly_increases(256, offset as nat);
            }
            vstd::arithmetic::div_mod::lemma_basic_div(value as int, pow2(offset as nat) as int);
            lemma_pow2_pos(offset as nat);
            assert(value / pow2(offset as nat) == 0);
            vstd::arithmetic::div_mod::lemma_small_mod(0, pow2(w));
        }
        0
    }
}

/// The 32 bytes of a four-limb number, most significant first.
pub fn limbs_to_be(limbs: &[u64; 4]) -> (out: [u8; 32])
    ensures
        out@ == be_bytes(limbs_value(limbs@), 32),
{
    let a = u64_to_be(limbs[3]);
    let b = u64_to_be(limbs[2]);
    let c = u64_to_be(limbs[1]);
    let d = u64_to_be(limbs[0]);
    let out: [u8; 32] = [
        a[0], a[1], a[2], a[3], a[4], a[5], a[6], a[7],
        b[0], b[1], b[2], b[3], b[4], b[5], b[6], b[7],
        c[0], c[1], c[2], c[3], c[4], c[5], c[6], c[7],
        d[0], d[1], d[2], d[3], d[4], d[5], d[6], d[7],
    ];
    proof {
        lemma_limbs_bytes(limbs@);
        assert(out@ =~= a@ + b@ + c@ + d@);
    }
    out
}

/// The bytes of a four-limb number are those of its limbs, from the top one down.
pub proof fn lemma_limbs_bytes(l: Seq<u64>)
    ensures
        be_bytes(limbs_value(l), 32) == be_bytes(l[3] as nat, 8) + be_bytes(l[2] as nat, 8)
            + be_bytes(l[1] as nat, 8) + be_bytes(l[0] as nat, 8),
{
    lemma_pow256_values();
    let l3 = l[3] as nat;
    let l2 = l[2] as nat;
    let l1 = l[1] as nat;
    let l0 = l[0] as nat;
    let b = 0x1_0000_0000_0000_0000nat;
    lemma_be_bytes_split(l3, l2, 8, 8);
    lemma_be_bytes_split(l3 * b + l2, l1, 16, 8);
    lemma_be_bytes_split((l3 * b + l2) * b + l1, l0, 24, 8);
    assert(limbs_value(l) == ((l3 * b + l2) * b + l1) * b + l0);
}

/// The four-limb number that the 32 bytes at `at` stand for.
pub fn be_to_limbs(bytes: &[u8], at: usize) -> (limbs: [u64; 4])
    requires
        at + 32 <= bytes@.len(),
    ensures
        limbs_value(limbs@) == be_value(bytes@.subrange(at as int, at + 32)),
{
    let len: usize = bytes.len();
    let a = be_to_u64(bytes, at);
    let b = be_to_u64(bytes, at + 8);
    let c = be_to_u64(bytes, at + 16);
    let d = be_to_u64(bytes, at + 24);
    proof {
        let s = bytes@.subrange(at as int, at + 32);
        let s0 = bytes@.subrange(at as int, at + 8);
        let s1 = bytes@.subrange(at + 8, at + 16);
        let s2 = bytes@.subrange(at + 16, at + 24);
        let s3 = bytes@.subrange(at + 24, at + 32);
        assert(s =~= s0 + s1 + s2 + s3);
        lemma_be_value_concat(s0, s1);
        lemma_be_value_concat(s0 + s1, s2);
        lemma_be_value_concat(s0 + s1 + s2, s3);
        lemma_pow256_values();
    }
    let limbs: [u64; 4] = [d, c, b, a];
    proof {
        assert(limbs@[0] == d && limbs@[1] == c && limbs@[2] == b && limbs@[3] == a);
    }
    limbs
}

/// Limbs count by powers of `2^64`, the first one by one.
pub proof fn law_limbs(l: Seq<u64>)
    ensures
        limbs_value(l) == l[0] + l[1] * pow2(64) + l[2] * pow2(128) + l[3] * pow2(192),
{
    lemma_pow2_limbs();
}

} // verus!
