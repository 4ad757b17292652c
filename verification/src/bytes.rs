//! Big-endian byte strings and the numbers they stand for.

use vstd::arithmetic::power::{lemma_pow0, lemma_pow1, lemma_pow_adds, lemma_pow_positive, pow};
use vstd::prelude::*;

verus! {

/// The number a big-endian byte string stands for.
pub open spec fn be_value(s: Seq<u8>) -> nat
    decreases s.len(),
{
    if s.len() == 0 {
        0
    } else {
        be_value(s.drop_last()) * 256 + s.last() as nat
    }
}

/// The `n` low bytes of `v`, most significant first.
pub open spec fn be_bytes(v: nat, n: nat) -> Seq<u8>
    decreases n,
{
    if n == 0 {
        Seq::empty()
    } else {
        be_bytes(v / 256, (n - 1) as nat).push((v % 256) as u8)
    }
}

/// `256` to the power `n`.
pub open spec fn pow256(n: nat) -> nat
    decreases n,
{
    if n == 0 {
        1
    } else {
        256 * pow256((n - 1) as nat)
    }
}

pub proof fn lemma_pow256_values()
    ensures
        pow256(1) == 0x100,
        pow256(4) == 0x1_0000_0000,
        pow256(8) == 0x1_0000_0000_0000_0000,
        pow256(16) == 0x1_0000_0000_0000_0000 * 0x1_0000_0000_0000_0000,
        pow256(24) == 0x1_0000_0000_0000_0000 * (0x1_0000_0000_0000_0000
            * 0x1_0000_0000_0000_0000),
{
    reveal_with_fuel(pow256, 26);
}

pub proof fn lemma_be_value_bound(s: Seq<u8>)
    ensures
        be_value(s) < pow256(s.len()),
    decreases s.len(),
{
    if s.len() > 0 {
        lemma_be_value_bound(s.drop_last());
    }
}

pub proof fn lemma_be_bytes_len(v: nat, n: nat)
    ensures
        be_bytes(v, n).len() == n,
    decreases n,
{
    if n > 0 {
        lemma_be_bytes_len(v / 256, (n - 1) as nat);
    }
}

/// Writing a number and reading it back gives the number, if it fits.
pub proof fn lemma_be_roundtrip(v: nat, n: nat)
    requires
        v < pow256(n),
    ensures
        be_value(be_bytes(v, n)) == v,
        be_bytes(v, n).len() == n,
    decreases n,
{
    if n > 0 {
        let head = be_bytes(v / 256, (n - 1) as nat);
        lemma_be_roundtrip(v / 256, (n - 1) as nat);
        assert(be_bytes(v, n).drop_last() =~= head);
        assert(be_bytes(v, n).last() == (v % 256) as u8);
    }
}

/// Reading a byte string and writing the number back gives the bytes.
pub proof fn lemma_be_roundtrip_bytes(s: Seq<u8>)
    ensures
        be_bytes(be_value(s), s.len()) == s,
    decreases s.len(),
{
    if s.len() > 0 {
        lemma_be_roundtrip_bytes(s.drop_last());
        assert((be_value(s) % 256) as u8 == s.last());
        assert(be_value(s) / 256 == be_value(s.drop_last()));
        assert(s =~= s.drop_last().push(s.last()));
    }
}

/// A byte string in two parts stands for the shifted first part plus the second.
pub proof fn lemma_be_value_concat(a: Seq<u8>, b: Seq<u8>)
    ensures
        be_value(a + b) == be_value(a) * pow256(b.len()) + be_value(b),
    decreases b.len(),
{
    if b.len() == 0 {
        assert(a + b =~= a);
        assert(be_value(a) * 1 == be_value(a));
    } else {
        lemma_be_value_concat(a, b.drop_last());
        assert((a + b).drop_last() =~= a + b.drop_last());
        assert((a + b).last() == b.last());
        let x = be_value(a);
        let y = pow256((b.len() - 1) as nat);
        assert(pow256(b.len()) == 256 * y);
        let z = be_value(b.drop_last());
        assert((x * y + z) * 256 == x * y * 256 + z * 256);
        assert(x * y * 256 == x * (256 * y)) by (nonlinear_arith);
    }
}

/// Bytes of a number in two parts: the bytes of the high part, then those of the low part.
pub proof fn lemma_be_bytes_split(a: nat, b: nat, n: nat, k: nat)
    requires
        b < pow256(k),
    ensures
        be_bytes(a * pow256(k) + b, n + k) == be_bytes(a, n) + be_bytes(b, k),
    decreases k,
{
    let v = a * pow256(k) + b;
    if k == 0 {
        assert(a * 1 == a);
        assert(be_bytes(a, n) + be_bytes(b, k) =~= be_bytes(a, n));
    } else {
        let p = pow256((k - 1) as nat);
        let j = (k - 1) as nat;
        assert(a * (256 * p) == 256 * (a * p)) by (nonlinear_arith);
        assert(v / 256 == a * p + b / 256);
        assert(v % 256 == b % 256);
        lemma_be_bytes_split(a, b / 256, n, j);
        assert((n + k - 1) as nat == n + j);
        assert(be_bytes(v, n + k) == be_bytes(v / 256, n + j).push((v % 256) as u8));
        assert(be_bytes(a, n) + be_bytes(b, k) =~= (be_bytes(a, n) + be_bytes(b / 256, j)).push(
            (b % 256) as u8,
        ));
    }
}

/// The eight bytes of a word, most significant first.
pub fn u64_to_be(v: u64) -> (out: [u8; 8])
    ensures
        out@ == be_bytes(v as nat, 8),
{
    let mut out: [u8; 8] = [0u8; 8];
    let mut x: u64 = v;
    let mut i: usize = 8;
    proof {
        assert(be_bytes(v as nat, 8) =~= be_bytes(x as nat, 8) + out@.subrange(8, 8));
    }
    while i > 0
        invariant
            i <= 8,
            be_bytes(v as nat, 8) == be_bytes(x as nat, i as nat) + out@.subrange(i as int, 8),
        decreases i,
    {
        let ghost before = out@;
        let ghost x0 = x as nat;
        i = i - 1;
        out[i] = (x % 256) as u8;
        x = x / 256;
        proof {
            assert(be_bytes(x0, (i + 1) as nat) == be_bytes(x as nat, i as nat).push(
                (x0 % 256) as u8,
            ));
            assert(out@.subrange(i as int, 8) =~= seq![(x0 % 256) as u8] + before.subrange(
                i + 1,
                8,
            ));
            assert(be_bytes(x0, (i + 1) as nat) + before.subrange(i + 1, 8) =~= be_bytes(
                x as nat,
                i as nat,
            ) + out@.subrange(i as int, 8));
        }
    }
    assert(out@.subrange(0, 8) =~= out@);
    assert(be_bytes(x as nat, 0) + out@.subrange(0, 8) =~= out@);
    out
}

/// The four bytes of a half word, most significant first.
pub fn u32_to_be(v: u32) -> (out: [u8; 4])
    ensures
        out@ == be_bytes(v as nat, 4),
{
    let wide = u64_to_be(v as u64);
    let out: [u8; 4] = [wide[4], wide[5], wide[6], wide[7]];
    proof {
        let x = v as nat;
        reveal_with_fuel(be_bytes, 6);
        lemma_be_bytes_len(x / 256 / 256 / 256 / 256, 4);
        assert(out@ =~= be_bytes(x, 4));
    }
    out
}

/// The word that the eight bytes at `at` stand for.
pub fn be_to_u64(bytes: &[u8], at: usize) -> (v: u64)
    requires
        at + 8 <= bytes@.len(),
    ensures
        v == be_value(bytes@.subrange(at as int, at + 8)),
{
    let len: usize = bytes.len();
    let mut v: u64 = 0;
    let mut k: usize = 0;
    while k < 8
        invariant
            k <= 8,
            len == bytes@.len(),
            at + 8 <= len,
            v == be_value(bytes@.subrange(at as int, at + k)),
        decreases 8 - k,
    {
        proof {
            let head = bytes@.subrange(at as int, at + k);
            let longer = bytes@.subrange(at as int, at + k + 1);
            lemma_be_value_bound(longer);
            assert(longer.drop_last() =~= head);
            reveal_with_fuel(pow256, 10);
        }
        v = v * 256 + bytes[at + k] as u64;
        k = k + 1;
    }
    v
}

/// The half word that the four bytes at `at` stand for.
pub fn be_to_u32(bytes: &[u8], at: usize) -> (v: u32)
    requires
        at + 4 <= bytes@.len(),
    ensures
        v == be_value(bytes@.subrange(at as int, at + 4)),
{
    let len: usize = bytes.len();
    let mut v: u32 = 0;
    let mut k: usize = 0;
    while k < 4
        invariant
            k <= 4,
            len == bytes@.len(),
            at + 4 <= len,
            v == be_value(bytes@.subrange(at as int, at + k)),
        decreases 4 - k,
    {
        proof {
            let head = bytes@.subrange(at as int, at + k);
            let longer = bytes@.subrange(at as int, at + k + 1);
            lemma_be_value_bound(longer);
            assert(longer.drop_last() =~= head);
            reveal_with_fuel(pow256, 6);
        }
        v = v * 256 + bytes[at + k] as u32;
        k = k + 1;
    }
    v
}

/// The bytes of a number are its digits to base 256, the most significant first.
pub proof fn law_bytes_are_digits(v: nat, n: nat, i: int)
    requires
        0 <= i < n,
    ensures
        be_bytes(v, n).len() == n,
        be_bytes(v, n)[i] == (v as int / pow(256, (n - 1 - i) as nat)) % 256,
    decreases n,
{
    lemma_be_bytes_len(v, n);
    lemma_be_bytes_len(v / 256, (n - 1) as nat);
    if i == n - 1 {
        lemma_pow0(256);
        assert(v as int / 1 == v);
    } else {
        let k = (n - 2 - i) as nat;
        law_bytes_are_digits(v / 256, (n - 1) as nat, i);
        lemma_pow_positive(256, k);
        lemma_pow_adds(256, 1, k);
        lemma_pow1(256);
        vstd::arithmetic::div_mod::lemma_div_denominator(v as int, 256, pow(256, k));
    }
}

/// Each further byte counts by one, and what stands before it by 256.
pub proof fn law_bytes_count(s: Seq<u8>, b: u8)
    ensures
        be_value(Seq::empty()) == 0,
        be_value(s.push(b)) == 256 * be_value(s) + b,
{
    assert(s.push(b).drop_last() =~= s);
}

} // verus!
