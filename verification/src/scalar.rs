//! Scalars: numbers modulo the order of the secp256k1 group.

use ark_ff::{BigInteger, Field, PrimeField};
use vstd::arithmetic::power::pow;
use vstd::arithmetic::power2::{
    lemma2_to64, lemma2_to64_rest, lemma_pow2_adds, lemma_pow2_strictly_increases, pow2,
};
use vstd::prelude::*;

use crate::bytes::{be_bytes, be_value, lemma_be_value_concat, pow256};
use crate::encoding::{
    all_hex, hex_decode, hex_value, is_hex_digit, lemma_hex_bytes_value,
    lemma_hex_value_leading_zero,
};
use crate::limbs::{limbs_less, limbs_to_be, limbs_value};

verus! {

/// The order of the group, and of the scalar field.
#[verifier::opaque]
pub open spec fn curve_order() -> nat {
    0xFFFF_FFFF_FFFF_FFFF_FFFF_FFFF_FFFF_FFFE_BAAE_DCE6_AF48_A03B_BFD2_5E8C_D036_4141nat
}

pub proof fn lemma_curve_order()
    ensures
        0x1_0000_0000_0000_0000_0000_0000_0000_0000_0000_0000_0000_0000nat < curve_order(),
        curve_order()
            < 0x1_0000_0000_0000_0000_0000_0000_0000_0000_0000_0000_0000_0000_0000_0000_0000_0000nat,
{
    reveal(curve_order);
}

/// Powers of two up to the 255th are below the order.
pub proof fn lemma_pow2_below_order(k: nat)
    requires
        k <= 255,
    ensures
        pow2(k) < curve_order(),
{
    lemma2_to64();
    lemma2_to64_rest();
    lemma_pow2_adds(64, 64);
    lemma_pow2_adds(128, 64);
    lemma_pow2_adds(192, 63);
    if k < 255 {
        lemma_pow2_strictly_increases(k, 255);
    }
    reveal(curve_order);
}

/// A scalar, held as its least non-negative representative.
#[derive(Clone, Copy, Debug)]
pub struct Fr {
    pub limbs: [u64; 4],
}

impl View for Fr {
    type V = nat;

    open spec fn view(&self) -> nat {
        limbs_value(self.limbs@)
    }
}

impl Fr {
    /// The limbs stand for a number below the order.
    pub open spec fn wf(&self) -> bool {
        self@ < curve_order()
    }

    /// A small number as a scalar.
    pub fn from_u64(v: u64) -> (r: Fr)
        ensures
            r.wf(),
            r@ == v,
    {
        proof {
            lemma_curve_order();
        }
        Fr { limbs: [v, 0, 0, 0] }
    }

    /// Whether this is zero.
    pub fn is_zero(&self) -> (r: bool)
        ensures
            r == (self@ == 0),
    {
        self.limbs[0] == 0 && self.limbs[1] == 0 && self.limbs[2] == 0 && self.limbs[3] == 0
    }

    /// Whether this representative is below another.
    pub fn less(&self, other: &Fr) -> (r: bool)
        ensures
            r == (self@ < other@),
    {
        limbs_less(&self.limbs, &other.limbs)
    }
}

/// The numbers that scalars stand for.
pub open spec fn scalar_values(v: Seq<Fr>) -> Seq<nat> {
    Seq::new(v.len(), |i: int| v[i]@)
}

/// `ark_secp256k1::Fr` addition: the sum reduced modulo the order.
#[verifier::external_body]
pub(crate) fn fr_add(a: &Fr, b: &Fr) -> (r: Fr)
    requires
        a.wf(),
        b.wf(),
    ensures
        r.wf(),
        r@ == (a@ + b@) % curve_order(),
{
    let x = ark_secp256k1::Fr::from_bigint(ark_ff::BigInt(a.limbs)).unwrap();
    let y = ark_secp256k1::Fr::from_bigint(ark_ff::BigInt(b.limbs)).unwrap();
    Fr { limbs: (x + y).into_bigint().0 }
}

/// `ark_secp256k1::Fr` subtraction: the difference reduced modulo the order.
#[verifier::external_body]
pub(crate) fn fr_sub(a: &Fr, b: &Fr) -> (r: Fr)
    requires
        a.wf(),
        b.wf(),
    ensures
        r.wf(),
        r@ == (a@ - b@) % curve_order() as int,
{
    let x = ark_secp256k1::Fr::from_bigint(ark_ff::BigInt(a.limbs)).unwrap();
    let y = ark_secp256k1::Fr::from_bigint(ark_ff::BigInt(b.limbs)).unwrap();
    Fr { limbs: (x - y).into_bigint().0 }
}

/// `ark_secp256k1::Fr` multiplication: the product reduced modulo the order.
#[verifier::external_body]
pub(crate) fn fr_mul(a: &Fr, b: &Fr) -> (r: Fr)
    requires
        a.wf(),
        b.wf(),
    ensures
        r.wf(),
        r@ == (a@ * b@) % curve_order(),
{
    let x = ark_secp256k1::Fr::from_bigint(ark_ff::BigInt(a.limbs)).unwrap();
    let y = ark_secp256k1::Fr::from_bigint(ark_ff::BigInt(b.limbs)).unwrap();
    Fr { limbs: (x * y).into_bigint().0 }
}

/// `ark_ff::Field::inverse` on `ark_secp256k1::Fr`: the multiplicative inverse of every scalar
/// but zero, which has none.
#[verifier::external_body]
pub(crate) fn fr_inverse(a: &Fr) -> (r: Option<Fr>)
    requires
        a.wf(),
    ensures
        r is None <==> a@ == 0,
        r matches Some(i) ==> i.wf() && (i@ * a@) % curve_order() == 1,
{
    let x = ark_secp256k1::Fr::from_bigint(ark_ff::BigInt(a.limbs)).unwrap();
    match x.inverse() {
        Some(i) => Some(Fr { limbs: i.into_bigint().0 }),
        None => None,
    }
}

/// `ark_ff::Field::pow` on `ark_secp256k1::Fr`: the power reduced modulo the order.
#[verifier::external_body]
pub(crate) fn fr_pow(a: &Fr, exp: u64) -> (r: Fr)
    requires
        a.wf(),
    ensures
        r.wf(),
        r@ == pow(a@ as int, exp as nat) % curve_order() as int,
{
    let x = ark_secp256k1::Fr::from_bigint(ark_ff::BigInt(a.limbs)).unwrap();
    Fr { limbs: x.pow([exp]).into_bigint().0 }
}

/// `ark_ff::PrimeField::from_be_bytes_mod_order` on `ark_secp256k1::Fr`: the number that the
/// bytes stand for, reduced modulo the order.
#[verifier::external_body]
pub(crate) fn fr_from_be_bytes_mod_order(bytes: &[u8; 32]) -> (r: Fr)
    ensures
        r.wf(),
        r@ == be_value(bytes@) % curve_order(),
{
    Fr { limbs: ark_secp256k1::Fr::from_be_bytes_mod_order(bytes).into_bigint().0 }
}

/// How many binary digits a number has.
pub open spec fn bit_length(v: nat) -> nat
    decreases v,
{
    if v == 0 {
        0
    } else {
        1 + bit_length(v / 2)
    }
}

/// `ark_ff::BigInteger::num_bits` on four limbs: the number of binary digits, none for zero.
#[verifier::external_body]
pub(crate) fn num_bits(limbs: &[u64; 4]) -> (r: u32)
    ensures
        r == bit_length(limbs_value(limbs@)),
        r <= 256,
{
    ark_ff::BigInt(*limbs).num_bits()
}

/// Two to the power `e`, as a scalar.
pub fn pow2_scalar(e: u64) -> (r: Fr)
    ensures
        r.wf(),
        r@ == pow2(e as nat) % curve_order(),
{
    let two = Fr::from_u64(2);
    proof {
        vstd::arithmetic::power2::lemma_pow2(e as nat);
    }
    fr_pow(&two, e)
}

/// The limbs of a scalar.
pub fn scalar_to_limbs(scalar: Fr) -> (r: [u64; 4])
    ensures
        r == scalar.limbs,
        limbs_value(r@) == scalar@,
{
    scalar.limbs
}

/// The scalar with these limbs; there is none if they reach the order.
pub fn limbs_to_fr(limbs: [u64; 4]) -> (r: Option<Fr>)
    ensures
        r is Some <==> limbs_value(limbs@) < curve_order(),
        r matches Some(x) ==> x.wf() && x.limbs == limbs && x@ == limbs_value(limbs@),
{
    let order: [u64; 4] = [
        0xBFD2_5E8C_D036_4141,
        0xBAAE_DCE6_AF48_A03B,
        0xFFFF_FFFF_FFFF_FFFE,
        0xFFFF_FFFF_FFFF_FFFF,
    ];
    proof {
        reveal(curve_order);
        assert(limbs_value(order@) == curve_order());
    }
    if limbs_less(&limbs, &order) {
        Some(Fr { limbs })
    } else {
        None
    }
}

/// A scalar as 32 bytes, most significant first.
pub fn scalar_to_bytes(scalar: Fr) -> (r: [u8; 32])
    ensures
        r@ == be_bytes(scalar@, 32),
{
    limbs_to_be(&scalar.limbs)
}

/// What is left after every leading `0` followed by `mark` is taken off.
pub open spec fn strip_marks(s: Seq<char>, mark: char) -> Seq<char>
    decreases s.len(),
{
    if s.len() >= 2 && s[0] == '0' && s[1] == mark {
        strip_marks(s.skip(2), mark)
    } else {
        s
    }
}

/// The text without leading `0x`, and then without leading `0X`.
pub open spec fn strip_hex_marks(s: Seq<char>) -> Seq<char> {
    strip_marks(strip_marks(s, 'x'), 'X')
}

fn skip_marks<'a>(s: &'a str, mark: char) -> (r: &'a str)
    ensures
        r@ == strip_marks(s@, mark),
{
    let len: usize = s.unicode_len();
    let mut at: usize = 0;
    assert(s@.skip(0) =~= s@);
    while len - at >= 2 && s.get_char(at) == '0' && s.get_char(at + 1) == mark
        invariant
            len == s@.len(),
            at <= len,
            strip_marks(s@, mark) == strip_marks(s@.skip(at as int), mark),
        decreases len - at,
    {
        assert(s@.skip(at as int).skip(2) =~= s@.skip(at + 2));
        at = at + 2;
    }
    assert(s@.subrange(at as int, len as int) =~= s@.skip(at as int));
    s.substring_char(at, len)
}

/// The text without leading `0x` and `0X` marks.
pub fn strip_hex_prefix<'a>(s: &'a str) -> (r: &'a str)
    ensures
        r@ == strip_hex_marks(s@),
{
    skip_marks(skip_marks(s, 'x'), 'X')
}

/// The bytes right-aligned in 32, with zeros before them.
fn right_align(b: &Vec<u8>) -> (r: [u8; 32])
    requires
        b@.len() <= 32,
    ensures
        be_value(r@) == be_value(b@),
{
    let mut out: [u8; 32] = [0u8; 32];
    let start: usize = 32 - b.len();
    let mut i: usize = 0;
    while i < b.len()
        invariant
            i <= b@.len() <= 32,
            start == 32 - b@.len(),
            forall|k: int| 0 <= k < start ==> out@[k] == 0,
            forall|k: int| 0 <= k < i ==> #[trigger] out@[start + k] == b@[k],
        decreases b@.len() - i,
    {
        out[start + i] = b[i];
        i = i + 1;
    }
    proof {
        let pad = out@.subrange(0, start as int);
        assert forall|k: int| 0 <= k < b@.len() implies out@.subrange(start as int, 32)[k]
            == b@[k] by {
            assert(out@[start + k] == b@[k]);
        }
        assert(out@.subrange(start as int, 32) =~= b@);
        assert(out@ =~= pad + b@);
        lemma_be_value_concat(pad, b@);
        lemma_be_value_zeros(pad);
        assert(0 * pow256(b@.len()) == 0);
    }
    out
}

proof fn lemma_be_value_zeros(s: Seq<u8>)
    requires
        forall|k: int| 0 <= k < s.len() ==> s[k] == 0,
    ensures
        be_value(s) == 0,
    decreases s.len(),
{
    if s.len() > 0 {
        lemma_be_value_zeros(s.drop_last());
    }
}

/// The scalar that a hexadecimal text stands for, reduced modulo the order.
///
/// Leading `0x` and `0X` marks are ignored. There is none if a character is no hexadecimal digit
/// or if the digits need more than 32 bytes.
pub fn parse_hex_to_fr(hex_str: &str) -> (r: Option<Fr>)
    ensures
        r is Some <==> all_hex(strip_hex_marks(hex_str@)) && strip_hex_marks(hex_str@).len() <= 64,
        r matches Some(x) ==> x.wf() && x@ == hex_value(strip_hex_marks(hex_str@)) % curve_order(),
{
    let clean = strip_hex_prefix(hex_str);
    let mut padded = String::from_str("");
    let odd: bool = clean.unicode_len() % 2 != 0;
    if odd {
        padded.append("0");
    }
    padded.append(clean);
    proof {
        reveal_strlit("");
        reveal_strlit("0");
        if odd {
            assert(padded@ =~= seq!['0'] + clean@);
            lemma_hex_value_leading_zero(clean@);
            if all_hex(clean@) {
                assert forall|i: int| 0 <= i < padded@.len() implies is_hex_digit(
                    #[trigger] padded@[i],
                ) by {
                    if i > 0 {
                        assert(padded@[i] == clean@[i - 1]);
                    }
                }
            }
            if all_hex(padded@) {
                assert forall|i: int| 0 <= i < clean@.len() implies is_hex_digit(
                    #[trigger] clean@[i],
                ) by {
                    assert(padded@[i + 1] == clean@[i]);
                }
            }
        } else {
            assert(padded@ =~= clean@);
        }
    }
    match hex_decode(padded.as_str()) {
        Some(decoded) => {
            proof {
                lemma_hex_bytes_value(padded@);
            }
            if decoded.len() > 32 {
                None
            } else {
                let bytes = right_align(&decoded);
                Some(fr_from_be_bytes_mod_order(&bytes))
            }
        },
        None => None,
    }
}

/// Only marks are taken off a text, and all of them: what is left is the text behind a number of
/// leading marks, and starts with none.
pub proof fn law_marks_are_taken_off(s: Seq<char>, mark: char)
    ensures
        ({
            let left = strip_marks(s, mark);
            &&& !(left.len() >= 2 && left[0] == '0' && left[1] == mark)
            &&& exists|k: nat|
                2 * k + left.len() == s.len() && #[trigger] s.skip(2 * k as int) == left && forall|i: int|
                    #![trigger s[2 * i]]
                    0 <= i < k ==> s[2 * i] == '0' && s[2 * i + 1] == mark
        }),
    decreases s.len(),
{
    let left = strip_marks(s, mark);
    if s.len() >= 2 && s[0] == '0' && s[1] == mark {
        let rest = s.skip(2);
        law_marks_are_taken_off(rest, mark);
        let k = choose|k: nat|
            2 * k + left.len() == rest.len() && #[trigger] rest.skip(2 * k as int) == left
                && forall|i: int|
                #![trigger rest[2 * i]]
                0 <= i < k ==> rest[2 * i] == '0' && rest[2 * i + 1] == mark;
        let m = k + 1;
        assert(s.skip(2 * m as int) =~= rest.skip(2 * k as int));
        assert forall|i: int|
            #![trigger s[2 * i]]
            0 <= i < m implies s[2 * i] == '0' && s[2 * i + 1] == mark by {
            if i > 0 {
                assert(rest[2 * (i - 1)] == s[2 * i]);
                assert(rest[2 * (i - 1) + 1] == s[2 * i + 1]);
            }
        }
    } else {
        assert(s.skip(2 * 0nat as int) =~= s);
    }
}

/// The marks with a small letter are taken off first, and then those with a capital one.
pub proof fn law_marks_in_order(s: Seq<char>)
    ensures
        strip_hex_marks(s) == strip_marks(strip_marks(s, 'x'), 'X'),
{
}

/// The order of the group, by its distance from `2^256`.
pub proof fn law_group_order()
    ensures
        curve_order() + 0x1_4551_2319_50B7_5FC4_402D_A173_2FC9_BEBFnat == pow2(256),
{
    reveal(curve_order);
    lemma2_to64();
    lemma2_to64_rest();
    lemma_pow2_adds(64, 64);
    lemma_pow2_adds(128, 64);
    lemma_pow2_adds(192, 64);
}

/// The numbers of scalars are as many as these, in their order.
pub proof fn law_scalar_values(v: Seq<Fr>, i: int)
    ensures
        scalar_values(v).len() == v.len(),
        0 <= i < v.len() ==> scalar_values(v)[i] == limbs_value(v[i].limbs@),
{
}

} // verus!
