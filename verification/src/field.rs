//! The prime field that the coordinates of secp256k1 points live in.

use ark_ff::{Field, PrimeField};
use vstd::arithmetic::power::pow;
use vstd::arithmetic::power2::{lemma2_to64, lemma2_to64_rest, lemma_pow2_adds, pow2};
use vstd::prelude::*;

use crate::limbs::{limbs_equal, limbs_less, limbs_value};
use crate::modular::lemma_mod_mul3;

verus! {

/// The order of the coordinate field.
#[verifier::opaque]
pub open spec fn field_modulus() -> nat {
    0xFFFF_FFFF_FFFF_FFFF_FFFF_FFFF_FFFF_FFFF_FFFF_FFFF_FFFF_FFFF_FFFF_FFFE_FFFF_FC2Fnat
}

pub proof fn lemma_field_modulus()
    ensures
        7 < field_modulus(),
        field_modulus() % 2 == 1,
        field_modulus() < 0x1_0000_0000_0000_0000_0000_0000_0000_0000_0000_0000_0000_0000_0000_0000_0000_0000nat,
{
    reveal(field_modulus);
}

/// A field element, held as its least non-negative representative.
#[derive(Clone, Copy, Debug)]
pub struct Fq {
    pub limbs: [u64; 4],
}

impl View for Fq {
    type V = nat;

    open spec fn view(&self) -> nat {
        limbs_value(self.limbs@)
    }
}

impl Fq {
    /// The limbs stand for a number below the modulus.
    pub open spec fn wf(&self) -> bool {
        self@ < field_modulus()
    }

    /// The field element with these limbs, if they are below the modulus.
    pub fn from_limbs(limbs: [u64; 4]) -> (r: Option<Fq>)
        ensures
            r matches Some(x) ==> x.limbs == limbs && x.wf(),
            r is Some <==> limbs_value(limbs@) < field_modulus(),
    {
        let modulus: [u64; 4] = [
            0xFFFF_FFFE_FFFF_FC2F,
            0xFFFF_FFFF_FFFF_FFFF,
            0xFFFF_FFFF_FFFF_FFFF,
            0xFFFF_FFFF_FFFF_FFFF,
        ];
        proof {
            reveal(field_modulus);
            assert(limbs_value(modulus@) == field_modulus());
        }
        if limbs_less(&limbs, &modulus) {
            Some(Fq { limbs })
        } else {
            None
        }
    }

    /// A small number as a field element.
    pub fn from_u64(v: u64) -> (r: Fq)
        ensures
            r.wf(),
            r@ == v,
    {
        proof {
            reveal(field_modulus);
        }
        Fq { limbs: [v, 0, 0, 0] }
    }

    /// Whether this is zero.
    pub fn is_zero(&self) -> (r: bool)
        ensures
            r == (self@ == 0),
    {
        self.limbs[0] == 0 && self.limbs[1] == 0 && self.limbs[2] == 0 && self.limbs[3] == 0
    }

    /// Whether two field elements are the same.
    pub fn same(&self, other: &Fq) -> (r: bool)
        ensures
            r == (self@ == other@),
    {
        limbs_equal(&self.limbs, &other.limbs)
    }

    /// Whether the representative is odd.
    pub fn is_odd(&self) -> (r: bool)
        ensures
            r == (self@ % 2 == 1),
    {
        self.limbs[0] % 2 == 1
    }
}

/// `ark_secp256k1::Fq` multiplication: the product reduced modulo the field order, which is
/// zero only if a factor is.
#[verifier::external_body]
pub(crate) fn fq_mul(a: &Fq, b: &Fq) -> (r: Fq)
    requires
        a.wf(),
        b.wf(),
    ensures
        r.wf(),
        r@ == (a@ * b@) % field_modulus(),
        r@ == 0 <==> a@ == 0 || b@ == 0,
{
    let x = ark_secp256k1::Fq::from_bigint(ark_ff::BigInt(a.limbs)).unwrap();
    let y = ark_secp256k1::Fq::from_bigint(ark_ff::BigInt(b.limbs)).unwrap();
    Fq { limbs: (x * y).into_bigint().0 }
}

/// `ark_secp256k1::Fq` addition: the sum reduced modulo the field order.
#[verifier::external_body]
pub(crate) fn fq_add(a: &Fq, b: &Fq) -> (r: Fq)
    requires
        a.wf(),
        b.wf(),
    ensures
        r.wf(),
        r@ == (a@ + b@) % field_modulus(),
{
    let x = ark_secp256k1::Fq::from_bigint(ark_ff::BigInt(a.limbs)).unwrap();
    let y = ark_secp256k1::Fq::from_bigint(ark_ff::BigInt(b.limbs)).unwrap();
    Fq { limbs: (x + y).into_bigint().0 }
}

/// `ark_secp256k1::Fq` subtraction: the difference reduced modulo the field order.
#[verifier::external_body]
pub(crate) fn fq_sub(a: &Fq, b: &Fq) -> (r: Fq)
    requires
        a.wf(),
        b.wf(),
    ensures
        r.wf(),
        r@ == (a@ - b@) % field_modulus() as int,
{
    let x = ark_secp256k1::Fq::from_bigint(ark_ff::BigInt(a.limbs)).unwrap();
    let y = ark_secp256k1::Fq::from_bigint(ark_ff::BigInt(b.limbs)).unwrap();
    Fq { limbs: (x - y).into_bigint().0 }
}

/// `ark_ff::Field::inverse` on `ark_secp256k1::Fq`: the multiplicative inverse of every element
/// but zero, which has none.
#[verifier::external_body]
pub(crate) fn fq_inverse(a: &Fq) -> (r: Option<Fq>)
    requires
        a.wf(),
    ensures
        r is None <==> a@ == 0,
        r matches Some(i) ==> i.wf() && (i@ * a@) % field_modulus() == 1,
{
    let x = ark_secp256k1::Fq::from_bigint(ark_ff::BigInt(a.limbs)).unwrap();
    match x.inverse() {
        Some(i) => Some(Fq { limbs: i.into_bigint().0 }),
        None => None,
    }
}

/// `y` is a square root of `a` in the field.
pub open spec fn is_root(y: nat, a: nat) -> bool {
    y < field_modulus() && (y * y) % field_modulus() == a
}

/// `ark_ff::Field::sqrt` on `ark_secp256k1::Fq`: of every element that has a square root, the one
/// that is a power of it, by a quarter of the field order rounded up.
#[verifier::external_body]
pub(crate) fn fq_sqrt(a: &Fq) -> (r: Option<Fq>)
    requires
        a.wf(),
    ensures
        r is Some <==> (exists|y: nat| is_root(y, a@)),
        r matches Some(y) ==> y.wf() && is_root(y@, a@) && y@ == pow(
            a@ as int,
            (field_modulus() + 1) / 4,
        ) % field_modulus() as int,
{
    let x = ark_secp256k1::Fq::from_bigint(ark_ff::BigInt(a.limbs)).unwrap();
    match x.sqrt() {
        Some(y) => Some(Fq { limbs: y.into_bigint().0 }),
        None => None,
    }
}

/// The product of the first `n` elements.
pub open spec fn product_to(v: Seq<Fq>, n: int) -> nat
    decreases n,
{
    if n <= 0 {
        1
    } else {
        (product_to(v, n - 1) * v[n - 1]@) % field_modulus()
    }
}

/// The product of the elements from index `i` on.
pub open spec fn product_from(v: Seq<Fq>, i: int) -> nat
    decreases v.len() - i,
{
    if i >= v.len() {
        1
    } else {
        (product_from(v, i + 1) * v[i]@) % field_modulus()
    }
}

/// All elements are reduced.
pub open spec fn all_reduced(v: Seq<Fq>) -> bool {
    forall|i: int| 0 <= i < v.len() ==> (#[trigger] v[i]).wf()
}

/// No element is zero.
pub open spec fn none_zero(v: Seq<Fq>) -> bool {
    forall|i: int| 0 <= i < v.len() ==> (#[trigger] v[i])@ != 0
}

/// Replaces every element by its inverse, at the cost of one inversion.
///
/// `scratch` receives the running products. If an element is zero no inverse exists, and every
/// element is replaced by the product of the others instead.
pub fn batch_inversion_in_place(v: &mut Vec<Fq>, scratch: &mut Vec<Fq>)
    requires
        all_reduced(old(v)@),
        old(v)@.len() <= old(scratch)@.len(),
    ensures
        final(v)@.len() == old(v)@.len(),
        all_reduced(final(v)@),
        none_zero(old(v)@) ==> forall|i: int|
            0 <= i < old(v)@.len() ==> ((#[trigger] final(v)@[i])@ * old(v)@[i]@) % field_modulus()
                == 1,
        !none_zero(old(v)@) ==> forall|i: int|
            0 <= i < old(v)@.len() ==> (#[trigger] final(v)@[i])@ == (product_to(old(v)@, i)
                * product_from(old(v)@, i + 1)) % field_modulus(),
        final(scratch)@.len() == old(scratch)@.len(),
        forall|i: int|
            0 <= i < old(v)@.len() ==> (#[trigger] final(scratch)@[i]).wf()
                && final(scratch)@[i]@ == product_to(old(v)@, i + 1),
        forall|i: int|
            old(v)@.len() <= i < old(scratch)@.len() ==> final(scratch)@[i] == old(scratch)@[i],
{
    let n: usize = v.len();
    if n == 0 {
        return ;
    }
    let ghost input = v@;
    let ghost spare = scratch@;
    let ghost p = field_modulus() as int;
    proof {
        lemma_field_modulus();
        assert(input[0].wf());
        vstd::arithmetic::div_mod::lemma_small_mod(input[0]@, field_modulus());
        assert(product_to(input, 1) == (product_to(input, 0) * input[0]@) % field_modulus());
        assert(1 * input[0]@ == input[0]@);
    }
    scratch[0] = v[0];
    let mut i: usize = 1;
    while i < n
        invariant
            1 <= i <= n,
            n == input.len(),
            n <= spare.len(),
            v@ == input,
            all_reduced(input),
            scratch@.len() == spare.len(),
            forall|k: int|
                0 <= k < i ==> (#[trigger] scratch@[k]).wf() && scratch@[k]@ == product_to(
                    input,
                    k + 1,
                ),
            forall|k: int| n <= k < spare.len() ==> scratch@[k] == spare[k],
            scratch@[i - 1]@ == 0 <==> exists|j: int| 0 <= j < i && (#[trigger] input[j])@ == 0,
        decreases n - i,
    {
        assert(scratch@[i - 1].wf());
        assert(input[i as int].wf());
        let next = fq_mul(&scratch[i - 1], &v[i]);
        scratch[i] = next;
        i = i + 1;
        proof {
            if exists|j: int| 0 <= j < i && (#[trigger] input[j])@ == 0 {
                let j = choose|j: int| 0 <= j < i && (#[trigger] input[j])@ == 0;
                if j < i - 1 {
                    assert(exists|k: int| 0 <= k < i - 1 && (#[trigger] input[k])@ == 0);
                }
            }
        }
    }
    assert(scratch@[n - 1].wf());
    let one = Fq::from_u64(1);
    let mut inv = match fq_inverse(&scratch[n - 1]) {
        Some(val) => val,
        None => one,
    };
    let ghost clear = none_zero(input);
    proof {
        assert(clear <==> scratch@[n - 1]@ != 0);
        if !clear {
            assert(product_from(input, n as int) == 1);
        }
    }
    let mut i: usize = n - 1;
    while i > 0
        invariant
            0 <= i < n,
            n == input.len(),
            n <= spare.len(),
            p == field_modulus(),
            1 < p,
            v@.len() == n,
            all_reduced(input),
            all_reduced(v@),
            inv.wf(),
            scratch@.len() == spare.len(),
            forall|k: int|
                0 <= k < n ==> (#[trigger] scratch@[k]).wf() && scratch@[k]@ == product_to(
                    input,
                    k + 1,
                ),
            forall|k: int| n <= k < spare.len() ==> scratch@[k] == spare[k],
            forall|k: int| 0 <= k <= i ==> v@[k] == input[k],
            clear ==> (inv@ * product_to(input, i + 1)) % (p as nat) == 1,
            clear ==> forall|k: int|
                i < k < n ==> ((#[trigger] v@[k])@ * input[k]@) % (p as nat) == 1,
            !clear ==> inv@ == product_from(input, i + 1),
            !clear ==> forall|k: int|
                i < k < n ==> (#[trigger] v@[k])@ == (product_to(input, k) * product_from(
                    input,
                    k + 1,
                )) % (p as nat),
        decreases i,
    {
        assert(scratch@[i - 1].wf());
        assert(v@[i as int] == input[i as int] && input[i as int].wf());
        let tmp = fq_mul(&scratch[i - 1], &inv);
        let next = fq_mul(&inv, &v[i]);
        proof {
            let pre = product_to(input, i as int) as int;
            let x = input[i as int]@ as int;
            let c = inv@ as int;
            assert(product_to(input, i + 1) == (pre * x) % p);
            if clear {
                // c * (pre * x) = 1 both ways round
                lemma_mod_mul3(c, pre, x, p);
                lemma_mod_mul3(pre, c, x, p);
                lemma_mod_mul3(c, x, pre, p);
                assert(c * pre * x == pre * c * x) by (nonlinear_arith);
                assert(c * x * pre == c * pre * x) by (nonlinear_arith);
                assert((tmp@ * x) % p == 1);
                assert((next@ * pre) % p == 1);
            }
        }
        inv = next;
        v[i] = tmp;
        i = i - 1;
    }
    v[0] = inv;
    proof {
        vstd::arithmetic::div_mod::lemma_small_mod(1, field_modulus());
        let x = input[0]@;
        assert(product_to(input, 0) == 1);
        assert(product_to(input, 1) == (1 * x) % field_modulus());
        assert(input[0].wf());
        vstd::arithmetic::div_mod::lemma_small_mod(x, field_modulus());
        vstd::arithmetic::div_mod::lemma_small_mod(inv@, field_modulus());
        assert(1 * product_from(input, 1) == product_from(input, 1));
    }
}

/// The running products: nothing gives one, each further element multiplies what was there, and
/// the product of the first elements times that of the rest is that of all.
pub proof fn law_products(v: Seq<Fq>, i: int)
    requires
        0 <= i <= v.len(),
        all_reduced(v),
    ensures
        product_to(v, 0) == 1,
        product_from(v, v.len() as int) == 1,
        i < v.len() ==> product_to(v, i + 1) == (product_to(v, i) * v[i]@) % field_modulus(),
        i < v.len() ==> product_from(v, i) == (v[i]@ * product_from(v, i + 1)) % field_modulus(),
        (product_to(v, i) * product_from(v, i)) % field_modulus() == product_to(
            v,
            v.len() as int,
        ) % field_modulus(),
    decreases v.len() - i,
{
    let p = field_modulus() as int;
    lemma_field_modulus();
    if i < v.len() {
        law_products(v, i + 1);
        let a = product_to(v, i) as int;
        let x = v[i]@ as int;
        let b = product_from(v, i + 1) as int;
        assert(b * x == x * b) by (nonlinear_arith);
        lemma_mod_mul3(a, x, b, p);
        assert(a * x * b == a * (x * b)) by (nonlinear_arith);
    } else {
        assert(product_to(v, i) * 1 == product_to(v, i));
    }
}

/// The order of the coordinate field is `2^256 - 2^32 - 977`.
pub proof fn law_field_order()
    ensures
        field_modulus() + pow2(32) + 977 == pow2(256),
{
    reveal(field_modulus);
    lemma2_to64();
    lemma2_to64_rest();
    lemma_pow2_adds(64, 64);
    lemma_pow2_adds(128, 64);
    lemma_pow2_adds(192, 64);
}

} // verus!
