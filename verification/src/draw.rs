//! Random scalars, by rejection.

use rand::{Rng, SeedableRng};
use rand_xoshiro::Xoshiro256PlusPlus;
use vstd::arithmetic::div_mod::{lemma_mod_breakdown, lemma_small_mod};
use vstd::arithmetic::power2::{
    lemma2_to64, lemma_pow2_adds, lemma_pow2_pos, lemma_pow2_strictly_increases, pow2,
};
use vstd::bits::lemma_u64_shl_is_mul;
use vstd::prelude::*;

use crate::bytes::{
    be_bytes, be_value, lemma_be_bytes_split, lemma_be_value_bound, lemma_be_value_concat,
    lemma_pow256_values, pow256, u64_to_be,
};
use crate::compact::lemma_bit_length_is;
use crate::encoding::{sha256, sha256_of};
use crate::scalar::{bit_length, curve_order, fr_from_be_bytes_mod_order, num_bits, Fr};

verus! {

/// `rand_xoshiro::Xoshiro256PlusPlus`, carried through unopened.
#[verifier::external_type_specification]
#[verifier::external_body]
pub struct ExXoshiro256PlusPlus(rand_xoshiro::Xoshiro256PlusPlus);

/// How many draws are made before giving up: the machine's limit, never reached in practice.
pub const MAX_DRAWS: u64 = 0xFFFF_FFFF_FFFF_FFFF;

/// The low `n` bytes of a number, least significant first.
pub open spec fn le_bytes(v: nat, n: nat) -> Seq<u8> {
    be_bytes(v, n).reverse()
}

/// What a generator's seed is hashed from: the time, the process and the worker, each
/// least significant byte first.
pub open spec fn seed_material(nanos: u128, process_id: u64, worker_id: u64) -> Seq<u8> {
    le_bytes(nanos as nat, 16) + le_bytes(process_id as nat, 8) + le_bytes(worker_id as nat, 8)
}

/// The bytes that a generator's seed is hashed from.
pub fn fast_rng_material(nanos: u128, process_id: u64, worker_id: u64) -> (r: [u8; 32])
    ensures
        r@ == seed_material(nanos, process_id, worker_id),
{
    let high: u64 = (nanos / 0x1_0000_0000_0000_0000) as u64;
    let low: u64 = (nanos % 0x1_0000_0000_0000_0000) as u64;
    let h = u64_to_be(high);
    let l = u64_to_be(low);
    let p = u64_to_be(process_id);
    let w = u64_to_be(worker_id);
    let r: [u8; 32] = [
        l[7], l[6], l[5], l[4], l[3], l[2], l[1], l[0],
        h[7], h[6], h[5], h[4], h[3], h[2], h[1], h[0],
        p[7], p[6], p[5], p[4], p[3], p[2], p[1], p[0],
        w[7], w[6], w[5], w[4], w[3], w[2], w[1], w[0],
    ];
    proof {
        lemma_pow256_values();
        lemma_be_bytes_split(high as nat, low as nat, 8, 8);
        assert(nanos as nat == high as nat * pow256(8) + low as nat);
        assert(r@ =~= (h@ + l@).reverse() + p@.reverse() + w@.reverse());
    }
    r
}

/// The seed of a worker's generator.
pub fn fast_rng_seed(nanos: u128, process_id: u64, worker_id: u64) -> (r: [u8; 32])
    ensures
        r@ == sha256_of(seed_material(nanos, process_id, worker_id)),
{
    let material = fast_rng_material(nanos, process_id, worker_id);
    sha256(&material)
}

/// The generator that `rand::SeedableRng::from_seed` starts from a seed.
pub uninterp spec fn rng_started(seed: Seq<u8>) -> Xoshiro256PlusPlus;

/// `rand::SeedableRng::from_seed` for `Xoshiro256PlusPlus`: a generator fixed by its seed.
#[verifier::external_body]
pub(crate) fn rng_from_seed(seed: [u8; 32]) -> (rng: Xoshiro256PlusPlus)
    ensures
        rng == rng_started(seed@),
{
    Xoshiro256PlusPlus::from_seed(seed)
}

/// What `rand::Rng::fill` on 32 bytes gives, and the generator it leaves.
pub uninterp spec fn rng_filled(rng: Xoshiro256PlusPlus) -> (Seq<u8>, Xoshiro256PlusPlus);

/// `rand::Rng::fill` on 32 bytes: bytes that, like the generator it leaves, are fixed by the state
/// of the generator. Nothing is stated of how they are spread.
#[verifier::external_body]
pub(crate) fn rng_fill(rng: &mut Xoshiro256PlusPlus) -> (bytes: [u8; 32])
    ensures
        (bytes@, *final(rng)) == rng_filled(*old(rng)),
{
    let mut bytes = [0u8; 32];
    rng.fill(&mut bytes);
    bytes
}

/// A worker's generator, started from the time, the process and the worker.
pub fn make_fast_rng(nanos: u128, process_id: u64, worker_id: u64) -> (rng: Xoshiro256PlusPlus)
    ensures
        rng == rng_started(sha256_of(seed_material(nanos, process_id, worker_id))),
{
    rng_from_seed(fast_rng_seed(nanos, process_id, worker_id))
}

proof fn lemma_pow256_pow2(n: nat)
    ensures
        pow256(n) == pow2(8 * n),
    decreases n,
{
    lemma2_to64();
    if n > 0 {
        lemma_pow256_pow2((n - 1) as nat);
        lemma_pow2_adds(8, (8 * n - 8) as nat);
    }
}

/// A number cut to its `bits` low binary digits, byte by byte from the low end.
proof fn lemma_cut_byte(low: nat, byte: nat, kept: nat, bits: nat, done: nat)
    requires
        low < pow2(8 * done),
        byte < 256,
        bits <= 8 * done ==> kept == 0,
        8 * done < bits < 8 * done + 8 ==> kept == byte % pow2((bits - 8 * done) as nat),
        8 * done + 8 <= bits ==> kept == byte,
    ensures
        (byte * pow2(8 * done) + low) % pow2(bits) == kept * pow2(8 * done) + low % pow2(bits),
{
    let unit = pow2(8 * done);
    let x = byte * unit + low;
    lemma_pow2_pos(8 * done);
    lemma_pow2_pos(bits);
    lemma2_to64();
    if bits <= 8 * done {
        let rest = pow2((8 * done - bits) as nat);
        lemma_pow2_adds(bits, (8 * done - bits) as nat);
        let m = pow2(bits);
        assert(byte * (m * rest) == m * (byte * rest)) by (nonlinear_arith);
        vstd::arithmetic::div_mod::lemma_mod_multiples_vanish(
            (byte * rest) as int,
            low as int,
            m as int,
        );
        assert(kept * unit == 0) by (nonlinear_arith)
            requires
                kept == 0,
        ;
    } else if bits < 8 * done + 8 {
        let part = pow2((bits - 8 * done) as nat);
        lemma_pow2_adds(8 * done, (bits - 8 * done) as nat);
        lemma_pow2_pos((bits - 8 * done) as nat);
        lemma_mod_breakdown(x as int, unit as int, part as int);
        assert(byte * unit == unit * byte) by (nonlinear_arith);
        vstd::arithmetic::div_mod::lemma_div_multiples_vanish_fancy(
            byte as int,
            low as int,
            unit as int,
        );
        vstd::arithmetic::div_mod::lemma_mod_multiples_vanish(
            byte as int,
            low as int,
            unit as int,
        );
        lemma_small_mod(low, unit);
        assert(unit * kept == kept * unit) by (nonlinear_arith);
        if 8 * done < bits {
            lemma_pow2_strictly_increases(8 * done, bits);
        }
        lemma_small_mod(low, pow2(bits));
    } else {
        lemma_pow2_adds(8 * done, 8);
        if 8 * done + 8 < bits {
            lemma_pow2_strictly_increases(8 * done + 8, bits);
        }
        lemma_pow2_strictly_increases(8 * done, 8 * done + 8);
        assert(byte * unit + low < unit * 256) by (nonlinear_arith)
            requires
                byte < 256,
                low < unit,
        ;
        lemma_small_mod(x, pow2(bits));
        lemma_small_mod(low, pow2(bits));
    }
}

/// The 32-byte number cut to its `bits` low binary digits.
pub fn keep_low_bits(bytes: &[u8; 32], bits: u32) -> (r: [u8; 32])
    requires
        bits <= 256,
    ensures
        be_value(r@) == be_value(bytes@) % pow2(bits as nat),
{
    let mut out: [u8; 32] = [0u8; 32];
    let mut i: usize = 32;
    proof {
        assert(bytes@.subrange(32, 32) =~= Seq::<u8>::empty());
        assert(out@.subrange(32, 32) =~= Seq::<u8>::empty());
        lemma_pow2_pos(bits as nat);
        lemma_small_mod(0, pow2(bits as nat));
    }
    while i > 0
        invariant
            i <= 32,
            bits <= 256,
            be_value(out@.subrange(i as int, 32)) == be_value(bytes@.subrange(i as int, 32))
                % pow2(bits as nat),
        decreases i,
    {
        let ghost before = out@;
        i = i - 1;
        let start: u32 = 8 * (31 - i as u32);
        let byte: u8 = bytes[i];
        let kept: u8 = if bits <= start {
            0
        } else if bits < start + 8 {
            proof {
                lemma2_to64();
                lemma_pow2_pos((bits - start) as nat);
                lemma_pow2_strictly_increases((bits - start) as nat, 8);
                lemma_u64_shl_is_mul(1, (bits - start) as u64);
            }
            (byte as u64 % (1u64 << (bits - start))) as u8
        } else {
            byte
        };
        out[i] = kept;
        proof {
            let done = (31 - i) as nat;
            let tail = bytes@.subrange(i + 1, 32);
            lemma_pow256_pow2(done);
            lemma_be_value_bound(tail);
            lemma_cut_byte(be_value(tail), byte as nat, kept as nat, bits as nat, done);
            lemma_be_value_single(byte);
            lemma_be_value_single(kept);
            assert(bytes@.subrange(i as int, 32) =~= seq![byte] + tail);
            lemma_be_value_concat(seq![byte], tail);
            assert(out@.subrange(i as int, 32) =~= seq![kept] + before.subrange(i + 1, 32));
            lemma_be_value_concat(seq![kept], before.subrange(i + 1, 32));
        }
    }
    assert(out@.subrange(0, 32) =~= out@);
    assert(bytes@.subrange(0, 32) =~= bytes@);
    out
}

proof fn lemma_be_value_single(b: u8)
    ensures
        be_value(seq![b]) == b,
{
    assert(seq![b].drop_last() =~= Seq::<u8>::empty());
    assert(be_value(seq![b].drop_last()) == 0);
    assert(be_value(seq![b]) == be_value(seq![b].drop_last()) * 256 + seq![b].last() as nat);
}

/// What 32 random bytes propose as a scalar below `upper`.
pub open spec fn proposal(bytes: Seq<u8>, upper: nat) -> nat {
    (be_value(bytes) % pow2(bit_length(upper))) % curve_order()
}

/// The scalar that 32 random bytes propose, if it is below `upper`.
pub fn draw_below(bytes: &[u8; 32], upper: &Fr) -> (r: Option<Fr>)
    ensures
        r is Some <==> proposal(bytes@, upper@) < upper@,
        r matches Some(x) ==> x.wf() && x@ == proposal(bytes@, upper@),
{
    let bits = num_bits(&upper.limbs);
    let cut = keep_low_bits(bytes, bits);
    let candidate = fr_from_be_bytes_mod_order(&cut);
    if candidate.less(upper) {
        Some(candidate)
    } else {
        None
    }
}

/// The first proposal of a generator that is below `upper`, among the next `draws`, and the
/// generator it leaves.
pub open spec fn drawn(rng: Xoshiro256PlusPlus, upper: nat, draws: nat) -> (
    Option<nat>,
    Xoshiro256PlusPlus,
)
    decreases draws,
{
    if draws == 0 {
        (None, rng)
    } else {
        let (bytes, next) = rng_filled(rng);
        if proposal(bytes, upper) < upper {
            (Some(proposal(bytes, upper)), next)
        } else {
            drawn(next, upper, (draws - 1) as nat)
        }
    }
}

/// What a generator draws below `upper`, and the generator it leaves: zero, without a draw, if
/// `upper` is zero.
pub open spec fn draw_from(rng: Xoshiro256PlusPlus, upper: nat) -> (
    Option<nat>,
    Xoshiro256PlusPlus,
) {
    if upper == 0 {
        (Some(0), rng)
    } else {
        drawn(rng, upper, MAX_DRAWS as nat)
    }
}

/// A scalar drawn below a bound; zero if the bound is.
pub open spec fn is_draw(v: nat, bound: nat) -> bool {
    v < bound || v == 0
}

/// What is drawn is below the bound.
pub proof fn lemma_draw_from(rng: Xoshiro256PlusPlus, upper: nat)
    ensures
        draw_from(rng, upper).0 matches Some(v) ==> is_draw(v, upper),
{
    lemma_drawn(rng, upper, MAX_DRAWS as nat);
}

proof fn lemma_drawn(rng: Xoshiro256PlusPlus, upper: nat, draws: nat)
    ensures
        drawn(rng, upper, draws).0 matches Some(v) ==> v < upper,
    decreases draws,
{
    if draws > 0 {
        lemma_drawn(rng_filled(rng).1, upper, (draws - 1) as nat);
    }
}

/// A random scalar below `upper`; zero if `upper` is zero.
///
/// `None` comes back only after `MAX_DRAWS` proposals in a row were too large.
pub fn random_fr_below(rng: &mut Xoshiro256PlusPlus, upper: Fr) -> (r: Option<Fr>)
    requires
        upper.wf(),
    ensures
        r is Some <==> draw_from(*old(rng), upper@).0 is Some,
        r matches Some(x) ==> x.wf() && Some(x@) == draw_from(*old(rng), upper@).0 && is_draw(
            x@,
            upper@,
        ),
        *final(rng) == draw_from(*old(rng), upper@).1,
{
    proof {
        lemma_draw_from(*rng, upper@);
    }
    if upper.is_zero() {
        return Some(Fr::from_u64(0));
    }
    let mut draws: u64 = 0;
    while draws < MAX_DRAWS
        invariant
            upper@ > 0,
            draw_from(*old(rng), upper@) == drawn(*rng, upper@, (MAX_DRAWS - draws) as nat),
            draw_from(*old(rng), upper@).0 matches Some(v) ==> is_draw(v, upper@),
        decreases MAX_DRAWS - draws,
    {
        let bytes = rng_fill(rng);
        match draw_below(&bytes, &upper) {
            Some(candidate) => {
                return Some(candidate);
            },
            None => {},
        }
        draws = draws + 1;
    }
    None
}

/// A generator after it was asked a number of times.
pub open spec fn rng_after(rng: Xoshiro256PlusPlus, times: nat) -> Xoshiro256PlusPlus
    decreases times,
{
    if times == 0 {
        rng
    } else {
        rng_filled(rng_after(rng, (times - 1) as nat)).1
    }
}

/// What a generator proposes at a certain time below a bound of `bits` binary digits: the low
/// digits of its bytes, as a scalar.
pub open spec fn proposed(rng: Xoshiro256PlusPlus, time: nat, bits: nat) -> nat {
    (be_value(rng_filled(rng_after(rng, time)).0) % pow2(bits)) % curve_order()
}

/// The proposal for a bound keeps as many low binary digits of the bytes as the bound has, no
/// fewer and no more.
pub proof fn law_proposal_keeps_low_digits(bytes: Seq<u8>, upper: nat, bits: nat)
    requires
        bits > 0,
        pow2((bits - 1) as nat) <= upper < pow2(bits),
    ensures
        proposal(bytes, upper) == (be_value(bytes) % pow2(bits)) % curve_order(),
{
    lemma_bit_length_is(upper, bits);
}

/// Every number below the bound can be drawn.
pub proof fn law_every_draw_is_proposed(upper: nat, v: nat)
    requires
        v < upper < curve_order(),
    ensures
        proposal(be_bytes(v, 32), upper) == v,
{
    crate::scalar::lemma_curve_order();
    crate::compact::lemma_bit_length(upper);
    assert(pow256(32)
        == 0x1_0000_0000_0000_0000_0000_0000_0000_0000_0000_0000_0000_0000_0000_0000_0000_0000nat)
        by {
        reveal_with_fuel(pow256, 33);
    }
    crate::bytes::lemma_be_roundtrip(v, 32);
    lemma_small_mod(v, pow2(bit_length(upper)));
    lemma_small_mod(v, curve_order());
}

/// A draw is the first proposal below the bound; the generator then stands behind it. There is no
/// draw only if as many proposals as a machine word can count are all too large.
pub proof fn law_draw_is_the_first_that_fits(rng: Xoshiro256PlusPlus, upper: nat, bits: nat)
    requires
        bits > 0,
        pow2((bits - 1) as nat) <= upper < pow2(bits),
    ensures
        match draw_from(rng, upper).0 {
            Some(v) => exists|k: nat|
                k < 0xFFFF_FFFF_FFFF_FFFF && #[trigger] proposed(rng, k, bits) == v && v < upper
                    && draw_from(rng, upper).1 == rng_after(rng, k + 1) && forall|j: nat|
                    j < k ==> #[trigger] proposed(rng, j, bits) >= upper,
            None => forall|j: nat|
                j < 0xFFFF_FFFF_FFFF_FFFF ==> #[trigger] proposed(rng, j, bits) >= upper,
        },
{
    lemma_pow2_pos((bits - 1) as nat);
    lemma_bit_length_is(upper, bits);
    lemma_drawn_from(rng, upper, bits, 0, MAX_DRAWS as nat);
}

/// A bound of zero draws zero, and asks the generator for nothing.
pub proof fn law_draw_below_zero(rng: Xoshiro256PlusPlus)
    ensures
        draw_from(rng, 0) == (Some(0nat), rng),
{
}

proof fn lemma_drawn_from(rng: Xoshiro256PlusPlus, upper: nat, bits: nat, done: nat, draws: nat)
    requires
        bits == bit_length(upper),
    ensures
        match drawn(rng_after(rng, done), upper, draws).0 {
            Some(v) => exists|k: nat|
                done <= k < done + draws && #[trigger] proposed(rng, k, bits) == v && v < upper
                    && drawn(rng_after(rng, done), upper, draws).1 == rng_after(rng, k + 1)
                    && forall|j: nat|
                    done <= j < k ==> #[trigger] proposed(rng, j, bits) >= upper,
            None => forall|j: nat|
                done <= j < done + draws ==> #[trigger] proposed(rng, j, bits) >= upper,
        },
    decreases draws,
{
    if draws > 0 {
        let here = rng_after(rng, done);
        let (bytes, next) = rng_filled(here);
        assert(rng_after(rng, done + 1) == next);
        assert(proposed(rng, done, bits) == proposal(bytes, upper));
        if proposal(bytes, upper) >= upper {
            lemma_drawn_from(rng, upper, bits, done + 1, (draws - 1) as nat);
            if let Some(v) = drawn(next, upper, (draws - 1) as nat).0 {
                let k = choose|k: nat|
                    done + 1 <= k < done + draws && #[trigger] proposed(rng, k, bits) == v && v
                        < upper && drawn(next, upper, (draws - 1) as nat).1 == rng_after(rng, k + 1)
                        && forall|j: nat|
                        done + 1 <= j < k ==> #[trigger] proposed(rng, j, bits) >= upper;
                assert(proposed(rng, k, bits) == v);
                assert forall|j: nat| done <= j < k implies #[trigger] proposed(rng, j, bits)
                    >= upper by {
                    if j > done {
                        assert(proposed(rng, j, bits) >= upper);
                    }
                }
            }
        }
    }
}

/// A seed is hashed from all of the time, the process and the worker: each is read back from its
/// place, the least significant byte first.
pub proof fn law_seed_material_holds_all(nanos: u128, process_id: u64, worker_id: u64)
    ensures
        ({
            let m = seed_material(nanos, process_id, worker_id);
            &&& m.len() == 32
            &&& be_value(m.subrange(0, 16).reverse()) == nanos
            &&& be_value(m.subrange(16, 24).reverse()) == process_id
            &&& be_value(m.subrange(24, 32).reverse()) == worker_id
        }),
{
    let m = seed_material(nanos, process_id, worker_id);
    lemma_pow256_values();
    crate::bytes::lemma_be_roundtrip(nanos as nat, 16);
    crate::bytes::lemma_be_roundtrip(process_id as nat, 8);
    crate::bytes::lemma_be_roundtrip(worker_id as nat, 8);
    assert(m.subrange(0, 16).reverse() =~= be_bytes(nanos as nat, 16));
    assert(m.subrange(16, 24).reverse() =~= be_bytes(process_id as nat, 8));
    assert(m.subrange(24, 32).reverse() =~= be_bytes(worker_id as nat, 8));
}

/// Different times, processes or workers have different seed material.
pub proof fn law_seed_material_tells_apart(a: (u128, u64, u64), b: (u128, u64, u64))
    requires
        seed_material(a.0, a.1, a.2) == seed_material(b.0, b.1, b.2),
    ensures
        a == b,
{
    law_seed_material_holds_all(a.0, a.1, a.2);
    law_seed_material_holds_all(b.0, b.1, b.2);
}

/// A draw is below its bound, and zero for a bound of zero.
pub proof fn law_draws_are_below_their_bound(rng: Xoshiro256PlusPlus, upper: nat, v: nat)
    ensures
        upper > 0 ==> (is_draw(v, upper) <==> v < upper),
        is_draw(v, 0) <==> v == 0,
        upper > 0 ==> (draw_from(rng, upper).0 matches Some(d) ==> d < upper),
{
    lemma_drawn(rng, upper, MAX_DRAWS as nat);
}

} // verus!
