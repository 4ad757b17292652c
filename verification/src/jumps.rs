//! The table of jumps that all walks share.

use rand_xoshiro::Xoshiro256PlusPlus;
use vstd::arithmetic::div_mod::lemma_small_mod;
use vstd::arithmetic::power2::{
    lemma2_to64, lemma2_to64_rest, lemma_pow2_adds, lemma_pow2_pos, lemma_pow2_strictly_increases,
    pow2,
};
use vstd::prelude::*;

use crate::curve::{multiple, Affine, FixedBase};
use crate::draw::{draw_from, is_draw, random_fr_below};
use crate::scalar::{
    curve_order, fr_add, lemma_pow2_below_order, pow2_scalar, scalar_values, Fr,
};

verus! {

/// How many different jumps there are.
pub const NUM_JUMPS: usize = 128;

/// The size in bits of the `i`-th jump, as a fraction over 254: half the size of the search
/// space less four bits (one bit at least), and up to eight bits more towards the last jump.
pub open spec fn jump_bits_over_254(i: nat, sub_bits: nat) -> int {
    (if sub_bits > 8 {
        127 * sub_bits - 1016
    } else {
        254
    }) + 16 * i
}

/// The size in bits of the `i`-th jump: the nearest whole number, halves rounded up.
pub open spec fn jump_bits_of(i: nat, sub_bits: nat) -> nat {
    ((jump_bits_over_254(i, sub_bits) + 127) / 254) as nat
}

/// The size in bits of the `i`-th jump.
pub fn jump_bits(i: usize, sub_bits: u32) -> (r: u64)
    requires
        i < NUM_JUMPS,
    ensures
        r == jump_bits_of(i as nat, sub_bits as nat),
        1 <= r,
{
    let base: u64 = if sub_bits > 8 {
        127 * sub_bits as u64 - 1016
    } else {
        254
    };
    (base + 16 * i as u64 + 127) / 254
}

/// The scalar of a jump of `bits` bits: half the power of two, plus a draw below it.
pub open spec fn jump_scalar_of(bits: nat, variance: nat) -> nat {
    (pow2((bits - 1) as nat) % curve_order() + variance) % curve_order()
}

/// The scalar of a jump of `bits` bits with the given variance.
pub fn jump_scalar(bits: u64, variance: &Fr) -> (r: Fr)
    requires
        1 <= bits,
        variance.wf(),
    ensures
        r.wf(),
        r@ == jump_scalar_of(bits as nat, variance@),
{
    let half = pow2_scalar(bits - 1);
    fr_add(&half, variance)
}

/// Jump scalars and the multiples of the generator by them.
pub struct JumpTable {
    pub scalars: Vec<Fr>,
    pub points: Vec<Affine>,
}

impl JumpTable {
    /// Every jump has its point.
    pub open spec fn wf(&self) -> bool {
        &&& self.scalars@.len() == NUM_JUMPS
        &&& self.points@.len() == NUM_JUMPS
        &&& forall|i: int|
            0 <= i < NUM_JUMPS ==> (#[trigger] self.scalars@[i]).wf() && self.points@[i].wf()
                && self.points@[i]@ == multiple(self.scalars@[i]@)
    }

    /// Every jump has the size that its place asks for.
    pub open spec fn sized_for(&self, sub_bits: nat) -> bool {
        forall|i: int|
            0 <= i < NUM_JUMPS ==> has_size(
                (#[trigger] self.scalars@[i])@,
                jump_bits_of(i as nat, sub_bits),
            )
    }

    /// Draws the jumps for a search space of `sub_bits` bits.
    ///
    /// `None` comes back only if a draw ran into its limit.
    pub fn build(
        sub_bits: u32,
        rng: &mut Xoshiro256PlusPlus,
        fixed_base: &FixedBase,
    ) -> (r: Option<JumpTable>)
        requires
            fixed_base.wf(),
        ensures
            r is Some <==> jumps_from(sub_bits as nat, NUM_JUMPS as nat, *old(rng)).0 is Some,
            r matches Some(t) ==> t.wf() && t.sized_for(sub_bits as nat) && Some(
                scalar_values(t.scalars@),
            ) == jumps_from(sub_bits as nat, NUM_JUMPS as nat, *old(rng)).0,
            *final(rng) == jumps_from(sub_bits as nat, NUM_JUMPS as nat, *old(rng)).1,
    {
        let mut scalars: Vec<Fr> = Vec::with_capacity(NUM_JUMPS);
        let mut points: Vec<Affine> = Vec::with_capacity(NUM_JUMPS);
        let mut i: usize = 0;
        assert(scalar_values(scalars@) =~= Seq::<nat>::empty());
        while i < NUM_JUMPS
            invariant
                i <= NUM_JUMPS,
                fixed_base.wf(),
                scalars@.len() == i,
                points@.len() == i,
                (Some(scalar_values(scalars@)), *rng) == jumps_from(
                    sub_bits as nat,
                    i as nat,
                    *old(rng),
                ),
                forall|k: int|
                    0 <= k < i ==> (#[trigger] scalars@[k]).wf() && points@[k].wf() && points@[k]@
                        == multiple(scalars@[k]@),
                forall|k: int|
                    0 <= k < i ==> has_size(
                        (#[trigger] scalars@[k])@,
                        jump_bits_of(k as nat, sub_bits as nat),
                    ),
            decreases NUM_JUMPS - i,
        {
            let bits = jump_bits(i, sub_bits);
            let bound = pow2_scalar(bits);
            let variance = match random_fr_below(rng, bound) {
                Some(v) => v,
                None => {
                    proof {
                        lemma_jumps_stop(
                            sub_bits as nat,
                            (i + 1) as nat,
                            NUM_JUMPS as nat,
                            *old(rng),
                        );
                    }
                    return None;
                },
            };
            let scalar = jump_scalar(bits, &variance);
            proof {
                assert(is_draw(variance@, pow2(bits as nat) % curve_order()));
            }
            let ghost before = scalars@;
            scalars.push(scalar);
            points.push(fixed_base.mul(&scalar));
            proof {
                assert(scalar_values(scalars@) =~= scalar_values(before).push(scalar@));
            }
            i = i + 1;
        }
        Some(JumpTable { scalars, points })
    }
}

/// The scalars of the first `n` jumps that a generator draws, and the generator they leave.
pub open spec fn jumps_from(sub_bits: nat, n: nat, rng: Xoshiro256PlusPlus) -> (
    Option<Seq<nat>>,
    Xoshiro256PlusPlus,
)
    decreases n,
{
    if n == 0 {
        (Some(Seq::empty()), rng)
    } else {
        let (before, at) = jumps_from(sub_bits, (n - 1) as nat, rng);
        let bits = jump_bits_of((n - 1) as nat, sub_bits);
        let (variance, next) = draw_from(at, pow2(bits) % curve_order());
        match (before, variance) {
            (None, _) => (None, at),
            (_, None) => (None, next),
            (Some(scalars), Some(v)) => (Some(scalars.push(jump_scalar_of(bits, v))), next),
        }
    }
}

/// Once a draw has failed, no further jump is drawn.
proof fn lemma_jumps_stop(sub_bits: nat, i: nat, n: nat, rng: Xoshiro256PlusPlus)
    requires
        i <= n,
        jumps_from(sub_bits, i, rng).0 is None,
    ensures
        jumps_from(sub_bits, n, rng) == jumps_from(sub_bits, i, rng),
    decreases n - i,
{
    if i < n {
        lemma_jumps_stop(sub_bits, i, (n - 1) as nat, rng);
    }
}

/// In a search space of up to 496 bits, a jump of `bits` bits is at least half the power of two
/// and less than thrice that; so no jump is by a multiple of the order.
pub proof fn law_jump_sizes(t: &JumpTable, sub_bits: nat, i: int)
    requires
        t.sized_for(sub_bits),
        sub_bits <= 496,
        0 <= i < NUM_JUMPS,
    ensures
        ({
            let half = pow2((jump_bits_of(i as nat, sub_bits) - 1) as nat);
            0 < half <= t.scalars@[i]@ < 3 * half
        }),
{
    let bits = jump_bits_of(i as nat, sub_bits);
    let scalar = t.scalars@[i]@;
    assert(has_size(scalar, bits));
    let v = choose|v: nat| #[trigger]
        is_draw(v, pow2(bits) % curve_order()) && scalar == jump_scalar_of(bits, v);
    let half = pow2((bits - 1) as nat);
    assert(1 <= bits <= 252);
    lemma_pow2_pos((bits - 1) as nat);
    lemma2_to64();
    lemma2_to64_rest();
    lemma_pow2_adds(1, (bits - 1) as nat);
    lemma_pow2_adds(64, 64);
    lemma_pow2_adds(128, 64);
    lemma_pow2_adds(192, 59);
    if bits - 1 < 251 {
        lemma_pow2_strictly_increases((bits - 1) as nat, 251);
    }
    assert(3 * half < curve_order()) by {
        reveal(curve_order);
    }
    lemma_small_mod(pow2(bits), curve_order());
    lemma_small_mod(half, curve_order());
    lemma_small_mod(half + v, curve_order());
}

/// The size of a jump is the whole number nearest to half the size of the search space, less four
/// bits (or to one bit for a space of up to eight), plus eight bits times the part of the way to
/// the last jump.
pub proof fn law_jump_size_is_nearest(i: nat, sub_bits: nat)
    requires
        i < 128,
    ensures
        sub_bits > 8 ==> 254 * jump_bits_of(i, sub_bits) - 127 <= 127 * (sub_bits - 8) + 16 * i
            < 254 * jump_bits_of(i, sub_bits) + 127,
        sub_bits <= 8 ==> 254 * jump_bits_of(i, sub_bits) - 127 <= 254 + 16 * i < 254
            * jump_bits_of(i, sub_bits) + 127,
{
}

/// A jump of `bits` bits is half the power of two plus its draw below the power, with nothing
/// lost.
pub proof fn law_jump_adds_its_draw(bits: nat, variance: nat)
    requires
        1 <= bits <= 252,
        variance < pow2(bits),
    ensures
        jump_scalar_of(bits, variance) == pow2((bits - 1) as nat) + variance,
{
    let half = pow2((bits - 1) as nat);
    lemma_pow2_adds(1, (bits - 1) as nat);
    lemma2_to64();
    lemma_pow2_below_order((bits + 1) as nat);
    lemma_pow2_adds(2, (bits - 1) as nat);
    lemma_pow2_pos((bits - 1) as nat);
    lemma_small_mod(half, curve_order());
    lemma_small_mod(half + variance, curve_order());
}

/// A jump of any size is half the power of two plus its draw, modulo the order.
pub proof fn law_jump_adds_its_draw_reduced(bits: nat, variance: nat)
    requires
        1 <= bits,
    ensures
        jump_scalar_of(bits, variance) == (pow2((bits - 1) as nat) + variance) % curve_order(),
{
    crate::scalar::lemma_curve_order();
    crate::modular::lemma_mod_add(
        pow2((bits - 1) as nat) as int,
        variance as int,
        curve_order() as int,
    );
}

/// The jumps of a table are drawn one after the other, each below the power of two of its size
/// and from where the generator stands.
pub proof fn law_jumps_follow_the_generator(sub_bits: nat, n: nat, rng: Xoshiro256PlusPlus)
    requires
        jumps_from(sub_bits, n, rng).0 is Some,
    ensures
        jumps_from(sub_bits, n, rng).0->0.len() == n,
        exists|states: Seq<Xoshiro256PlusPlus>| #[trigger]
            jump_run(sub_bits, jumps_from(sub_bits, n, rng).0->0, states) && states[0] == rng
                && states[n as int] == jumps_from(sub_bits, n, rng).1,
    decreases n,
{
    let (all, end) = jumps_from(sub_bits, n, rng);
    if n == 0 {
        assert(jump_run(sub_bits, all->0, seq![rng]));
    } else {
        let fewer = (n - 1) as nat;
        law_jumps_follow_the_generator(sub_bits, fewer, rng);
        let (before, at) = jumps_from(sub_bits, fewer, rng);
        let states = choose|states: Seq<Xoshiro256PlusPlus>| #[trigger]
            jump_run(sub_bits, before->0, states) && states[0] == rng && states[fewer as int] == at;
        let longer = states.push(end);
        lemma_last_jump(sub_bits, n, rng);
        assert forall|i: int| 0 <= i < n implies jump_drawn(
            jump_bits_of(i as nat, sub_bits),
            #[trigger] longer[i],
            all->0[i],
            longer[i + 1],
        ) by {
            if i < fewer {
                assert(longer[i] == states[i] && longer[i + 1] == states[i + 1]);
                assert(all->0[i] == before->0[i]);
            } else {
                assert(longer[i] == at && longer[i + 1] == end && all->0[i] == all->0.last());
            }
        }
        assert(jump_run(sub_bits, all->0, longer));
    }
}

/// The last jump is added to the others.
proof fn lemma_last_jump(sub_bits: nat, n: nat, rng: Xoshiro256PlusPlus)
    requires
        n > 0,
        jumps_from(sub_bits, n, rng).0 is Some,
    ensures
        ({
            let (before, at) = jumps_from(sub_bits, (n - 1) as nat, rng);
            let (all, end) = jumps_from(sub_bits, n, rng);
            &&& before is Some
            &&& all->0.len() == before->0.len() + 1
            &&& forall|i: int|
                0 <= i < before->0.len() ==> #[trigger] all->0[i] == before->0[i]
            &&& jump_drawn(jump_bits_of((n - 1) as nat, sub_bits), at, all->0.last(), end)
        }),
{
    let (before, at) = jumps_from(sub_bits, (n - 1) as nat, rng);
    let bits = jump_bits_of((n - 1) as nat, sub_bits);
    let (variance, next) = draw_from(at, pow2(bits) % curve_order());
    let (all, end) = jumps_from(sub_bits, n, rng);
    assert(before is Some && variance is Some);
    let scalar = jump_scalar_of(bits, variance->0);
    let scalars: Seq<nat> = before->0;
    crate::scalar::lemma_curve_order();
    assert(bits >= 1);
    law_jump_adds_its_draw_reduced(bits, variance->0);
    assert(scalar < curve_order());
    let longer = scalars.push(scalar);
    assert(all == Some(longer) && end == next);
    assert(longer.len() == scalars.len() + 1);
    assert(longer.last() == scalar);
    assert(all->0 == longer);
    assert(all->0.last() == scalar);
    assert(jump_drawn(bits, at, scalar, end));
}

/// A jump is half the power of two of its size plus what the generator draws below the power.
pub open spec fn jump_drawn(
    bits: nat,
    rng: Xoshiro256PlusPlus,
    scalar: nat,
    next: Xoshiro256PlusPlus,
) -> bool {
    let (variance, after) = draw_from(rng, pow2(bits) % curve_order());
    &&& variance is Some
    &&& scalar == (pow2((bits - 1) as nat) + variance->0) % curve_order()
    &&& next == after
}

/// Each jump is drawn with its state of the generator.
pub open spec fn jump_run(
    sub_bits: nat,
    scalars: Seq<nat>,
    states: Seq<Xoshiro256PlusPlus>,
) -> bool {
    &&& states.len() == scalars.len() + 1
    &&& forall|i: int|
        0 <= i < scalars.len() ==> jump_drawn(
            jump_bits_of(i as nat, sub_bits),
            #[trigger] states[i],
            scalars[i],
            states[i + 1],
        )
}

/// `scalar` is a jump of `bits` bits, for some draw.
pub open spec fn has_size(scalar: nat, bits: nat) -> bool {
    exists|v: nat| #[trigger]
        is_draw(v, pow2(bits) % curve_order()) && scalar == jump_scalar_of(bits, v)
}

/// A table is not drawn only if one of its draws fails: the jumps before it are drawn, and no more
/// is asked of the generator.
pub proof fn law_jumps_fail_with_a_draw(sub_bits: nat, n: nat, rng: Xoshiro256PlusPlus)
    requires
        jumps_from(sub_bits, n, rng).0 is None,
    ensures
        exists|i: nat|
            i < n && (#[trigger] jumps_from(sub_bits, i, rng)).0 is Some && draw_fails(
                jump_bits_of(i, sub_bits),
                jumps_from(sub_bits, i, rng).1,
                jumps_from(sub_bits, n, rng).1,
            ),
    decreases n,
{
    let fewer = (n - 1) as nat;
    let last = jumps_from(sub_bits, n, rng).1;
    if n > 0 && jumps_from(sub_bits, fewer, rng).0 is None {
        law_jumps_fail_with_a_draw(sub_bits, fewer, rng);
        let i = choose|i: nat|
            i < fewer && (#[trigger] jumps_from(sub_bits, i, rng)).0 is Some && draw_fails(
                jump_bits_of(i, sub_bits),
                jumps_from(sub_bits, i, rng).1,
                jumps_from(sub_bits, fewer, rng).1,
            );
        assert(jumps_from(sub_bits, i, rng).0 is Some);
        assert(jumps_from(sub_bits, fewer, rng).1 == last);
    } else if n > 0 {
        let (before, at) = jumps_from(sub_bits, fewer, rng);
        let (variance, next) = draw_from(at, pow2(jump_bits_of(fewer, sub_bits)) % curve_order());
        assert(before is Some);
        assert(variance is None);
        assert(next == last);
        assert(draw_fails(jump_bits_of(fewer, sub_bits), at, last));
    }
}

/// Below the power of two of a jump's size nothing is drawn.
pub open spec fn draw_fails(
    bits: nat,
    rng: Xoshiro256PlusPlus,
    next: Xoshiro256PlusPlus,
) -> bool {
    let (variance, after) = draw_from(rng, pow2(bits) % curve_order());
    variance is None && after == next
}

} // verus!
