//! Kangaroo walks over the curve, many at a time.

use rand_xoshiro::Xoshiro256PlusPlus;
use vstd::arithmetic::power2::pow2;
use vstd::prelude::*;

use crate::curve::{
    generates_group, generator, lemma_factor_of, lemma_multiple_add, lemma_multiple_infinite,
    lemma_multiple_mod, multiple, on_curve, point_add, point_sum, point_update, spans_curve, Affine,
    CurvePoint, FixedBase,
};
use crate::draw::{draw_from, is_draw, random_fr_below, MAX_DRAWS};
use crate::field::{
    all_reduced, batch_inversion_in_place, field_modulus, fq_sub, lemma_field_modulus, none_zero,
    Fq,
};
use crate::jumps::{law_jump_sizes, JumpTable, NUM_JUMPS};
use crate::limbs::{lemma_limbs_of, lemma_limbs_value_injective, limbs_of, limbs_value};
use crate::modular::lemma_mod_add;
use crate::record::{DpKey, DpMessage};
use crate::scalar::{
    curve_order, fr_add, fr_sub, lemma_pow2_below_order, pow2_scalar, scalar_to_limbs, Fr,
};

verus! {

/// How many walks a worker advances together.
pub const K_BATCH: usize = 2048;

/// How many hops a worker makes before it reports them.
pub const HOPS_PER_REPORT: u64 = 16_384;

/// One walk: where it stands, the scalar and the target coefficient that lead there, and how far
/// it has come since it was started.
#[derive(Clone, Copy, Debug)]
pub struct Walk {
    pub x: Fq,
    pub y: Fq,
    pub scalar: Fr,
    pub target_coeff: i8,
    pub walked: Fr,
}

impl Walk {
    /// All numbers are reduced.
    pub open spec fn wf(&self) -> bool {
        self.x.wf() && self.y.wf() && self.scalar.wf() && self.walked.wf()
    }

    /// Where the walk stands.
    pub open spec fn point(&self) -> CurvePoint {
        CurvePoint::Finite { x: self.x@, y: self.y@ }
    }
}

/// What a worker walks for.
pub struct WalkPlan<'a> {
    /// Start at multiples of the generator ("tame"), not near the target ("wild").
    pub start_as_base: bool,
    pub jumps: &'a JumpTable,
    pub fixed_base: &'a FixedBase,
    pub target: Affine,
    pub range_start: Fr,
    pub range_width: Fr,
    pub dp_bits: u32,
    pub sub_bits: u32,
}

impl<'a> WalkPlan<'a> {
    /// The parts are well-formed.
    pub open spec fn wf(&self) -> bool {
        &&& self.jumps.wf()
        &&& self.fixed_base.wf()
        &&& self.target.wf()
        &&& self.range_start.wf()
        &&& self.range_width.wf()
    }
}

/// How far from the target a wild walk may start.
pub open spec fn wild_radius(plan: &WalkPlan) -> nat {
    pow2((plan.sub_bits / 2) as nat) % curve_order()
}

/// What the draw for a new walk stays below.
pub open spec fn draw_bound(plan: &WalkPlan) -> nat {
    if plan.start_as_base {
        plan.range_width@
    } else {
        (wild_radius(plan) + wild_radius(plan)) % curve_order()
    }
}

/// The scalar that a new walk starts with.
pub open spec fn start_scalar(plan: &WalkPlan, draw: nat) -> nat {
    if plan.start_as_base {
        (plan.range_start@ + draw) % curve_order()
    } else {
        ((draw - wild_radius(plan)) % curve_order() as int) as nat
    }
}

/// The point that a new walk starts from.
pub open spec fn start_point(plan: &WalkPlan, draw: nat) -> CurvePoint {
    if plan.start_as_base {
        multiple(start_scalar(plan, draw))
    } else {
        point_sum(plan.target@, multiple(start_scalar(plan, draw)))
    }
}

/// `w` is the new walk for a draw. (A start at infinity leaves zeros for coordinates.)
pub open spec fn starts_at(plan: &WalkPlan, w: Walk, draw: nat) -> bool {
    &&& w.wf()
    &&& w.scalar@ == start_scalar(plan, draw)
    &&& w.target_coeff == (if plan.start_as_base {
        0i8
    } else {
        1i8
    })
    &&& w.walked@ == 0
    &&& w.point() == (match start_point(plan, draw) {
        CurvePoint::Infinity => CurvePoint::Finite { x: 0, y: 0 },
        p => p,
    })
}

/// `w` is a new walk, for some draw.
pub open spec fn is_new(plan: &WalkPlan, w: Walk) -> bool {
    exists|draw: nat| #[trigger] is_draw(draw, draw_bound(plan)) && starts_at(plan, w, draw)
}

/// The new walk for a draw.
pub fn start_walk(plan: &WalkPlan, draw: &Fr) -> (w: Walk)
    requires
        plan.wf(),
        draw.wf(),
    ensures
        starts_at(plan, w, draw@),
{
    if plan.start_as_base {
        let scalar = fr_add(&plan.range_start, draw);
        let point = plan.fixed_base.mul(&scalar);
        Walk { x: point.x, y: point.y, scalar, target_coeff: 0, walked: Fr::from_u64(0) }
    } else {
        let radius = pow2_scalar((plan.sub_bits / 2) as u64);
        let scalar = fr_sub(draw, &radius);
        let offset = plan.fixed_base.mul(&scalar);
        let point = point_add(&plan.target, &offset);
        Walk { x: point.x, y: point.y, scalar, target_coeff: 1, walked: Fr::from_u64(0) }
    }
}

/// The walk that starts at a draw.
pub open spec fn walk_of(plan: &WalkPlan, draw: nat) -> Walk {
    choose|w: Walk| starts_at(plan, w, draw)
}

/// Only one walk starts at a draw.
proof fn lemma_walk_of(plan: &WalkPlan, w: Walk, draw: nat)
    requires
        starts_at(plan, w, draw),
    ensures
        w == walk_of(plan, draw),
{
    let v = walk_of(plan, draw);
    assert(starts_at(plan, v, draw));
    lemma_limbs_value_injective(w.x.limbs@, v.x.limbs@);
    lemma_limbs_value_injective(w.y.limbs@, v.y.limbs@);
    lemma_limbs_value_injective(w.scalar.limbs@, v.scalar.limbs@);
    lemma_limbs_value_injective(w.walked.limbs@, v.walked.limbs@);
    assert(w.x.limbs =~= v.x.limbs);
    assert(w.y.limbs =~= v.y.limbs);
    assert(w.scalar.limbs =~= v.scalar.limbs);
    assert(w.walked.limbs =~= v.walked.limbs);
}

/// The new walk that a generator leads to, and the generator it leaves.
pub open spec fn respawned(plan: &WalkPlan, rng: Xoshiro256PlusPlus) -> (
    Option<Walk>,
    Xoshiro256PlusPlus,
) {
    let (draw, next) = draw_from(rng, draw_bound(plan));
    match draw {
        Some(d) => (Some(walk_of(plan, d)), next),
        None => (None, next),
    }
}

/// A new walk from a random start.
///
/// `None` comes back only if a draw ran into its limit.
pub fn respawn_point(plan: &WalkPlan, rng: &mut Xoshiro256PlusPlus) -> (r: Option<Walk>)
    requires
        plan.wf(),
    ensures
        (r, *final(rng)) == respawned(plan, *old(rng)),
        r matches Some(w) ==> is_new(plan, w),
{
    let bound = if plan.start_as_base {
        plan.range_width
    } else {
        let radius = pow2_scalar((plan.sub_bits / 2) as u64);
        fr_add(&radius, &radius)
    };
    match random_fr_below(rng, bound) {
        Some(draw) => {
            assert(is_draw(draw@, draw_bound(plan)));
            let w = start_walk(plan, &draw);
            proof {
                lemma_walk_of(plan, w, draw@);
            }
            Some(w)
        },
        None => None,
    }
}

/// A word turned left by `k` bits.
pub open spec fn turned(v: u64, k: u64) -> u64 {
    (v << k) | (v >> ((64 - k) as u64))
}

/// Which jump a walk takes from a point with this abscissa.
pub open spec fn jump_index_of(limbs: Seq<u64>) -> u64 {
    (limbs[0] ^ turned(limbs[1], 17) ^ turned(limbs[2], 33) ^ turned(limbs[3], 51)) & 127
}

/// Which jump a walk takes from a point with this abscissa.
pub fn jump_index(x: &Fq) -> (r: usize)
    ensures
        r == jump_index_of(x.limbs@),
        r < NUM_JUMPS,
{
    let l1: u64 = x.limbs[1];
    let l2: u64 = x.limbs[2];
    let l3: u64 = x.limbs[3];
    let mix: u64 = x.limbs[0] ^ ((l1 << 17) | (l1 >> 47)) ^ ((l2 << 33) | (l2 >> 31)) ^ ((l3 << 51)
        | (l3 >> 13));
    assert(mix & 127 < 128) by (bit_vector);
    (mix & 127) as usize
}

/// The jump that a walk takes next.
pub open spec fn next_jump(w: Walk) -> int {
    jump_index_of(w.x.limbs@) as int
}

/// The next jump leads to a third point by the chord.
pub open spec fn can_hop(plan: &WalkPlan, w: Walk) -> bool {
    plan.jumps.points@[next_jump(w)].x@ != w.x@
}

/// A walk that can hop: the given one, or the first that can among the next `tries` that a
/// generator leads to; and the generator it leaves.
pub open spec fn able_walk(
    plan: &WalkPlan,
    w: Walk,
    rng: Xoshiro256PlusPlus,
    tries: nat,
) -> (Option<Walk>, Xoshiro256PlusPlus)
    decreases tries,
{
    if tries == 0 {
        (None, rng)
    } else if can_hop(plan, w) {
        (Some(w), rng)
    } else {
        let (fresh, next) = respawned(plan, rng);
        match fresh {
            Some(n) => able_walk(plan, n, next, (tries - 1) as nat),
            None => (None, next),
        }
    }
}

/// Makes sure that a walk can hop: as long as it stands above or below its jump point it is
/// started anew.
///
/// `false` comes back only if the draws ran into their limit.
pub fn clear_walk(plan: &WalkPlan, w: &mut Walk, rng: &mut Xoshiro256PlusPlus) -> (ok: bool)
    requires
        plan.wf(),
        old(w).wf(),
    ensures
        final(w).wf(),
        ok <==> able_walk(plan, *old(w), *old(rng), MAX_DRAWS as nat).0 is Some,
        ok ==> able_walk(plan, *old(w), *old(rng), MAX_DRAWS as nat).0 == Some(*final(w)),
        *final(rng) == able_walk(plan, *old(w), *old(rng), MAX_DRAWS as nat).1,
        can_hop(plan, *old(w)) ==> ok && *final(w) == *old(w),
        ok ==> can_hop(plan, *final(w)),
        *final(w) == *old(w) || is_new(plan, *final(w)),
{
    let mut draws: u64 = 0;
    while draws < MAX_DRAWS
        invariant
            plan.wf(),
            w.wf(),
            able_walk(plan, *old(w), *old(rng), MAX_DRAWS as nat) == able_walk(
                plan,
                *w,
                *rng,
                (MAX_DRAWS - draws) as nat,
            ),
            *w == *old(w) || is_new(plan, *w),
            can_hop(plan, *old(w)) ==> *w == *old(w) && draws == 0,
        decreases MAX_DRAWS - draws,
    {
        let j = jump_index(&w.x);
        assert(plan.jumps.scalars@[j as int].wf());
        if !plan.jumps.points[j].x.same(&w.x) {
            return true;
        }
        match respawn_point(plan, rng) {
            Some(fresh) => {
                *w = fresh;
            },
            None => {
                return false;
            },
        }
        draws = draws + 1;
    }
    false
}

/// `n` is `w` after its next hop: the jump is added to the point, the scalar and the distance.
pub open spec fn is_hop(plan: &WalkPlan, w: Walk, n: Walk) -> bool {
    let jump = plan.jumps.points@[next_jump(w)];
    let step = plan.jumps.scalars@[next_jump(w)]@;
    &&& n.wf()
    &&& n.target_coeff == w.target_coeff
    &&& n.scalar@ == (w.scalar@ + step) % curve_order()
    &&& n.walked@ == (w.walked@ + step) % curve_order()
    &&& n.point() == point_sum(w.point(), CurvePoint::Finite { x: jump.x@, y: jump.y@ })
}

/// All walks are well-formed.
pub open spec fn all_wf(walks: Seq<Walk>) -> bool {
    forall|i: int| 0 <= i < walks.len() ==> (#[trigger] walks[i]).wf()
}

/// All walks can hop.
pub open spec fn all_can_hop(plan: &WalkPlan, walks: Seq<Walk>) -> bool {
    forall|i: int| 0 <= i < walks.len() ==> can_hop(plan, #[trigger] walks[i])
}

/// Two different reduced numbers have a difference with an inverse to look for.
proof fn lemma_difference(a: nat, b: nat)
    requires
        a < field_modulus(),
        b < field_modulus(),
        a != b,
    ensures
        (a - b) % field_modulus() as int != 0,
{
    let p = field_modulus() as int;
    let d = a - b;
    if d > 0 {
        vstd::arithmetic::div_mod::lemma_small_mod(d as nat, field_modulus());
    } else {
        vstd::arithmetic::div_mod::lemma_mod_add_multiples_vanish(d, p);
        vstd::arithmetic::div_mod::lemma_small_mod((d + p) as nat, field_modulus());
    }
}

/// Every walk makes its next hop; one inversion serves them all.
pub fn hop_all(plan: &WalkPlan, walks: &mut Vec<Walk>)
    requires
        plan.wf(),
        all_wf(old(walks)@),
        all_can_hop(plan, old(walks)@),
    ensures
        final(walks)@.len() == old(walks)@.len(),
        forall|i: int|
            0 <= i < old(walks)@.len() ==> is_hop(plan, old(walks)@[i], #[trigger] final(walks)@[i]),
{
    let n: usize = walks.len();
    let ghost start = walks@;
    let mut jump_indices: Vec<usize> = Vec::with_capacity(n);
    let mut denominators: Vec<Fq> = Vec::with_capacity(n);
    let mut scratch: Vec<Fq> = Vec::with_capacity(n);
    let mut i: usize = 0;
    while i < n
        invariant
            i <= n,
            n == start.len(),
            walks@ == start,
            plan.wf(),
            all_wf(start),
            all_can_hop(plan, start),
            jump_indices@.len() == i,
            denominators@.len() == i,
            scratch@.len() == i,
            forall|k: int|
                0 <= k < i ==> #[trigger] jump_indices@[k] == next_jump(start[k])
                    && jump_indices@[k] < NUM_JUMPS,
            forall|k: int|
                0 <= k < i ==> (#[trigger] denominators@[k]).wf() && denominators@[k]@ != 0
                    && denominators@[k]@ == (plan.jumps.points@[next_jump(start[k])].x@
                    - start[k].x@) % field_modulus() as int,
        decreases n - i,
    {
        assert(start[i as int].wf() && can_hop(plan, start[i as int]));
        let j = jump_index(&walks[i].x);
        assert(plan.jumps.scalars@[j as int].wf());
        let d = fq_sub(&plan.jumps.points[j].x, &walks[i].x);
        proof {
            lemma_difference(plan.jumps.points@[j as int].x@, start[i as int].x@);
        }
        jump_indices.push(j);
        denominators.push(d);
        scratch.push(Fq::from_u64(0));
        i = i + 1;
    }
    let ghost dens = denominators@;
    assert(none_zero(dens));
    batch_inversion_in_place(&mut denominators, &mut scratch);
    let mut i: usize = 0;
    while i < n
        invariant
            i <= n,
            n == start.len(),
            walks@.len() == n,
            plan.wf(),
            all_wf(start),
            all_can_hop(plan, start),
            jump_indices@.len() == n,
            denominators@.len() == n,
            dens.len() == n,
            all_reduced(denominators@),
            forall|k: int| i <= k < n ==> walks@[k] == start[k],
            forall|k: int|
                0 <= k < n ==> #[trigger] jump_indices@[k] == next_jump(start[k])
                    && jump_indices@[k] < NUM_JUMPS,
            forall|k: int|
                0 <= k < n ==> (#[trigger] dens[k])@ == (plan.jumps.points@[next_jump(
                    start[k],
                )].x@ - start[k].x@) % field_modulus() as int,
            forall|k: int|
                0 <= k < n ==> ((#[trigger] denominators@[k])@ * dens[k]@) % field_modulus() == 1,
            forall|k: int| 0 <= k < i ==> is_hop(plan, start[k], #[trigger] walks@[k]),
        decreases n - i,
    {
        let j = jump_indices[i];
        let w = walks[i];
        proof {
            assert(w == start[i as int] && w.wf());
            assert(plan.jumps.scalars@[j as int].wf());
            assert(denominators@[i as int].wf());
            assert(jump_indices@[i as int] == next_jump(start[i as int]));
            lemma_field_modulus();
            let dx = plan.jumps.points@[j as int].x@ - w.x@;
            assert(dens[i as int]@ == dx % field_modulus() as int);
            vstd::arithmetic::div_mod::lemma_mul_mod_noop_right(
                denominators@[i as int]@ as int,
                dx,
                field_modulus() as int,
            );
        }
        let (rx, ry) = point_update(
            &w.x,
            &w.y,
            &plan.jumps.points[j].x,
            &plan.jumps.points[j].y,
            &denominators[i],
        );
        let scalar = fr_add(&w.scalar, &plan.jumps.scalars[j]);
        let walked = fr_add(&w.walked, &plan.jumps.scalars[j]);
        walks[i] = Walk { x: rx, y: ry, scalar, target_coeff: w.target_coeff, walked };
        i = i + 1;
    }
}

/// The abscissa ends in at least `dp_bits` zero bits. (No point does if more bits are asked for
/// than a limb has.)
pub open spec fn is_distinguished(x: nat, dp_bits: u32) -> bool {
    dp_bits <= 64 && x % pow2(dp_bits as nat) == 0
}

/// A limb has `d` trailing zeros exactly if the power of two divides it.
proof fn lemma_trailing_zeros(i: u64, d: u32)
    requires
        d < 64,
    ensures
        vstd::std_specs::bits::u64_trailing_zeros(i) >= d <==> i as nat % pow2(d as nat) == 0,
{
    vstd::std_specs::bits::axiom_u64_trailing_zeros(i);
    vstd::bits::lemma_u64_low_bits_mask_is_mod(i, d as nat);
    vstd::bits::lemma_u64_pow2_no_overflow(d as nat);
    vstd::bits::lemma_u64_shl_is_mul(1, d as u64);
    let z: u64 = vstd::std_specs::bits::u64_trailing_zeros(i) as u64;
    let e: u64 = d as u64;
    let mask: u64 = vstd::bits::low_bits_mask(d as nat) as u64;
    assert(mask == (1u64 << e) - 1);
    if z >= e {
        let up: u64 = (64 - z) as u64;
        if z == 64 {
            assert(0u64 & mask == 0) by (bit_vector);
        } else {
            assert(i << up == 0);
            assert(i & mask == 0) by (bit_vector)
                requires
                    e <= z < 64,
                    up == 64 - z,
                    i << up == 0,
                    mask == (1u64 << e) - 1,
            ;
        }
    } else {
        assert(i & mask != 0) by (bit_vector)
            requires
                z < e < 64,
                (i >> z) & 1u64 == 1u64,
                mask == (1u64 << e) - 1,
        ;
    }
}

/// Whether the abscissa marks its point as distinguished.
pub fn distinguished(x: &Fq, dp_bits: u32) -> (r: bool)
    ensures
        r == is_distinguished(x@, dp_bits),
{
    let low: u64 = x.limbs[0];
    proof {
        vstd::std_specs::bits::axiom_u64_trailing_zeros(low);
        if dp_bits <= 64 {
            lemma_low_limb(x.limbs@, dp_bits as nat);
            if dp_bits < 64 {
                lemma_trailing_zeros(low, dp_bits);
            } else {
                vstd::arithmetic::power2::lemma2_to64_rest();
                vstd::arithmetic::power2::lemma_pow2_unfold(64);
                vstd::arithmetic::div_mod::lemma_small_mod(low as nat, pow2(64));
            }
        }
    }
    low.trailing_zeros() >= dp_bits
}

/// The low bits of a four-limb number are those of its low limb.
proof fn lemma_low_limb(l: Seq<u64>, d: nat)
    requires
        d <= 64,
    ensures
        crate::limbs::limbs_value(l) % pow2(d) == l[0] as nat % pow2(d),
{
    let v = crate::limbs::limbs_value(l);
    let rest = l[1] as nat + l[2] as nat * 0x1_0000_0000_0000_0000nat + l[3] as nat
        * 0x1_0000_0000_0000_0000_0000_0000_0000_0000nat;
    vstd::arithmetic::power2::lemma2_to64_rest();
    vstd::arithmetic::power2::lemma_pow2_unfold(64);
    assert(v == l[0] as nat + pow2(64) * rest);
    vstd::arithmetic::power2::lemma_pow2_adds(d, (64 - d) as nat);
    vstd::arithmetic::power2::lemma_pow2_pos(d);
    let m = pow2(d);
    let k = pow2((64 - d) as nat);
    assert(m * k * rest == m * (k * rest)) by (nonlinear_arith);
    vstd::arithmetic::div_mod::lemma_mod_multiples_vanish(
        (k * rest) as int,
        l[0] as int,
        m as int,
    );
}

/// The farthest that a walk goes before it is started anew.
pub open spec fn max_distance_of(sub_bits: u32) -> nat {
    if sub_bits >= 255 {
        (curve_order() - 1) as nat
    } else {
        pow2(sub_bits as nat) % curve_order()
    }
}

/// The farthest that a walk goes before it is started anew; also the span of one sub-range.
pub fn max_distance(sub_bits: u32) -> (r: Fr)
    ensures
        r.wf(),
        r@ == max_distance_of(sub_bits),
{
    if sub_bits >= 255 {
        proof {
            crate::scalar::lemma_curve_order();
            let n = curve_order() as int;
            vstd::arithmetic::div_mod::lemma_mod_add_multiples_vanish(-1, n);
            vstd::arithmetic::div_mod::lemma_small_mod((n - 1) as nat, curve_order());
        }
        fr_sub(&Fr::from_u64(0), &Fr::from_u64(1))
    } else {
        pow2_scalar(sub_bits as u64)
    }
}

/// What a walk on a distinguished point has to tell.
pub open spec fn message_of(w: Walk) -> DpMessage {
    DpMessage {
        target_coeff: w.target_coeff,
        key: DpKey {
            x_0: w.x.limbs@[0],
            x_1: w.x.limbs@[1],
            x_2: w.x.limbs@[2],
            x_3: w.x.limbs@[3],
        },
        scalar_limbs: w.scalar.limbs,
    }
}

/// What the walks on distinguished points have to tell, in order.
pub open spec fn messages_of(plan: &WalkPlan, walks: Seq<Walk>) -> Seq<DpMessage>
    decreases walks.len(),
{
    if walks.len() == 0 {
        Seq::empty()
    } else {
        let before = messages_of(plan, walks.drop_last());
        if is_distinguished(walks.last().x@, plan.dp_bits) {
            before.push(message_of(walks.last()))
        } else {
            before
        }
    }
}

/// A walk goes on: it is not on a distinguished point, and has not gone too far.
pub open spec fn goes_on(plan: &WalkPlan, w: Walk) -> bool {
    !is_distinguished(w.x@, plan.dp_bits) && w.walked@ <= max_distance_of(plan.sub_bits)
}

/// The walks that are left when those that do not go on are started anew, one after the other,
/// and the generator they leave.
pub open spec fn harvest_from(plan: &WalkPlan, walks: Seq<Walk>, rng: Xoshiro256PlusPlus) -> (
    Option<Seq<Walk>>,
    Xoshiro256PlusPlus,
)
    decreases walks.len(),
{
    if walks.len() == 0 {
        (Some(Seq::empty()), rng)
    } else {
        let (before, at) = harvest_from(plan, walks.drop_last(), rng);
        let (fresh, next) = respawned(plan, at);
        match before {
            None => (None, at),
            Some(left) => if goes_on(plan, walks.last()) {
                (Some(left.push(walks.last())), at)
            } else {
                match fresh {
                    Some(w) => (Some(left.push(w)), next),
                    None => (None, next),
                }
            },
        }
    }
}

/// Once a draw has failed, nothing more is harvested.
proof fn lemma_harvest_stop(plan: &WalkPlan, walks: Seq<Walk>, i: int, rng: Xoshiro256PlusPlus)
    requires
        0 <= i <= walks.len(),
        harvest_from(plan, walks.take(i), rng).0 is None,
    ensures
        harvest_from(plan, walks, rng) == harvest_from(plan, walks.take(i), rng),
    decreases walks.len() - i,
{
    if i == walks.len() {
        assert(walks.take(i) =~= walks);
    } else {
        assert(walks.drop_last().take(i) =~= walks.take(i));
        lemma_harvest_stop(plan, walks.drop_last(), i, rng);
    }
}

/// Collects the messages of the walks on distinguished points, and starts these anew, as well as
/// those that have gone too far.
///
/// `None` comes back only if a draw ran into its limit.
pub fn harvest(plan: &WalkPlan, walks: &mut Vec<Walk>, rng: &mut Xoshiro256PlusPlus) -> (r: Option<
    Vec<DpMessage>,
>)
    requires
        plan.wf(),
        all_wf(old(walks)@),
    ensures
        final(walks)@.len() == old(walks)@.len(),
        all_wf(final(walks)@),
        r is Some <==> harvest_from(plan, old(walks)@, *old(rng)).0 is Some,
        r is Some ==> harvest_from(plan, old(walks)@, *old(rng)).0 == Some(final(walks)@),
        *final(rng) == harvest_from(plan, old(walks)@, *old(rng)).1,
        r is Some ==> r->0@ == messages_of(plan, old(walks)@),
        r is Some ==> forall|i: int|
            0 <= i < old(walks)@.len() ==> if goes_on(plan, old(walks)@[i]) {
                #[trigger] final(walks)@[i] == old(walks)@[i]
            } else {
                is_new(plan, final(walks)@[i])
            },
{
    let n: usize = walks.len();
    let ghost start = walks@;
    let limit = max_distance(plan.sub_bits);
    let mut messages: Vec<DpMessage> = Vec::new();
    let mut i: usize = 0;
    assert(start.take(0) =~= Seq::<Walk>::empty());
    assert(walks@.take(0) =~= Seq::<Walk>::empty());
    while i < n
        invariant
            i <= n,
            n == start.len(),
            start == old(walks)@,
            walks@.len() == n,
            plan.wf(),
            limit@ == max_distance_of(plan.sub_bits),
            all_wf(start),
            all_wf(walks@),
            messages@ == messages_of(plan, start.take(i as int)),
            (Some(walks@.take(i as int)), *rng) == harvest_from(
                plan,
                start.take(i as int),
                *old(rng),
            ),
            forall|k: int| i <= k < n ==> walks@[k] == start[k],
            forall|k: int|
                0 <= k < i ==> if goes_on(plan, start[k]) {
                    #[trigger] walks@[k] == start[k]
                } else {
                    is_new(plan, walks@[k])
                },
        decreases n - i,
    {
        let w = walks[i];
        let ghost before = walks@.take(i as int);
        proof {
            assert(w == start[i as int]);
            assert(start.take(i + 1).drop_last() =~= start.take(i as int));
            assert(start.take(i + 1).last() == w);
        }
        let hit: bool = distinguished(&w.x, plan.dp_bits);
        if hit {
            messages.push(
                DpMessage {
                    target_coeff: w.target_coeff,
                    key: DpKey {
                        x_0: w.x.limbs[0],
                        x_1: w.x.limbs[1],
                        x_2: w.x.limbs[2],
                        x_3: w.x.limbs[3],
                    },
                    scalar_limbs: scalar_to_limbs(w.scalar),
                },
            );
        }
        if hit || limit.less(&w.walked) {
            match respawn_point(plan, rng) {
                Some(fresh) => {
                    walks[i] = fresh;
                },
                None => {
                    proof {
                        lemma_harvest_stop(plan, start, i + 1, *old(rng));
                    }
                    return None;
                },
            }
        }
        assert(walks@.take(i + 1) =~= before.push(walks@[i as int]));
        i = i + 1;
    }
    assert(start.take(n as int) =~= start);
    assert(walks@.take(n as int) =~= walks@);
    Some(messages)
}

/// `mid` is `walks` with those that cannot hop started anew.
pub open spec fn cleared(plan: &WalkPlan, walks: Seq<Walk>, mid: Seq<Walk>) -> bool {
    &&& mid.len() == walks.len()
    &&& all_wf(mid)
    &&& all_can_hop(plan, mid)
    &&& forall|i: int|
        0 <= i < walks.len() ==> #[trigger] mid[i] == walks[i] || !can_hop(plan, walks[i])
            && is_new(plan, mid[i])
}

/// The walks made able to hop, one after the other, and the generator they leave.
pub open spec fn clear_from(plan: &WalkPlan, walks: Seq<Walk>, rng: Xoshiro256PlusPlus) -> (
    Option<Seq<Walk>>,
    Xoshiro256PlusPlus,
)
    decreases walks.len(),
{
    if walks.len() == 0 {
        (Some(Seq::empty()), rng)
    } else {
        let (before, at) = clear_from(plan, walks.drop_last(), rng);
        let (able, next) = able_walk(plan, walks.last(), at, MAX_DRAWS as nat);
        match (before, able) {
            (None, _) => (None, at),
            (_, None) => (None, next),
            (Some(mid), Some(w)) => (Some(mid.push(w)), next),
        }
    }
}

/// Once the draws have failed, no further walk is made able to hop.
proof fn lemma_clear_stop(plan: &WalkPlan, walks: Seq<Walk>, i: int, rng: Xoshiro256PlusPlus)
    requires
        0 <= i <= walks.len(),
        clear_from(plan, walks.take(i), rng).0 is None,
    ensures
        clear_from(plan, walks, rng) == clear_from(plan, walks.take(i), rng),
    decreases walks.len() - i,
{
    if i == walks.len() {
        assert(walks.take(i) =~= walks);
    } else {
        assert(walks.drop_last().take(i) =~= walks.take(i));
        lemma_clear_stop(plan, walks.drop_last(), i, rng);
    }
}

/// Makes sure that every walk can hop.
///
/// `false` comes back only if the draws ran into their limit.
pub fn clear_all(plan: &WalkPlan, walks: &mut Vec<Walk>, rng: &mut Xoshiro256PlusPlus) -> (ok: bool)
    requires
        plan.wf(),
        all_wf(old(walks)@),
    ensures
        final(walks)@.len() == old(walks)@.len(),
        all_wf(final(walks)@),
        ok <==> clear_from(plan, old(walks)@, *old(rng)).0 is Some,
        ok ==> clear_from(plan, old(walks)@, *old(rng)).0 == Some(final(walks)@),
        *final(rng) == clear_from(plan, old(walks)@, *old(rng)).1,
        all_can_hop(plan, old(walks)@) ==> ok && final(walks)@ == old(walks)@,
        ok ==> cleared(plan, old(walks)@, final(walks)@),
{
    let n: usize = walks.len();
    let ghost start = walks@;
    let mut i: usize = 0;
    assert(start.take(0) =~= Seq::<Walk>::empty());
    assert(walks@.take(0) =~= Seq::<Walk>::empty());
    while i < n
        invariant
            i <= n,
            n == start.len(),
            start == old(walks)@,
            walks@.len() == n,
            plan.wf(),
            all_wf(start),
            all_wf(walks@),
            (Some(walks@.take(i as int)), *rng) == clear_from(
                plan,
                start.take(i as int),
                *old(rng),
            ),
            forall|k: int| i <= k < n ==> walks@[k] == start[k],
            forall|k: int| 0 <= k < i ==> can_hop(plan, #[trigger] walks@[k]),
            forall|k: int|
                0 <= k < i ==> #[trigger] walks@[k] == start[k] || !can_hop(plan, start[k])
                    && is_new(plan, walks@[k]),
        decreases n - i,
    {
        let mut w = walks[i];
        let ghost before = walks@.take(i as int);
        proof {
            assert(w == start[i as int] && w.wf());
            assert(start.take(i + 1).drop_last() =~= start.take(i as int));
            assert(start.take(i + 1).last() == w);
        }
        if !clear_walk(plan, &mut w, rng) {
            proof {
                assert(!can_hop(plan, start[i as int]));
                lemma_clear_stop(plan, start, i + 1, *old(rng));
            }
            return false;
        }
        walks[i] = w;
        assert(walks@.take(i + 1) =~= before.push(w));
        i = i + 1;
    }
    proof {
        assert(start.take(n as int) =~= start);
        assert(walks@.take(n as int) =~= walks@);
        if all_can_hop(plan, start) {
            assert forall|k: int| 0 <= k < n implies walks@[k] == start[k] by {
                assert(can_hop(plan, start[k]));
            }
            assert(walks@ =~= start);
        }
    }
    true
}

/// Every walk has made its next hop.
pub open spec fn are_hops(plan: &WalkPlan, mid: Seq<Walk>, hopped: Seq<Walk>) -> bool {
    &&& hopped.len() == mid.len()
    &&& forall|i: int| 0 <= i < mid.len() ==> is_hop(plan, mid[i], #[trigger] hopped[i])
}

/// What a round comes to once its walks have hopped.
pub open spec fn ends_round(
    plan: &WalkPlan,
    hopped: Seq<Walk>,
    rng: Xoshiro256PlusPlus,
    messages: Option<Vec<DpMessage>>,
    left: Seq<Walk>,
    after: Xoshiro256PlusPlus,
) -> bool {
    &&& after == harvest_from(plan, hopped, rng).1
    &&& match harvest_from(plan, hopped, rng).0 {
        Some(l) => left == l && messages is Some && messages->0@ == messages_of(plan, hopped),
        None => messages is None,
    }
}

/// What a round comes to.
pub open spec fn round_from(
    plan: &WalkPlan,
    walks: Seq<Walk>,
    rng: Xoshiro256PlusPlus,
    messages: Option<Vec<DpMessage>>,
    left: Seq<Walk>,
    after: Xoshiro256PlusPlus,
) -> bool {
    let (able, ready) = clear_from(plan, walks, rng);
    match able {
        Some(mid) => exists|hopped: Seq<Walk>| #[trigger]
            are_hops(plan, mid, hopped) && ends_round(plan, hopped, ready, messages, left, after),
        None => messages is None && after == ready,
    }
}

proof fn lemma_round_from(
    plan: &WalkPlan,
    walks: Seq<Walk>,
    rng: Xoshiro256PlusPlus,
    mid: Seq<Walk>,
    ready: Xoshiro256PlusPlus,
    hopped: Seq<Walk>,
    messages: Option<Vec<DpMessage>>,
    left: Seq<Walk>,
    after: Xoshiro256PlusPlus,
)
    requires
        clear_from(plan, walks, rng) == (Some(mid), ready),
        are_hops(plan, mid, hopped),
        ends_round(plan, hopped, ready, messages, left, after),
    ensures
        round_from(plan, walks, rng, messages, left, after),
{
    let (able, at) = clear_from(plan, walks, rng);
    assert(able == Some(mid) && at == ready);
    assert(exists|h: Seq<Walk>| #[trigger]
        are_hops(plan, able->0, h) && ends_round(plan, h, at, messages, left, after)) by {
        assert(are_hops(plan, able->0, hopped));
    }
}

/// One round of a worker: every walk is made able to hop, hops, and is checked.
///
/// Returns the messages of the walks that came to distinguished points; `None` only if the draws
/// ran into their limit.
pub fn worker_round(plan: &WalkPlan, walks: &mut Vec<Walk>, rng: &mut Xoshiro256PlusPlus) -> (r:
    Option<Vec<DpMessage>>)
    requires
        plan.wf(),
        all_wf(old(walks)@),
    ensures
        final(walks)@.len() == old(walks)@.len(),
        all_wf(final(walks)@),
        round_from(plan, old(walks)@, *old(rng), r, final(walks)@, *final(rng)),
        r is Some ==> exists|mid: Seq<Walk>, hopped: Seq<Walk>| #[trigger]
            is_round(plan, old(walks)@, mid, hopped, r->0@, final(walks)@),
{
    let ghost start = walks@;
    if !clear_all(plan, walks, rng) {
        return None;
    }
    let ghost mid = walks@;
    let ghost ready = *rng;
    hop_all(plan, walks);
    let ghost hopped = walks@;
    proof {
        assert(are_hops(plan, mid, hopped));
        assert forall|i: int| 0 <= i < hopped.len() implies (#[trigger] hopped[i]).wf() by {
            assert(is_hop(plan, mid[i], hopped[i]));
        }
    }
    let r = harvest(plan, walks, rng);
    proof {
        assert(ends_round(plan, hopped, ready, r, walks@, *rng));
        assert(clear_from(plan, start, *old(rng)) == (Some(mid), ready));
        lemma_round_from(plan, start, *old(rng), mid, ready, hopped, r, walks@, *rng);
        if r is Some {
            assert(is_round(plan, start, mid, hopped, r->0@, walks@));
        }
    }
    r
}

/// A round from `walks` over the walks made able to hop and the walks after the hop, with the
/// messages it gives, to the walks it leaves.
pub open spec fn is_round(
    plan: &WalkPlan,
    walks: Seq<Walk>,
    mid: Seq<Walk>,
    hopped: Seq<Walk>,
    messages: Seq<DpMessage>,
    left: Seq<Walk>,
) -> bool {
    &&& cleared(plan, walks, mid)
    &&& are_hops(plan, mid, hopped)
    &&& messages == messages_of(plan, hopped)
    &&& left.len() == walks.len()
    &&& forall|i: int|
        0 <= i < walks.len() ==> if goes_on(plan, hopped[i]) {
            #[trigger] left[i] == hopped[i]
        } else {
            is_new(plan, left[i])
        }
}

/// The first `size` new walks that a generator leads to, and the generator they leave.
pub open spec fn herd_from(plan: &WalkPlan, size: nat, rng: Xoshiro256PlusPlus) -> (
    Option<Seq<Walk>>,
    Xoshiro256PlusPlus,
)
    decreases size,
{
    if size == 0 {
        (Some(Seq::empty()), rng)
    } else {
        let (before, at) = herd_from(plan, (size - 1) as nat, rng);
        let (fresh, next) = respawned(plan, at);
        match (before, fresh) {
            (None, _) => (None, at),
            (_, None) => (None, next),
            (Some(walks), Some(w)) => (Some(walks.push(w)), next),
        }
    }
}

/// Once a draw has failed, no further walk is started.
proof fn lemma_herd_stop(plan: &WalkPlan, i: nat, size: nat, rng: Xoshiro256PlusPlus)
    requires
        i <= size,
        herd_from(plan, i, rng).0 is None,
    ensures
        herd_from(plan, size, rng) == herd_from(plan, i, rng),
    decreases size - i,
{
    if i < size {
        lemma_herd_stop(plan, i, (size - 1) as nat, rng);
    }
}

/// A herd of new walks.
///
/// `None` comes back only if a draw ran into its limit.
pub fn start_herd(plan: &WalkPlan, size: usize, rng: &mut Xoshiro256PlusPlus) -> (r: Option<
    Vec<Walk>,
>)
    requires
        plan.wf(),
    ensures
        r is Some <==> herd_from(plan, size as nat, *old(rng)).0 is Some,
        r is Some ==> herd_from(plan, size as nat, *old(rng)).0 == Some(r->0@),
        *final(rng) == herd_from(plan, size as nat, *old(rng)).1,
        r is Some ==> r->0@.len() == size && all_wf(r->0@),
        r is Some ==> forall|i: int| 0 <= i < size ==> is_new(plan, #[trigger] r->0@[i]),
{
    let mut walks: Vec<Walk> = Vec::with_capacity(size);
    let mut i: usize = 0;
    while i < size
        invariant
            i <= size,
            plan.wf(),
            walks@.len() == i,
            all_wf(walks@),
            (Some(walks@), *rng) == herd_from(plan, i as nat, *old(rng)),
            forall|k: int| 0 <= k < i ==> is_new(plan, #[trigger] walks@[k]),
        decreases size - i,
    {
        match respawn_point(plan, rng) {
            Some(w) => {
                walks.push(w);
            },
            None => {
                proof {
                    lemma_herd_stop(plan, (i + 1) as nat, size as nat, *old(rng));
                }
                return None;
            },
        }
        i = i + 1;
    }
    Some(walks)
}

/// Whether a worker starts its walks at multiples of the generator: every second one does, the
/// first among them.
pub fn worker_starts_as_base(worker: usize) -> (r: bool)
    ensures
        r == (worker % 2 == 0),
{
    worker % 2 == 0
}

/// The hops to be reported later and those to be reported now, after a round of `hops` hops: all
/// of them now once there are enough.
pub open spec fn tally(unreported: nat, hops: nat) -> (nat, nat) {
    if unreported + hops >= HOPS_PER_REPORT {
        (0, unreported + hops)
    } else {
        (unreported + hops, 0)
    }
}

/// Adds the hops of a round to those not reported yet. Returns the hops that are still to be
/// reported later and those to be reported now: all of them once there are enough.
pub fn tally_hops(unreported: u64, hops: u64) -> (r: (u64, u64))
    requires
        unreported + hops <= u64::MAX,
    ensures
        (r.0 as nat, r.1 as nat) == tally(unreported as nat, hops as nat),
{
    let total: u64 = unreported + hops;
    if total >= HOPS_PER_REPORT {
        (0, total)
    } else {
        (total, 0)
    }
}

/// The hops not reported yet, and all those reported, after a number of rounds of `K_BATCH` hops.
pub open spec fn tally_after(rounds: nat) -> (nat, nat)
    decreases rounds,
{
    if rounds == 0 {
        (0, 0)
    } else {
        let (unreported, reported) = tally_after((rounds - 1) as nat);
        let (later, now) = tally(unreported, K_BATCH as nat);
        (later, reported + now)
    }
}

/// Hops are reported in whole lots: after any number of rounds the reported sum is a multiple of
/// the lot, one lot for every eight rounds; the hops of the other rounds, less than a lot, are
/// left.
pub proof fn law_hops_are_reported_in_lots(rounds: nat)
    ensures
        tally_after(rounds).1 == 16_384 * (rounds / 8),
        tally_after(rounds).0 == 2_048 * (rounds % 8),
        tally_after(rounds).0 < 16_384,
    decreases rounds,
{
    if rounds > 0 {
        law_hops_are_reported_in_lots((rounds - 1) as nat);
    }
}

/// What was reported is never taken back.
pub proof fn law_reported_hops_grow(fewer: nat, more: nat)
    requires
        fewer <= more,
    ensures
        tally_after(fewer).1 <= tally_after(more).1,
{
    law_hops_are_reported_in_lots(fewer);
    law_hops_are_reported_in_lots(more);
}

/// A walk stands where its scalar and its coefficient say: whatever multiple `t` of the generator
/// the target is, the walk stands at the multiple by `scalar + target_coeff * t`. One that does
/// not count the target stands at the multiple by its scalar, whatever the target is.
pub open spec fn on_course(target: CurvePoint, w: Walk) -> bool {
    &&& w.wf()
    &&& 0 <= w.target_coeff
    &&& w.target_coeff == 0 ==> w.point() == multiple(w.scalar@)
    &&& forall|t: nat|
        target == #[trigger] multiple(t) ==> w.point() == multiple(
            (w.scalar@ + w.target_coeff * t) as nat,
        )
}

/// A walk on course for a point of the curve stands at a multiple of the generator: there is a
/// scalar of the target, and the walk stands where it says.
pub proof fn law_course_is_a_multiple(x: nat, y: nat, w: Walk)
    requires
        generates_group(generator()),
        spans_curve(generator()),
        on_curve(x, y),
        on_course(CurvePoint::Finite { x, y }, w),
    ensures
        exists|t: nat|
            #![trigger multiple(t)]
            t < curve_order() && multiple(t) == (CurvePoint::Finite { x, y }) && w.point()
                == multiple((w.scalar@ + w.target_coeff * t) as nat),
{
    let t = lemma_factor_of(x, y);
    assert(multiple(t) == (CurvePoint::Finite { x, y }));
}

/// No jump is by a multiple of the order.
pub open spec fn real_jumps(plan: &WalkPlan) -> bool {
    forall|j: int| 0 <= j < NUM_JUMPS ==> (#[trigger] plan.jumps.scalars@[j])@ != 0
}

/// No draw starts a walk at infinity.
pub open spec fn finite_starts(plan: &WalkPlan) -> bool {
    forall|draw: nat| #[trigger]
        is_draw(draw, draw_bound(plan)) ==> !(start_point(plan, draw) is Infinity)
}

/// A walk that does not start at infinity starts on course.
pub proof fn law_start_on_course(plan: &WalkPlan, w: Walk, draw: nat)
    requires
        plan.wf(),
        starts_at(plan, w, draw),
        !(start_point(plan, draw) is Infinity),
    ensures
        on_course(plan.target@, w),
{
    assert forall|t: nat| plan.target@ == #[trigger] multiple(t) implies w.point() == multiple(
        (w.scalar@ + w.target_coeff * t) as nat,
    ) by {
        if !plan.start_as_base {
            lemma_multiple_add(t, w.scalar@);
        }
    }
}

/// Tame walks that start in a span above zero and within the order never start at infinity.
pub proof fn law_tame_starts_are_finite(plan: &WalkPlan)
    requires
        plan.wf(),
        plan.start_as_base,
        0 < plan.range_start@,
        plan.range_start@ + plan.range_width@ <= curve_order(),
    ensures
        finite_starts(plan),
{
    assert forall|draw: nat| #[trigger] is_draw(draw, draw_bound(plan)) implies !(start_point(
        plan,
        draw,
    ) is Infinity) by {
        let s = plan.range_start@ + draw;
        vstd::arithmetic::div_mod::lemma_small_mod(s, curve_order());
        lemma_multiple_infinite(s);
    }
}

/// Wild walks never start at infinity if the scalar of the target, taken modulo the order, lies
/// farther from zero than the radius that they start in.
pub proof fn law_wild_starts_are_finite(plan: &WalkPlan, t: nat)
    requires
        plan.wf(),
        !plan.start_as_base,
        plan.target@ == multiple(t),
        wild_radius(plan) < t % curve_order() <= curve_order() - wild_radius(plan),
    ensures
        finite_starts(plan),
{
    let n = curve_order() as int;
    let radius = wild_radius(plan) as int;
    let tr = t as int % n;
    crate::scalar::lemma_curve_order();
    assert forall|draw: nat| #[trigger] is_draw(draw, draw_bound(plan)) implies !(start_point(
        plan,
        draw,
    ) is Infinity) by {
        let s = start_scalar(plan, draw);
        let sum = tr + draw - radius;
        assert(draw < 2 * radius || draw == 0) by {
            vstd::arithmetic::div_mod::lemma_mod_decreases((radius + radius) as nat, n as nat);
        }
        lemma_multiple_add(t, s);
        lemma_multiple_infinite(t + s);
        lemma_mod_add(t as int, s as int, n);
        lemma_mod_add(tr, draw - radius, n);
        if sum < n {
            vstd::arithmetic::div_mod::lemma_small_mod(sum as nat, n as nat);
        } else {
            vstd::arithmetic::div_mod::lemma_mod_add_multiples_vanish(sum - n, n);
            vstd::arithmetic::div_mod::lemma_small_mod((sum - n) as nat, n as nat);
        }
    }
}

/// In a search space of up to 496 bits the jumps are real.
pub proof fn law_jumps_are_real(plan: &WalkPlan, sub_bits: nat)
    requires
        plan.jumps.sized_for(sub_bits),
        sub_bits <= 496,
    ensures
        real_jumps(plan),
{
    assert forall|j: int| 0 <= j < NUM_JUMPS implies (#[trigger] plan.jumps.scalars@[j])@ != 0 by {
        law_jump_sizes(plan.jumps, sub_bits, j);
    }
}

/// A new walk is on course.
pub proof fn law_new_walk_on_course(plan: &WalkPlan, w: Walk)
    requires
        plan.wf(),
        finite_starts(plan),
        is_new(plan, w),
    ensures
        on_course(plan.target@, w),
{
    let draw = choose|draw: nat| #[trigger]
        is_draw(draw, draw_bound(plan)) && starts_at(plan, w, draw);
    law_start_on_course(plan, w, draw);
}

/// A hop keeps a walk on course.
pub proof fn law_hop_on_course(plan: &WalkPlan, w: Walk, n: Walk)
    requires
        plan.wf(),
        real_jumps(plan),
        on_course(plan.target@, w),
        is_hop(plan, w, n),
    ensures
        on_course(plan.target@, n),
{
    let j = next_jump(w);
    lemma_jump_index(w.x.limbs@);
    assert(plan.jumps.scalars@[j].wf());
    let step = plan.jumps.scalars@[j]@;
    let jump = plan.jumps.points@[j];
    lemma_multiple_infinite(step);
    vstd::arithmetic::div_mod::lemma_small_mod(step, curve_order());
    assert(jump@ == multiple(step));
    assert(jump@ == (CurvePoint::Finite { x: jump.x@, y: jump.y@ }));
    if w.target_coeff == 0 {
        lemma_multiple_add(w.scalar@, step);
        lemma_multiple_mod(w.scalar@ + step);
    }
    assert forall|t: nat| plan.target@ == #[trigger] multiple(t) implies n.point() == multiple(
        (n.scalar@ + n.target_coeff * t) as nat,
    ) by {
        let c = w.target_coeff as int;
        let ct = c * t;
        assert(0 <= ct) by (nonlinear_arith)
            requires
                0 <= c,
                ct == c * t,
        ;
        let here = (w.scalar@ + ct) as nat;
        let there = here + step;
        lemma_multiple_add(here, step);
        let order = curve_order() as int;
        crate::scalar::lemma_curve_order();
        lemma_mod_add((w.scalar@ + step) as int, ct, order);
        lemma_multiple_mod(there);
        lemma_multiple_mod((n.scalar@ + ct) as nat);
        assert(there == w.scalar@ + step + ct);
    }
}

proof fn lemma_jump_index(limbs: Seq<u64>)
    ensures
        jump_index_of(limbs) < NUM_JUMPS,
{
    let mix: u64 = limbs[0] ^ turned(limbs[1], 17) ^ turned(limbs[2], 33) ^ turned(limbs[3], 51);
    assert(mix & 127 < 128) by (bit_vector);
}

/// A round keeps all walks on course, and what it reports comes from walks on course that stand
/// on distinguished points.
pub proof fn law_round_on_course(
    plan: &WalkPlan,
    walks: Seq<Walk>,
    mid: Seq<Walk>,
    hopped: Seq<Walk>,
    messages: Seq<DpMessage>,
    left: Seq<Walk>,
)
    requires
        plan.wf(),
        real_jumps(plan),
        finite_starts(plan),
        forall|i: int| 0 <= i < walks.len() ==> on_course(plan.target@, #[trigger] walks[i]),
        is_round(plan, walks, mid, hopped, messages, left),
    ensures
        forall|i: int| 0 <= i < left.len() ==> on_course(plan.target@, #[trigger] left[i]),
        forall|i: int|
            0 <= i < messages.len() ==> reported_on_course(plan, #[trigger] messages[i]),
{
    assert forall|i: int| 0 <= i < walks.len() implies on_course(
        plan.target@,
        #[trigger] hopped[i],
    ) by {
        assert(on_course(plan.target@, walks[i]));
        if mid[i] != walks[i] {
            law_new_walk_on_course(plan, mid[i]);
        }
        law_hop_on_course(plan, mid[i], hopped[i]);
    }
    assert forall|i: int| 0 <= i < left.len() implies on_course(plan.target@, #[trigger] left[i]) by {
        assert(on_course(plan.target@, hopped[i]));
        if !goes_on(plan, hopped[i]) {
            law_new_walk_on_course(plan, left[i]);
        }
    }
    lemma_messages_on_course(plan, hopped);
}

/// The message comes from a walk on course that stands on a distinguished point.
pub open spec fn reported_on_course(plan: &WalkPlan, m: DpMessage) -> bool {
    exists|w: Walk| #[trigger]
        on_course(plan.target@, w) && m == message_of(w) && is_distinguished(w.x@, plan.dp_bits)
}

proof fn lemma_messages_on_course(plan: &WalkPlan, walks: Seq<Walk>)
    requires
        forall|i: int| 0 <= i < walks.len() ==> on_course(plan.target@, #[trigger] walks[i]),
    ensures
        forall|i: int|
            0 <= i < messages_of(plan, walks).len() ==> reported_on_course(
                plan,
                #[trigger] messages_of(plan, walks)[i],
            ),
    decreases walks.len(),
{
    if walks.len() > 0 {
        let shorter = walks.drop_last();
        assert forall|i: int| 0 <= i < shorter.len() implies on_course(
            plan.target@,
            #[trigger] shorter[i],
        ) by {
            assert(shorter[i] == walks[i]);
        }
        lemma_messages_on_course(plan, shorter);
        assert(on_course(plan.target@, walks[walks.len() - 1]));
        assert forall|i: int| 0 <= i < messages_of(plan, walks).len() implies reported_on_course(
            plan,
            #[trigger] messages_of(plan, walks)[i],
        ) by {
            if i < messages_of(plan, shorter).len() {
                assert(messages_of(plan, walks)[i] == messages_of(plan, shorter)[i]);
            } else {
                assert(messages_of(plan, walks)[i] == message_of(walks.last()));
            }
        }
    }
}

/// Every walk on a distinguished point reports, and no other does: the messages are those of the
/// walks whose abscissa is a multiple of the power of two, in their order. A message holds the
/// limbs of the abscissa, the coefficient and the limbs of the scalar.
pub proof fn law_hits_are_reported(plan: &WalkPlan, walks: Seq<Walk>)
    ensures
        messages_of(plan, walks) == walks.filter(
            |w: Walk| plan.dp_bits <= 64 && w.x@ % pow2(plan.dp_bits as nat) == 0,
        ).map_values(
            |w: Walk|
                DpMessage {
                    target_coeff: w.target_coeff,
                    key: DpKey {
                        x_0: w.x.limbs@[0],
                        x_1: w.x.limbs@[1],
                        x_2: w.x.limbs@[2],
                        x_3: w.x.limbs@[3],
                    },
                    scalar_limbs: w.scalar.limbs,
                },
        ),
    decreases walks.len(),
{
    let hit = |w: Walk| plan.dp_bits <= 64 && w.x@ % pow2(plan.dp_bits as nat) == 0;
    let told = |w: Walk|
        DpMessage {
            target_coeff: w.target_coeff,
            key: DpKey {
                x_0: w.x.limbs@[0],
                x_1: w.x.limbs@[1],
                x_2: w.x.limbs@[2],
                x_3: w.x.limbs@[3],
            },
            scalar_limbs: w.scalar.limbs,
        };
    reveal(Seq::filter);
    if walks.len() > 0 {
        let shorter = walks.drop_last();
        law_hits_are_reported(plan, shorter);
        if hit(walks.last()) {
            assert(shorter.filter(hit).push(walks.last()).map_values(told) =~= shorter.filter(
                hit,
            ).map_values(told).push(told(walks.last())));
        }
    }
    assert(messages_of(plan, walks) =~= walks.filter(hit).map_values(told));
}

/// A round is complete: each walk that lands on a distinguished point is told of, there are as
/// many messages as such walks, and each message is that of such a walk.
pub proof fn law_round_is_complete(
    plan: &WalkPlan,
    walks: Seq<Walk>,
    mid: Seq<Walk>,
    hopped: Seq<Walk>,
    messages: Seq<DpMessage>,
    left: Seq<Walk>,
)
    requires
        is_round(plan, walks, mid, hopped, messages, left),
    ensures
        hopped.len() == walks.len(),
        forall|i: int|
            0 <= i < hopped.len() && plan.dp_bits <= 64 && (#[trigger] hopped[i]).x@ % pow2(
                plan.dp_bits as nat,
            ) == 0 ==> exists|k: int|
                0 <= k < messages.len() && tells_of(#[trigger] messages[k], hopped[i]),
        forall|k: int|
            0 <= k < messages.len() ==> tells_of_hit(
                #[trigger] messages[k],
                hopped,
                plan.dp_bits,
            ),
        messages.len() == hopped.filter(
            |w: Walk| plan.dp_bits <= 64 && w.x@ % pow2(plan.dp_bits as nat) == 0,
        ).len(),
{
    let hit = |w: Walk| plan.dp_bits <= 64 && w.x@ % pow2(plan.dp_bits as nat) == 0;
    broadcast use vstd::seq_lib::group_filter_ensures;

    let hits = hopped.filter(hit);
    law_hits_are_reported(plan, hopped);
    assert(messages.len() == hits.len());
    assert forall|k: int| 0 <= k < messages.len() implies tells_of(
        #[trigger] messages[k],
        hits[k],
    ) by {}
    assert forall|i: int|
        0 <= i < hopped.len() && plan.dp_bits <= 64 && (#[trigger] hopped[i]).x@ % pow2(
            plan.dp_bits as nat,
        ) == 0 implies exists|k: int|
        0 <= k < messages.len() && tells_of(#[trigger] messages[k], hopped[i]) by {
        assert(hit(hopped[i]));
        assert(hits.contains(hopped[i]));
        let k = hits.index_of(hopped[i]);
        assert(tells_of(messages[k], hits[k]));
    }
    assert forall|k: int| 0 <= k < messages.len() implies tells_of_hit(
        #[trigger] messages[k],
        hopped,
        plan.dp_bits,
    ) by {
        assert(tells_of(messages[k], hits[k]));
        hopped.lemma_filter_contains_rev(hit, hits[k]);
        assert(hit(hits[k]));
        let i = hopped.index_of(hits[k]);
        assert(hopped[i] == hits[k]);
    }
}

/// A message tells of one of the walks, and that one stands on a distinguished point.
pub open spec fn tells_of_hit(m: DpMessage, hopped: Seq<Walk>, dp_bits: u32) -> bool {
    exists|i: int|
        0 <= i < hopped.len() && dp_bits <= 64 && (#[trigger] hopped[i]).x@ % pow2(dp_bits as nat)
            == 0 && tells_of(m, hopped[i])
}

/// A message tells of a walk: the abscissa it stands at, its coefficient and its scalar.
pub open spec fn tells_of(m: DpMessage, w: Walk) -> bool {
    &&& limbs_value(seq![m.key.x_0, m.key.x_1, m.key.x_2, m.key.x_3]) == w.x@
    &&& m.target_coeff == w.target_coeff
    &&& limbs_value(m.scalar_limbs@) == w.scalar@
}

/// The jump that a walk takes is picked by seven bits of each limb of its abscissa.
pub proof fn law_jump_choice(limbs: Seq<u64>)
    ensures
        jump_index_of(limbs) == (limbs[0] ^ (limbs[1] >> 47) ^ (limbs[2] >> 31) ^ (limbs[3] >> 13))
            % 128,
{
    let a: u64 = limbs[0];
    let b: u64 = limbs[1];
    let c: u64 = limbs[2];
    let d: u64 = limbs[3];
    assert((a ^ ((b << 17) | (b >> 47)) ^ ((c << 33) | (c >> 31)) ^ ((d << 51) | (d >> 13))) & 127
        == (a ^ (b >> 47) ^ (c >> 31) ^ (d >> 13)) % 128) by (bit_vector);
    assert(turned(b, 17) == (b << 17) | (b >> 47));
    assert(turned(c, 33) == (c << 33) | (c >> 31));
    assert(turned(d, 51) == (d << 51) | (d >> 13));
}

/// What a round does to each walk. A walk that does not stand above or below its jump is kept,
/// and takes the jump: the point, the scalar and the distance move on by it. It then goes on
/// unless it stands on a distinguished point or has gone too far: farther than two to the power
/// of `sub_bits`, or than the largest scalar if that is no scalar.
pub proof fn law_round_moves_walks(
    plan: &WalkPlan,
    walks: Seq<Walk>,
    mid: Seq<Walk>,
    hopped: Seq<Walk>,
    messages: Seq<DpMessage>,
    left: Seq<Walk>,
    i: int,
    j: int,
)
    requires
        is_round(plan, walks, mid, hopped, messages, left),
        0 <= i < walks.len(),
        j == (mid[i].x.limbs@[0] ^ (mid[i].x.limbs@[1] >> 47) ^ (mid[i].x.limbs@[2] >> 31) ^ (
        mid[i].x.limbs@[3] >> 13)) % 128,
    ensures
        plan.jumps.points@[j].x@ != mid[i].x@,
        mid[i] != walks[i] ==> is_new(plan, mid[i]) && exists|k: int|
            k == (walks[i].x.limbs@[0] ^ (walks[i].x.limbs@[1] >> 47) ^ (walks[i].x.limbs@[2]
                >> 31) ^ (walks[i].x.limbs@[3] >> 13)) % 128 && (
            #[trigger] plan.jumps.points@[k]).x@ == walks[i].x@,
        hopped[i].target_coeff == mid[i].target_coeff,
        hopped[i].scalar@ == (mid[i].scalar@ + plan.jumps.scalars@[j]@) % curve_order(),
        hopped[i].walked@ == (mid[i].walked@ + plan.jumps.scalars@[j]@) % curve_order(),
        (CurvePoint::Finite { x: hopped[i].x@, y: hopped[i].y@ }) == point_sum(
            CurvePoint::Finite { x: mid[i].x@, y: mid[i].y@ },
            CurvePoint::Finite {
                x: plan.jumps.points@[j].x@,
                y: plan.jumps.points@[j].y@,
            },
        ),
        ({
            let hit = plan.dp_bits <= 64 && hopped[i].x@ % pow2(plan.dp_bits as nat) == 0;
            let far = if plan.sub_bits < 255 {
                hopped[i].walked@ > pow2(plan.sub_bits as nat)
            } else {
                hopped[i].walked@ > curve_order() - 1
            };
            if hit || far {
                is_new(plan, left[i])
            } else {
                left[i] == hopped[i]
            }
        }),
{
    law_jump_choice(mid[i].x.limbs@);
    law_jump_choice(walks[i].x.limbs@);
    assert(is_hop(plan, mid[i], hopped[i]));
    assert(can_hop(plan, mid[i]));
    assert(mid[i] == walks[i] || !can_hop(plan, walks[i]) && is_new(plan, mid[i]));
    if mid[i] != walks[i] {
        let k = next_jump(walks[i]);
        assert(plan.jumps.points@[k].x@ == walks[i].x@);
    }
    law_farthest(plan.sub_bits);
    assert(if goes_on(plan, hopped[i]) {
        left[i] == hopped[i]
    } else {
        is_new(plan, left[i])
    });
}

/// The farthest that a walk goes: two to the power of `sub_bits`, or the largest scalar if that is
/// not below the order for certain.
pub proof fn law_farthest(sub_bits: u32)
    ensures
        sub_bits < 255 ==> max_distance_of(sub_bits) == pow2(sub_bits as nat),
        sub_bits >= 255 ==> max_distance_of(sub_bits) + 1 == curve_order(),
{
    crate::scalar::lemma_curve_order();
    if sub_bits < 255 {
        lemma_pow2_below_order(sub_bits as nat);
        vstd::arithmetic::div_mod::lemma_small_mod(pow2(sub_bits as nat), curve_order());
    }
}

/// Where wild walks start: at the target plus a multiple of the generator, by any scalar from
/// minus two to the power of half `sub_bits` up to, but not including, that power; and by no
/// other. The draw is the scalar's distance from the lower end.
pub proof fn law_wild_starts(plan: &WalkPlan)
    requires
        !plan.start_as_base,
        plan.sub_bits < 510,
    ensures
        draw_bound(plan) == 2 * pow2((plan.sub_bits / 2) as nat),
        forall|draw: nat|
            draw < 2 * pow2((plan.sub_bits / 2) as nat) ==> (#[trigger] start_scalar(plan, draw))
                < curve_order() && (start_scalar(plan, draw) + pow2((plan.sub_bits / 2) as nat))
                % curve_order() == draw,
        forall|s: int|
            -pow2((plan.sub_bits / 2) as nat) <= s < pow2((plan.sub_bits / 2) as nat)
                ==> #[trigger] start_scalar(
                plan,
                (s + pow2((plan.sub_bits / 2) as nat)) as nat,
            ) == s % curve_order() as int,
        forall|w: Walk, draw: nat| #[trigger]
            starts_at(plan, w, draw) ==> w.target_coeff == 1 && w.walked@ == 0 && w.scalar@
                == start_scalar(plan, draw) && (!(point_sum(plan.target@, multiple(w.scalar@)) is
                Infinity) ==> (CurvePoint::Finite { x: w.x@, y: w.y@ }) == point_sum(
                plan.target@,
                multiple(w.scalar@),
            )),
{
    let half = (plan.sub_bits / 2) as nat;
    let radius = pow2(half) as int;
    let n = curve_order() as int;
    crate::scalar::lemma_curve_order();
    vstd::arithmetic::power2::lemma_pow2_pos(half);
    lemma_pow2_below_order(half);
    lemma_pow2_below_order(half + 1);
    vstd::arithmetic::power2::lemma_pow2_unfold(half + 1);
    vstd::arithmetic::div_mod::lemma_small_mod(pow2(half), n as nat);
    vstd::arithmetic::div_mod::lemma_small_mod((2 * radius) as nat, n as nat);
    assert forall|draw: nat| draw < 2 * radius implies (#[trigger] start_scalar(plan, draw)) < n && (
    start_scalar(plan, draw) + radius) % n == draw by {
        lemma_mod_add(draw - radius, radius, n);
        vstd::arithmetic::div_mod::lemma_small_mod(draw, n as nat);
    }
}

/// Where tame walks start: at the multiple of the generator by the start of the span plus any
/// number below its width, and nowhere else (at the start itself if the width is zero).
pub proof fn law_tame_starts(plan: &WalkPlan)
    requires
        plan.start_as_base,
    ensures
        draw_bound(plan) == plan.range_width@,
        forall|draw: nat| #[trigger]
            start_scalar(plan, draw) == (plan.range_start@ + draw) % curve_order(),
        forall|w: Walk, draw: nat| #[trigger]
            starts_at(plan, w, draw) ==> w.target_coeff == 0 && w.walked@ == 0 && w.scalar@ == (
            plan.range_start@ + draw) % curve_order() && (!(multiple(w.scalar@) is Infinity) ==> (
            CurvePoint::Finite { x: w.x@, y: w.y@ }) == multiple(w.scalar@)),
{
}

/// Where wild walks start for any `sub_bits`, with the power of two taken modulo the order.
pub proof fn law_wild_starts_reduced(plan: &WalkPlan, draw: nat)
    requires
        !plan.start_as_base,
    ensures
        draw_bound(plan) == (2 * pow2((plan.sub_bits / 2) as nat)) % curve_order(),
        start_scalar(plan, draw) == (draw - pow2((plan.sub_bits / 2) as nat))
            % curve_order() as int,
{
    let p = pow2((plan.sub_bits / 2) as nat) as int;
    let n = curve_order() as int;
    crate::scalar::lemma_curve_order();
    lemma_mod_add(p, p, n);
    crate::modular::lemma_mod_sub(draw as int, p, n);
}

/// There is a walk that starts at a draw.
proof fn lemma_walk_exists(plan: &WalkPlan, draw: nat)
    requires
        plan.wf(),
    ensures
        starts_at(plan, walk_of(plan, draw), draw),
{
    let p = field_modulus();
    let n = curve_order();
    lemma_field_modulus();
    crate::scalar::lemma_curve_order();
    let s = start_scalar(plan, draw);
    crate::curve::lemma_multiple_on_curve(s);
    let (x, y) = match start_point(plan, draw) {
        CurvePoint::Infinity => (0, 0),
        CurvePoint::Finite { x, y } => (x, y),
    };
    assert(x < p && y < p);
    lemma_limbs_of(x);
    lemma_limbs_of(y);
    lemma_limbs_of(s);
    lemma_limbs_of(0);
    let w = Walk {
        x: Fq { limbs: limbs_of(x) },
        y: Fq { limbs: limbs_of(y) },
        scalar: Fr { limbs: limbs_of(s) },
        target_coeff: if plan.start_as_base {
            0i8
        } else {
            1i8
        },
        walked: Fr { limbs: limbs_of(0) },
    };
    assert(starts_at(plan, w, draw));
}

/// A new walk follows the generator: what is drawn below the width of the span, or below twice the
/// radius, is where the walk starts, and the generator goes on behind the draw. Without a draw
/// there is no walk.
pub proof fn law_respawn_follows_the_generator(plan: &WalkPlan, rng: Xoshiro256PlusPlus)
    requires
        plan.wf(),
    ensures
        ({
            let bound = if plan.start_as_base {
                plan.range_width@
            } else {
                (2 * pow2((plan.sub_bits / 2) as nat)) % curve_order()
            };
            let (draw, next) = draw_from(rng, bound);
            &&& respawned(plan, rng).1 == next
            &&& match draw {
                Some(d) => {
                    &&& respawned(plan, rng).0 is Some
                    &&& starts_at(plan, respawned(plan, rng).0->0, d)
                },
                None => respawned(plan, rng).0 is None,
            }
        }),
{
    if !plan.start_as_base {
        law_wild_starts_reduced(plan, 0);
    }
    if let Some(d) = draw_from(rng, draw_bound(plan)).0 {
        lemma_walk_exists(plan, d);
    }
}

/// The walks of a herd are started one after the other, each from where the generator stands.
pub proof fn law_herd_follows_the_generator(plan: &WalkPlan, size: nat, rng: Xoshiro256PlusPlus)
    requires
        herd_from(plan, size, rng).0 is Some,
    ensures
        herd_from(plan, size, rng).0->0.len() == size,
        exists|states: Seq<Xoshiro256PlusPlus>| #[trigger]
            is_run(states, size, rng, herd_from(plan, size, rng).1) && herd_run(
                plan,
                herd_from(plan, size, rng).0->0,
                states,
            ),
    decreases size,
{
    if size == 0 {
        let states = seq![rng];
        assert(is_run(states, size, rng, herd_from(plan, size, rng).1));
        assert(herd_run(plan, herd_from(plan, size, rng).0->0, states));
    } else {
        let fewer = (size - 1) as nat;
        law_herd_follows_the_generator(plan, fewer, rng);
        let (before, at) = herd_from(plan, fewer, rng);
        let (walks, end) = herd_from(plan, size, rng);
        let states = choose|states: Seq<Xoshiro256PlusPlus>| #[trigger]
            is_run(states, fewer, rng, at) && herd_run(plan, before->0, states);
        let longer = states.push(end);
        assert(is_run(longer, size, rng, end));
        assert forall|i: int| 0 <= i < size implies respawned(plan, #[trigger] longer[i]) == (
            Some(walks->0[i]),
            longer[i + 1],
        ) by {
            if i < fewer {
                assert(longer[i] == states[i] && longer[i + 1] == states[i + 1]);
                assert(walks->0[i] == before->0[i]);
            }
        }
        assert(herd_run(plan, walks->0, longer));
    }
}

/// Each walk is the new one that its state of the generator leads to.
pub open spec fn herd_run(
    plan: &WalkPlan,
    walks: Seq<Walk>,
    states: Seq<Xoshiro256PlusPlus>,
) -> bool {
    forall|i: int|
        0 <= i < walks.len() ==> respawned(plan, #[trigger] states[i]) == (
            Some(walks[i]),
            states[i + 1],
        )
}

/// The states of a generator over a number of steps.
pub open spec fn is_run(
    states: Seq<Xoshiro256PlusPlus>,
    steps: nat,
    first: Xoshiro256PlusPlus,
    last: Xoshiro256PlusPlus,
) -> bool {
    states.len() == steps + 1 && states[0] == first && states[steps as int] == last
}

/// A walk that stands above or below its jump is replaced by the next new walks until one does
/// not; any other is left alone, and so is the generator then.
pub proof fn law_stuck_walks_are_replaced(
    plan: &WalkPlan,
    w: Walk,
    rng: Xoshiro256PlusPlus,
    tries: nat,
    j: int,
)
    requires
        tries > 0,
        j == (w.x.limbs@[0] ^ (w.x.limbs@[1] >> 47) ^ (w.x.limbs@[2] >> 31) ^ (w.x.limbs@[3] >> 13))
            % 128,
    ensures
        plan.jumps.points@[j].x@ != w.x@ ==> able_walk(plan, w, rng, tries) == (Some(w), rng),
        plan.jumps.points@[j].x@ == w.x@ && respawned(plan, rng).0 is Some ==> able_walk(
            plan,
            w,
            rng,
            tries,
        ) == able_walk(
            plan,
            respawned(plan, rng).0->0,
            respawned(plan, rng).1,
            (tries - 1) as nat,
        ),
        plan.jumps.points@[j].x@ == w.x@ && respawned(plan, rng).0 is None ==> able_walk(
            plan,
            w,
            rng,
            tries,
        ).0 is None,
{
    law_jump_choice(w.x.limbs@);
}

/// Clearing goes over the walks one after the other, each with the generator that the last one
/// left.
pub proof fn law_clearing_follows_the_generator(
    plan: &WalkPlan,
    walks: Seq<Walk>,
    rng: Xoshiro256PlusPlus,
)
    requires
        clear_from(plan, walks, rng).0 is Some,
    ensures
        clear_from(plan, walks, rng).0->0.len() == walks.len(),
        exists|states: Seq<Xoshiro256PlusPlus>| #[trigger]
            is_run(states, walks.len(), rng, clear_from(plan, walks, rng).1) && clear_run(
                plan,
                walks,
                clear_from(plan, walks, rng).0->0,
                states,
            ),
    decreases walks.len(),
{
    if walks.len() == 0 {
        let states = seq![rng];
        assert(is_run(states, walks.len(), rng, clear_from(plan, walks, rng).1));
        assert(clear_run(plan, walks, clear_from(plan, walks, rng).0->0, states));
    } else {
        let fewer = walks.drop_last();
        law_clearing_follows_the_generator(plan, fewer, rng);
        lemma_last_cleared(plan, walks, rng);
        let (before, at) = clear_from(plan, fewer, rng);
        let (left, end) = clear_from(plan, walks, rng);
        let states = choose|states: Seq<Xoshiro256PlusPlus>| #[trigger]
            is_run(states, fewer.len(), rng, at) && clear_run(plan, fewer, before->0, states);
        let longer = states.push(end);
        assert(is_run(longer, walks.len(), rng, end));
        assert forall|i: int| 0 <= i < walks.len() implies able_walk(
            plan,
            walks[i],
            #[trigger] longer[i],
            0xFFFF_FFFF_FFFF_FFFF,
        ) == (Some(left->0[i]), longer[i + 1]) by {
            if i < fewer.len() {
                assert(longer[i] == states[i] && longer[i + 1] == states[i + 1]);
                assert(fewer[i] == walks[i] && left->0[i] == before->0[i]);
            } else {
                assert(longer[i] == at && longer[i + 1] == end && walks[i] == walks.last());
                assert(left->0[i] == left->0.last());
            }
        }
        assert(clear_run(plan, walks, left->0, longer));
    }
}

/// The last walk is cleared after the others.
proof fn lemma_last_cleared(plan: &WalkPlan, walks: Seq<Walk>, rng: Xoshiro256PlusPlus)
    requires
        walks.len() > 0,
        clear_from(plan, walks, rng).0 is Some,
    ensures
        ({
            let (before, at) = clear_from(plan, walks.drop_last(), rng);
            let (left, end) = clear_from(plan, walks, rng);
            &&& before is Some
            &&& left->0 == before->0.push(left->0.last())
            &&& able_walk(plan, walks.last(), at, 0xFFFF_FFFF_FFFF_FFFF) == (
                Some(left->0.last()),
                end,
            )
        }),
{
    let (before, at) = clear_from(plan, walks.drop_last(), rng);
    let (able, next) = able_walk(plan, walks.last(), at, MAX_DRAWS as nat);
    assert(before is Some && able is Some);
    assert(before->0.push(able->0).last() == able->0);
}

/// Each walk is made able to hop with its state of the generator.
pub open spec fn clear_run(
    plan: &WalkPlan,
    walks: Seq<Walk>,
    mid: Seq<Walk>,
    states: Seq<Xoshiro256PlusPlus>,
) -> bool {
    forall|i: int|
        0 <= i < walks.len() ==> able_walk(
            plan,
            walks[i],
            #[trigger] states[i],
            0xFFFF_FFFF_FFFF_FFFF,
        ) == (Some(mid[i]), states[i + 1])
}

/// Harvesting goes over the walks one after the other: one that goes on is kept and draws
/// nothing, any other is replaced by the next new walk.
pub proof fn law_harvest_follows_the_generator(
    plan: &WalkPlan,
    walks: Seq<Walk>,
    rng: Xoshiro256PlusPlus,
)
    requires
        harvest_from(plan, walks, rng).0 is Some,
    ensures
        harvest_from(plan, walks, rng).0->0.len() == walks.len(),
        exists|states: Seq<Xoshiro256PlusPlus>| #[trigger]
            is_run(states, walks.len(), rng, harvest_from(plan, walks, rng).1) && harvest_run(
                plan,
                walks,
                harvest_from(plan, walks, rng).0->0,
                states,
            ),
    decreases walks.len(),
{
    if walks.len() == 0 {
        let states = seq![rng];
        assert(is_run(states, walks.len(), rng, harvest_from(plan, walks, rng).1));
        assert(harvest_run(plan, walks, harvest_from(plan, walks, rng).0->0, states));
    } else {
        let fewer = walks.drop_last();
        law_harvest_follows_the_generator(plan, fewer, rng);
        law_farthest(plan.sub_bits);
        let (before, at) = harvest_from(plan, fewer, rng);
        let (left, end) = harvest_from(plan, walks, rng);
        let states = choose|states: Seq<Xoshiro256PlusPlus>| #[trigger]
            is_run(states, fewer.len(), rng, at) && harvest_run(plan, fewer, before->0, states);
        let longer = states.push(end);
        assert(is_run(longer, walks.len(), rng, end));
        assert forall|i: int| 0 <= i < walks.len() implies harvests(
            plan,
            walks[i],
            #[trigger] longer[i],
            left->0[i],
            longer[i + 1],
        ) by {
            if i < fewer.len() {
                assert(longer[i] == states[i] && longer[i + 1] == states[i + 1]);
                assert(fewer[i] == walks[i] && left->0[i] == before->0[i]);
            } else {
                assert(longer[i] == at && longer[i + 1] == end && walks[i] == walks.last());
            }
        }
        assert(harvest_run(plan, walks, left->0, longer));
    }
}

/// Each walk is harvested with its state of the generator.
pub open spec fn harvest_run(
    plan: &WalkPlan,
    walks: Seq<Walk>,
    left: Seq<Walk>,
    states: Seq<Xoshiro256PlusPlus>,
) -> bool {
    forall|i: int|
        0 <= i < walks.len() ==> harvests(
            plan,
            walks[i],
            #[trigger] states[i],
            left[i],
            states[i + 1],
        )
}

/// A walk is kept if it is not on a distinguished point and has not gone too far; else it is
/// replaced by the new walk that the generator leads to.
pub open spec fn harvests(
    plan: &WalkPlan,
    w: Walk,
    rng: Xoshiro256PlusPlus,
    left: Walk,
    next: Xoshiro256PlusPlus,
) -> bool {
    let hit = plan.dp_bits <= 64 && w.x@ % pow2(plan.dp_bits as nat) == 0;
    let far = if plan.sub_bits < 255 {
        w.walked@ > pow2(plan.sub_bits as nat)
    } else {
        w.walked@ > curve_order() - 1
    };
    if hit || far {
        respawned(plan, rng) == (Some(left), next)
    } else {
        left == w && next == rng
    }
}

/// What a round of hops adds is reported at once, with all that was not reported before, if that
/// makes 16384 or more; else all of it is kept for later.
pub proof fn law_tally(unreported: nat, hops: nat)
    ensures
        unreported + hops >= 16_384 ==> tally(unreported, hops) == (0nat, unreported + hops),
        unreported + hops < 16_384 ==> tally(unreported, hops) == (unreported + hops, 0nat),
{
}

/// A start at the neutral element leaves zeros for coordinates.
pub proof fn law_neutral_start(plan: &WalkPlan, w: Walk, draw: nat)
    requires
        starts_at(plan, w, draw),
        plan.start_as_base ==> multiple(w.scalar@) is Infinity,
        !plan.start_as_base ==> point_sum(plan.target@, multiple(w.scalar@)) is Infinity,
    ensures
        w.x@ == 0,
        w.y@ == 0,
{
}

/// A herd is not started only if a draw fails: the walks before it are started, and no more is
/// asked of the generator.
pub proof fn law_herd_fails_with_a_draw(plan: &WalkPlan, size: nat, rng: Xoshiro256PlusPlus)
    requires
        herd_from(plan, size, rng).0 is None,
    ensures
        exists|i: nat|
            i < size && (#[trigger] herd_from(plan, i, rng)).0 is Some && respawned(
                plan,
                herd_from(plan, i, rng).1,
            ) == (None::<Walk>, herd_from(plan, size, rng).1),
    decreases size,
{
    let fewer = (size - 1) as nat;
    if size > 0 && herd_from(plan, fewer, rng).0 is None {
        law_herd_fails_with_a_draw(plan, fewer, rng);
        let i = choose|i: nat|
            i < fewer && (#[trigger] herd_from(plan, i, rng)).0 is Some && respawned(
                plan,
                herd_from(plan, i, rng).1,
            ) == (None::<Walk>, herd_from(plan, fewer, rng).1);
        assert(herd_from(plan, i, rng).0 is Some);
    } else if size > 0 {
        assert(herd_from(plan, fewer, rng).0 is Some);
    }
}

/// Clearing fails only at a walk for which no walk that can hop is drawn, and asks no more of the
/// generator then.
pub proof fn law_clearing_fails_with_a_draw(
    plan: &WalkPlan,
    walks: Seq<Walk>,
    rng: Xoshiro256PlusPlus,
)
    requires
        clear_from(plan, walks, rng).0 is None,
    ensures
        exists|i: int|
            0 <= i < walks.len() && clear_from(plan, #[trigger] walks.take(i), rng).0 is Some
                && able_walk(
                plan,
                walks[i],
                clear_from(plan, walks.take(i), rng).1,
                0xFFFF_FFFF_FFFF_FFFF,
            ) == (None::<Walk>, clear_from(plan, walks, rng).1),
    decreases walks.len(),
{
    if walks.len() > 0 {
        let fewer = walks.drop_last();
        if clear_from(plan, fewer, rng).0 is None {
            law_clearing_fails_with_a_draw(plan, fewer, rng);
            let i = choose|i: int|
                0 <= i < fewer.len() && clear_from(plan, #[trigger] fewer.take(i), rng).0 is Some
                    && able_walk(
                    plan,
                    fewer[i],
                    clear_from(plan, fewer.take(i), rng).1,
                    0xFFFF_FFFF_FFFF_FFFF,
                ) == (None::<Walk>, clear_from(plan, fewer, rng).1);
            assert(walks.take(i) =~= fewer.take(i));
        } else {
            assert(walks.take(walks.len() - 1) =~= fewer);
        }
    }
}

/// Harvesting fails only at a walk that does not go on and for which no new one is drawn, and asks
/// no more of the generator then.
pub proof fn law_harvest_fails_with_a_draw(
    plan: &WalkPlan,
    walks: Seq<Walk>,
    rng: Xoshiro256PlusPlus,
)
    requires
        harvest_from(plan, walks, rng).0 is None,
    ensures
        exists|i: int|
            0 <= i < walks.len() && harvest_from(plan, #[trigger] walks.take(i), rng).0 is Some
                && respawned(plan, harvest_from(plan, walks.take(i), rng).1) == (
                None::<Walk>,
                harvest_from(plan, walks, rng).1,
            ) && stops(plan, walks[i]),
    decreases walks.len(),
{
    law_farthest(plan.sub_bits);
    if walks.len() > 0 {
        let fewer = walks.drop_last();
        if harvest_from(plan, fewer, rng).0 is None {
            law_harvest_fails_with_a_draw(plan, fewer, rng);
            let i = choose|i: int|
                0 <= i < fewer.len() && harvest_from(plan, #[trigger] fewer.take(i), rng).0 is Some
                    && respawned(plan, harvest_from(plan, fewer.take(i), rng).1) == (
                    None::<Walk>,
                    harvest_from(plan, fewer, rng).1,
                ) && stops(plan, fewer[i]);
            assert(walks.take(i) =~= fewer.take(i));
        } else {
            assert(walks.take(walks.len() - 1) =~= fewer);
        }
    }
}

/// A walk ends: it stands on a distinguished point, or has gone farther than walks go.
pub open spec fn stops(plan: &WalkPlan, w: Walk) -> bool {
    ||| plan.dp_bits <= 64 && w.x@ % pow2(plan.dp_bits as nat) == 0
    ||| plan.sub_bits < 255 && w.walked@ > pow2(plan.sub_bits as nat)
    ||| plan.sub_bits >= 255 && w.walked@ > curve_order() - 1
}

/// A round gives its messages unless its draws fail.
pub proof fn law_round_gives_its_messages(
    plan: &WalkPlan,
    walks: Seq<Walk>,
    rng: Xoshiro256PlusPlus,
    messages: Option<Vec<DpMessage>>,
    left: Seq<Walk>,
    after: Xoshiro256PlusPlus,
)
    requires
        round_from(plan, walks, rng, messages, left, after),
        clear_from(plan, walks, rng).0 is Some,
        forall|hopped: Seq<Walk>|
            (#[trigger] harvest_from(plan, hopped, clear_from(plan, walks, rng).1)).0 is Some,
    ensures
        messages is Some,
        left.len() == walks.len(),
{
    let (able, ready) = clear_from(plan, walks, rng);
    let hopped = choose|hopped: Seq<Walk>| #[trigger]
        are_hops(plan, able->0, hopped) && ends_round(plan, hopped, ready, messages, left, after);
    law_clearing_follows_the_generator(plan, walks, rng);
    law_harvest_follows_the_generator(plan, hopped, ready);
}

} // verus!
