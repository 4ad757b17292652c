//! Collecting distinguished points: their record in the log, their place in the table, and what
//! they tell when two walks of different kinds have met.

use vstd::arithmetic::div_mod::{lemma_mod_bound, lemma_mul_mod_noop_left, lemma_small_mod};
use vstd::prelude::*;

use crate::curve::{generates_group, generator, lemma_multiple_injective, multiple, CurvePoint};
use crate::dp_map::{no_paths, paths_at, with_path, DpMap, Path, PointKey};
use crate::limbs::limbs_value;
use crate::modular::{lemma_mod_cancel, lemma_mod_mul_congruent, lemma_mod_sub};
use crate::record::{
    encode_record, law_log_extends, load, load_start, record_bytes, DpMessage,
};
use crate::scalar::{
    curve_order, fr_inverse, fr_mul, fr_sub, lemma_curve_order, limbs_to_fr, scalar_values, Fr,
};
use crate::walk::{message_of, on_course, Walk};

verus! {

/// `i` is the inverse of `d` modulo the order.
pub open spec fn is_inverse(i: nat, d: int) -> bool {
    i < curve_order() && (i * d) % curve_order() as int == 1
}

/// The inverse of `d` modulo the order.
pub open spec fn inverse_of(d: int) -> nat {
    choose|i: nat| is_inverse(i, d)
}

/// The scalar of the target, given that a walk with coefficient `c1` and scalar `s1` stands where
/// one with coefficient `c2` and scalar `s2` does: what solves `s1 + c1 * t == s2 + c2 * t`.
pub open spec fn candidate_of(c1: i8, s1: nat, c2: i8, s2: nat) -> nat {
    (((s2 - s1) * inverse_of(c1 - c2)) % curve_order() as int) as nat
}

proof fn lemma_inverse_unique(i: nat, d: int)
    requires
        is_inverse(i, d),
    ensures
        inverse_of(d) == i,
{
    let n = curve_order() as int;
    lemma_curve_order();
    let j = inverse_of(d);
    assert(is_inverse(j, d));
    assert(d * i == i * d) by (nonlinear_arith);
    lemma_mod_cancel(i as int, j as int, d, i as int, n);
    lemma_small_mod(i, curve_order());
    lemma_small_mod(j, curve_order());
}

/// The scalar of the target, from two ways to one point.
pub fn candidate(c1: i8, s1: &Fr, c2: i8, s2: &Fr) -> (r: Fr)
    requires
        c1 != c2,
        s1.wf(),
        s2.wf(),
    ensures
        r.wf(),
        r@ == candidate_of(c1, s1@, c2, s2@),
{
    let ghost n = curve_order() as int;
    proof {
        lemma_curve_order();
    }
    let s_diff = fr_sub(s2, s1);
    let c_diff: i32 = c1 as i32 - c2 as i32;
    let c_diff_fr = if c_diff > 0 {
        Fr::from_u64(c_diff as u64)
    } else {
        fr_sub(&Fr::from_u64(0), &Fr::from_u64((-c_diff) as u64))
    };
    let ghost d: int = c1 - c2;
    assert(c_diff_fr@ == d % n && d % n != 0) by {
        if d > 0 {
            lemma_small_mod(d as nat, n as nat);
        } else {
            vstd::arithmetic::div_mod::lemma_mod_add_multiples_vanish(d, n);
            lemma_small_mod((n + d) as nat, n as nat);
        }
    }
    match fr_inverse(&c_diff_fr) {
        Some(inv) => {
            proof {
                let i = inv@;
                vstd::arithmetic::div_mod::lemma_mod_twice(d, n);
                lemma_mod_mul_congruent(d, d % n, i as int, n);
                assert(i * d == d * i) by (nonlinear_arith);
                assert(i * c_diff_fr@ == (d % n) * i) by (nonlinear_arith)
                    requires
                        c_diff_fr@ == d % n,
                ;
                assert(is_inverse(i, d));
                lemma_inverse_unique(i, d);
                lemma_mul_mod_noop_left(s2@ - s1@, i as int, n);
                lemma_mod_bound((s2@ - s1@) * i, n);
            }
            fr_mul(&s_diff, &inv)
        },
        None => s_diff,
    }
}

/// Limbs stand for a scalar.
pub open spec fn canonical(limbs: Seq<u64>) -> bool {
    limbs_value(limbs) < curve_order()
}

/// The paths with another coefficient all have a scalar.
pub open spec fn comparable(c1: i8, paths: Seq<Path>) -> bool {
    forall|i: int| 0 <= i < paths.len() && (#[trigger] paths[i]).0 != c1 ==> canonical(paths[i].1@)
}

/// What the paths with another coefficient tell of the target, in their order, up to the first
/// such path that has no scalar.
pub open spec fn candidates_of(c1: i8, s1: nat, paths: Seq<Path>) -> Seq<nat>
    decreases paths.len(),
{
    if paths.len() == 0 {
        Seq::empty()
    } else {
        let before = candidates_of(c1, s1, paths.drop_last());
        let last = paths.last();
        if last.0 != c1 && comparable(c1, paths) {
            before.push(candidate_of(c1, s1, last.0, limbs_value(last.1@)))
        } else {
            before
        }
    }
}

/// Every scalar is reduced.
pub open spec fn all_scalars(v: Seq<Fr>) -> bool {
    forall|i: int| 0 <= i < v.len() ==> (#[trigger] v[i]).wf()
}

/// What a path and the paths known for the same point tell of the target; and whether all the
/// scalars on the way were reduced. It ends at the first that is not.
pub fn candidates(c1: i8, scalar_limbs: [u64; 4], paths: &Vec<Path>) -> (r: (Vec<Fr>, bool))
    ensures
        all_scalars(r.0@),
        r.1 <==> canonical(scalar_limbs@) && comparable(c1, paths@),
        scalar_values(r.0@) == if canonical(scalar_limbs@) {
            candidates_of(c1, limbs_value(scalar_limbs@), paths@)
        } else {
            Seq::empty()
        },
{
    let mut found: Vec<Fr> = Vec::new();
    let s1 = match limbs_to_fr(scalar_limbs) {
        Some(s1) => s1,
        None => {
            assert(scalar_values(found@) =~= Seq::<nat>::empty());
            return (found, false);
        },
    };
    let mut i: usize = 0;
    assert(paths@.take(0) =~= Seq::<Path>::empty());
    while i < paths.len()
        invariant
            i <= paths@.len(),
            s1.wf(),
            s1@ == limbs_value(scalar_limbs@),
            canonical(scalar_limbs@),
            all_scalars(found@),
            comparable(c1, paths@.take(i as int)),
            scalar_values(found@) == candidates_of(c1, s1@, paths@.take(i as int)),
        decreases paths@.len() - i,
    {
        let (c2, ext_scalar) = paths[i];
        proof {
            assert(paths@.take(i + 1).drop_last() =~= paths@.take(i as int));
            assert(paths@.take(i + 1).last() == (c2, ext_scalar));
        }
        if c1 != c2 {
            match limbs_to_fr(ext_scalar) {
                Some(s2) => {
                    proof {
                        assert forall|k: int|
                            0 <= k < i + 1 && (#[trigger] paths@.take(i + 1)[k]).0
                                != c1 implies canonical(paths@.take(i + 1)[k].1@) by {
                            if k < i {
                                assert(paths@.take(i as int)[k] == paths@.take(i + 1)[k]);
                            }
                        }
                    }
                    let ghost before = found@;
                    found.push(candidate(c1, &s1, c2, &s2));
                    proof {
                        assert(scalar_values(found@) =~= scalar_values(before).push(
                            candidate_of(c1, s1@, c2, s2@),
                        ));
                    }
                },
                None => {
                    proof {
                        assert(!canonical(paths@[i as int].1@));
                        lemma_candidates_stop(c1, s1@, paths@, i as int);
                    }
                    return (found, false);
                },
            }
        } else {
            proof {
                assert forall|k: int|
                    0 <= k < i + 1 && (#[trigger] paths@.take(i + 1)[k]).0 != c1 implies canonical(
                    paths@.take(i + 1)[k].1@,
                ) by {
                    assert(paths@.take(i as int)[k] == paths@.take(i + 1)[k]);
                }
            }
        }
        i = i + 1;
    }
    assert(paths@.take(i as int) =~= paths@);
    (found, true)
}

/// Behind a path without a scalar nothing more is told.
proof fn lemma_candidates_stop(c1: i8, s1: nat, paths: Seq<Path>, i: int)
    requires
        0 <= i < paths.len(),
        paths[i].0 != c1,
        !canonical(paths[i].1@),
    ensures
        candidates_of(c1, s1, paths) == candidates_of(c1, s1, paths.take(i)),
    decreases paths.len(),
{
    assert(!comparable(c1, paths));
    let shorter = paths.drop_last();
    if i == paths.len() - 1 {
        assert(shorter =~= paths.take(i));
    } else {
        assert(shorter[i] == paths[i]);
        lemma_candidates_stop(c1, s1, shorter, i);
        assert(shorter.take(i) =~= paths.take(i));
    }
}

/// Each path with another coefficient contributes a candidate.
proof fn lemma_candidates_contain(c1: i8, s1: nat, paths: Seq<Path>, i: int)
    requires
        0 <= i < paths.len(),
        paths[i].0 != c1,
        comparable(c1, paths),
    ensures
        candidates_of(c1, s1, paths).contains(
            candidate_of(c1, s1, paths[i].0, limbs_value(paths[i].1@)),
        ),
    decreases paths.len(),
{
    let shorter = paths.drop_last();
    let wanted = candidate_of(c1, s1, paths[i].0, limbs_value(paths[i].1@));
    let all = candidates_of(c1, s1, paths);
    let before = candidates_of(c1, s1, shorter);
    assert(comparable(c1, shorter)) by {
        assert forall|k: int|
            0 <= k < shorter.len() && (#[trigger] shorter[k]).0 != c1 implies canonical(
            shorter[k].1@,
        ) by {
            assert(shorter[k] == paths[k]);
        }
    }
    if i == paths.len() - 1 {
        assert(all[before.len() as int] == wanted);
    } else {
        lemma_candidates_contain(c1, s1, shorter, i);
        let k = before.index_of(wanted);
        assert(all[k] == wanted);
    }
}

/// The table of distinguished points, and what is counted along with it.
pub struct Collector {
    pub map: DpMap,
    /// The sequence number of the next record.
    pub ram_seq: u64,
    /// How many points have been collected.
    pub points: u64,
}

/// What comes of a distinguished point.
pub struct Absorbed {
    /// Its record for the log.
    pub record: Vec<u8>,
    /// What it tells of the target.
    pub candidates: Vec<Fr>,
}

/// A message and the paths known for its point can be compared. A message for a new point need
/// not be looked into.
pub open spec fn absorbable(map: Map<PointKey, Seq<Path>>, msg: DpMessage) -> bool {
    map.contains_key(msg.key.limbs()) ==> canonical(msg.scalar_limbs@) && comparable(
        msg.target_coeff,
        map[msg.key.limbs()],
    )
}

/// What a message tells of the target, given the table.
pub open spec fn told_by(map: Map<PointKey, Seq<Path>>, msg: DpMessage) -> Seq<nat> {
    if canonical(msg.scalar_limbs@) {
        candidates_of(
            msg.target_coeff,
            limbs_value(msg.scalar_limbs@),
            paths_at(map, msg.key.limbs()),
        )
    } else {
        Seq::empty()
    }
}

impl Collector {
    /// Takes in a distinguished point: writes its record, compares its path with those known for
    /// the point, and adds the path to them.
    ///
    /// If a scalar on the way is not reduced, nothing is taken in, and what was told before that
    /// scalar is handed back.
    pub fn absorb(&mut self, msg: &DpMessage) -> (r: Result<Absorbed, Vec<Fr>>)
        requires
            old(self).ram_seq < u64::MAX,
            old(self).points < u64::MAX,
        ensures
            r is Ok <==> absorbable(old(self).map@, *msg),
            match r {
                Ok(a) => {
                    &&& a.record@ == record_bytes(
                        old(self).ram_seq as nat,
                        msg.key.limbs(),
                        msg.path(),
                    )
                    &&& all_scalars(a.candidates@)
                    &&& scalar_values(a.candidates@) == told_by(old(self).map@, *msg)
                    &&& final(self).map@ == with_path(old(self).map@, msg.key.limbs(), msg.path())
                    &&& final(self).ram_seq == old(self).ram_seq + 1
                    &&& final(self).points == old(self).points + 1
                },
                Err(before) => {
                    &&& all_scalars(before@)
                    &&& scalar_values(before@) == told_by(old(self).map@, *msg)
                    &&& final(self).map@ == old(self).map@
                    &&& final(self).ram_seq == old(self).ram_seq
                    &&& final(self).points == old(self).points
                },
            },
    {
        let record = encode_record(self.ram_seq, msg);
        let key = msg.key.to_limbs();
        let (told, intact): (Vec<Fr>, bool) = match self.map.get(&key) {
            Some(existing_paths) => candidates(msg.target_coeff, msg.scalar_limbs, existing_paths),
            None => (Vec::new(), true),
        };
        assert(scalar_values(told@) =~= told_by(old(self).map@, *msg));
        if !intact {
            return Err(told);
        }
        self.map.push(key, (msg.target_coeff, msg.scalar_limbs));
        self.ram_seq = self.ram_seq + 1;
        self.points = self.points + 1;
        Ok(Absorbed { record, candidates: told })
    }
}

/// A log holds what a collector holds: read from its start, it gives the table, the sequence
/// number that is due and the number of points.
pub open spec fn log_holds(
    log: Seq<u8>,
    map: Map<PointKey, Seq<Path>>,
    ram_seq: nat,
    points: nat,
) -> bool {
    let end = load(log, load_start(no_paths(), 0));
    end.1 is None && end.0.map == map && end.0.expected == ram_seq && end.0.count == points
}

/// A log that holds what a collector holds does so again once the record of the next point is
/// appended to it.
pub proof fn law_log_keeps_step(
    log: Seq<u8>,
    map: Map<PointKey, Seq<Path>>,
    ram_seq: u64,
    points: nat,
    msg: DpMessage,
)
    requires
        log_holds(log, map, ram_seq as nat, points),
    ensures
        log_holds(
            log + record_bytes(ram_seq as nat, msg.key.limbs(), msg.path()),
            with_path(map, msg.key.limbs(), msg.path()),
            ram_seq as nat + 1,
            points + 1,
        ),
{
    law_log_extends(log, load_start(no_paths(), 0), msg.key.limbs(), msg.path());
}

/// Where a walk that counts the target and one that does not have met, their scalars give the
/// scalar of the target.
pub proof fn law_collision_solves(target: CurvePoint, w1: Walk, w2: Walk, t: nat)
    requires
        generates_group(generator()),
        on_course(target, w1),
        on_course(target, w2),
        w1.target_coeff + w2.target_coeff == 1,
        w1.point() == w2.point(),
        target == multiple(t),
    ensures
        candidate_of(w1.target_coeff, w1.scalar@, w2.target_coeff, w2.scalar@) == t
            % curve_order(),
{
    let n = curve_order() as int;
    lemma_curve_order();
    let (c1, c2) = (w1.target_coeff as int, w2.target_coeff as int);
    let (s1, s2) = (w1.scalar@ as int, w2.scalar@ as int);
    let d = c1 - c2;
    let tt = t as int;
    assert(c1 * tt == if c1 == 1 {
        tt
    } else {
        0
    } && c2 * tt == if c2 == 1 {
        tt
    } else {
        0
    }) by (nonlinear_arith)
        requires
            c1 == 0 && c2 == 1 || c1 == 1 && c2 == 0,
    ;
    lemma_multiple_injective((s1 + c1 * tt) as nat, (s2 + c2 * tt) as nat);
    assert((s1 + c1 * tt) % n == (s2 + c2 * tt) % n);
    if c1 == 1 {
        lemma_small_mod(1, n as nat);
        assert(is_inverse(1, d));
        lemma_inverse_unique(1, d);
        assert((s2 - s1) * 1 == s2 - s1);
        lemma_mod_sub(s1 + tt, s1, n);
        lemma_mod_sub(s2, s1, n);
        assert((s2 - s1) % n == tt % n);
    } else {
        let i = (n - 1) as nat;
        assert(i * d == 1 - n) by (nonlinear_arith)
            requires
                i == n - 1,
                d == -1,
        ;
        vstd::arithmetic::div_mod::lemma_mod_multiples_vanish(-1, 1, n);
        lemma_small_mod(1, n as nat);
        assert(is_inverse(i, d));
        lemma_inverse_unique(i, d);
        assert((s2 - s1) * i == n * (s2 - s1) + (s1 - s2)) by (nonlinear_arith)
            requires
                i == n - 1,
        ;
        vstd::arithmetic::div_mod::lemma_mod_multiples_vanish(s2 - s1, s1 - s2, n);
        lemma_mod_sub(s2 + tt, s2, n);
        lemma_mod_sub(s1, s2, n);
        assert((s1 - s2) % n == tt % n);
    }
}

/// A meeting is not missed: when a walk on course reports a point that the table knows from a
/// walk of the other kind, reduced scalars given, the scalar of the target is among what is told.
pub proof fn law_meeting_is_told(
    target: CurvePoint,
    w1: Walk,
    w2: Walk,
    t: nat,
    map: Map<PointKey, Seq<Path>>,
    i: int,
)
    requires
        generates_group(generator()),
        on_course(target, w1),
        on_course(target, w2),
        w1.target_coeff + w2.target_coeff == 1,
        w1.point() == w2.point(),
        target == multiple(t),
        absorbable(map, message_of(w1)),
        map.contains_key(message_of(w1).key.limbs()),
        0 <= i < map[message_of(w1).key.limbs()].len(),
        map[message_of(w1).key.limbs()][i] == message_of(w2).path(),
    ensures
        told_by(map, message_of(w1)).contains(t % curve_order()),
{
    let paths = map[message_of(w1).key.limbs()];
    law_collision_solves(target, w1, w2, t);
    lemma_candidates_contain(w1.target_coeff, w1.scalar@, paths, i);
}

/// A candidate solves the equation of the two walks: with it for the scalar of the target, both
/// stand at the same multiple of the generator. It is below the order.
pub proof fn law_candidate_solves_the_equation(c1: i8, s1: nat, c2: i8, s2: nat, inverse: nat)
    requires
        inverse < curve_order(),
        (inverse * (c1 - c2)) % curve_order() as int == 1,
    ensures
        ({
            let t = candidate_of(c1, s1, c2, s2);
            &&& t < curve_order()
            &&& (s1 + c1 * t) % curve_order() as int == (s2 + c2 * t) % curve_order() as int
        }),
{
    let n = curve_order() as int;
    let d: int = c1 - c2;
    let i = inverse as int;
    let t = candidate_of(c1, s1, c2, s2) as int;
    lemma_curve_order();
    assert(is_inverse(inverse, d));
    lemma_inverse_unique(inverse, d);
    let gap = s2 - s1;
    lemma_mod_bound(gap * i, n);
    // t * d is the gap, modulo the order.
    lemma_mul_mod_noop_left(gap * i, d, n);
    assert(gap * i * d == gap * (i * d)) by (nonlinear_arith);
    vstd::arithmetic::div_mod::lemma_mul_mod_noop_right(gap, i * d, n);
    assert(gap * 1 == gap);
    assert((t * d) % n == gap % n);
    // So both sides agree.
    let left = s1 + c1 * t;
    let right = s2 + c2 * t;
    assert(left - right == t * d - gap) by (nonlinear_arith)
        requires
            left == s1 + c1 * t,
            right == s2 + c2 * t,
            d == c1 - c2,
            gap == s2 - s1,
    ;
    lemma_mod_sub(t * d, gap, n);
    assert((left - right) % n == (gap % n - gap % n) % n);
    lemma_small_mod(0, n as nat);
    crate::modular::lemma_mod_add(left - right, right, n);
    assert(((left - right) % n + right) % n == left % n);
}

/// What is told by comparable paths: one candidate for each path with another coefficient, in
/// their order, and nothing else.
pub proof fn law_each_other_path_tells(c1: i8, s1: nat, paths: Seq<Path>)
    requires
        forall|i: int|
            0 <= i < paths.len() && (#[trigger] paths[i]).0 != c1 ==> limbs_value(paths[i].1@)
                < curve_order(),
    ensures
        candidates_of(c1, s1, paths) == paths.filter(|p: Path| p.0 != c1).map_values(
            |p: Path| candidate_of(c1, s1, p.0, limbs_value(p.1@)),
        ),
    decreases paths.len(),
{
    let other = |p: Path| p.0 != c1;
    let told = |p: Path| candidate_of(c1, s1, p.0, limbs_value(p.1@));
    reveal(Seq::filter);
    assert(comparable(c1, paths));
    if paths.len() > 0 {
        let fewer = paths.drop_last();
        assert forall|i: int| 0 <= i < fewer.len() && (#[trigger] fewer[i]).0 != c1 implies limbs_value(
            fewer[i].1@,
        ) < curve_order() by {
            assert(fewer[i] == paths[i]);
        }
        law_each_other_path_tells(c1, s1, fewer);
        if other(paths.last()) {
            assert(fewer.filter(other).push(paths.last()).map_values(told) =~= fewer.filter(
                other,
            ).map_values(told).push(told(paths.last())));
        }
    }
    assert(candidates_of(c1, s1, paths) =~= paths.filter(other).map_values(told));
}

/// Comparing ends at the first path with another coefficient whose limbs are no scalar: what is
/// told is what the paths before it tell.
pub proof fn law_comparing_ends_at_no_scalar(c1: i8, s1: nat, paths: Seq<Path>, i: int)
    requires
        0 <= i < paths.len(),
        paths[i].0 != c1,
        limbs_value(paths[i].1@) >= curve_order(),
    ensures
        candidates_of(c1, s1, paths) == candidates_of(c1, s1, paths.take(i)),
{
    lemma_candidates_stop(c1, s1, paths, i);
}

/// A message is taken in unless its point is known and its limbs, or those of a path of the point
/// with another coefficient, are no scalar. A message for a new point tells nothing.
pub proof fn law_what_is_taken_in(map: Map<PointKey, Seq<Path>>, msg: DpMessage)
    ensures
        ({
            let key = (msg.key.x_0, msg.key.x_1, msg.key.x_2, msg.key.x_3);
            &&& absorbable(map, msg) <==> !map.contains_key(key) || (limbs_value(
                msg.scalar_limbs@,
            ) < curve_order() && forall|i: int|
                0 <= i < map[key].len() && (#[trigger] map[key][i]).0 != msg.target_coeff
                    ==> limbs_value(map[key][i].1@) < curve_order())
            &&& !map.contains_key(key) ==> told_by(map, msg).len() == 0
            &&& map.contains_key(key) && limbs_value(msg.scalar_limbs@) < curve_order() ==> told_by(
                map,
                msg,
            ) == candidates_of(msg.target_coeff, limbs_value(msg.scalar_limbs@), map[key])
        }),
{
}

} // verus!
