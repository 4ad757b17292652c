//! Points of secp256k1 and multiples of its generator.

use ark_ec::{AffineRepr, CurveGroup, Group};
use ark_ff::{BigInt, PrimeField};
use vstd::arithmetic::power2::{lemma_pow2_adds, lemma_pow2_pos, pow2};
use vstd::prelude::*;

use crate::field::{field_modulus, fq_mul, fq_sub, is_root, lemma_field_modulus, Fq};
use crate::limbs::{lemma_limbs_value_bound, limbs_window};
use crate::modular::{lemma_mod_add, lemma_mod_cancel, lemma_mod_sub};
use crate::scalar::{curve_order, lemma_curve_order, Fr};

verus! {

/// A point of the curve: the neutral element, or a pair of coordinates.
pub enum CurvePoint {
    Infinity,
    Finite { x: nat, y: nat },
}

/// `q` times `b` is `a` in the field.
pub open spec fn is_quotient(q: nat, a: int, b: int) -> bool {
    q < field_modulus() && (q * b) % field_modulus() as int == a % field_modulus() as int
}

/// `a` divided by `b` in the field.
pub open spec fn quotient(a: int, b: int) -> nat {
    choose|q: nat| is_quotient(q, a, b)
}

/// The third point on the line of slope `slope` through two points, mirrored.
pub open spec fn line_sum(slope: nat, x1: nat, y1: nat, x2: nat) -> CurvePoint {
    let p = field_modulus() as int;
    let x3 = (slope * slope - x1 - x2) % p;
    CurvePoint::Finite { x: x3 as nat, y: ((slope * (x1 - x3) - y1) % p) as nat }
}

/// The sum of two points, by the chord and the tangent.
pub open spec fn point_sum(a: CurvePoint, b: CurvePoint) -> CurvePoint {
    match (a, b) {
        (CurvePoint::Infinity, _) => b,
        (_, CurvePoint::Infinity) => a,
        (CurvePoint::Finite { x: x1, y: y1 }, CurvePoint::Finite { x: x2, y: y2 }) => {
            if x1 != x2 {
                line_sum(quotient(y2 - y1, x2 - x1), x1, y1, x2)
            } else if y1 == y2 && y1 != 0 {
                line_sum(quotient((3 * x1 * x1) as int, (2 * y1) as int), x1, y1, x2)
            } else {
                CurvePoint::Infinity
            }
        },
    }
}

/// A point added to itself `k` times over.
#[verifier::opaque]
pub open spec fn times(p: CurvePoint, k: nat) -> CurvePoint
    decreases k,
{
    if k == 0 {
        CurvePoint::Infinity
    } else {
        point_sum(times(p, (k - 1) as nat), p)
    }
}

/// The generator of the group.
#[verifier::opaque]
pub open spec fn generator() -> CurvePoint {
    CurvePoint::Finite {
        x: 0x79BE_667E_F9DC_BBAC_55A0_6295_CE87_0B07_029B_FCDB_2DCE_28D9_59F2_815B_16F8_1798nat,
        y: 0x483A_DA77_26A3_C465_5DA4_FBFC_0E11_08A8_FD17_B448_A685_5419_9C47_D08F_FB10_D4B8nat,
    }
}

/// The multiples of a point add up, and run through exactly `curve_order()` points.
#[verifier::opaque]
pub open spec fn generates_group(g: CurvePoint) -> bool {
    &&& forall|i: nat, j: nat| #[trigger] point_sum(times(g, i), times(g, j)) == times(g, i + j)
    &&& forall|k: nat| (#[trigger] times(g, k)) is Infinity <==> k % curve_order() == 0
}

/// The right-hand side of the curve's equation.
pub open spec fn curve_rhs(x: nat) -> nat {
    (x * x * x + 7) % field_modulus()
}

/// A pair of reduced coordinates solves the curve's equation.
pub open spec fn on_curve(x: nat, y: nat) -> bool {
    x < field_modulus() && is_root(y, curve_rhs(x))
}

/// The multiples of `g`, but for the neutral element, are the points of the curve, and all of
/// them.
#[verifier::opaque]
pub open spec fn spans_curve(g: CurvePoint) -> bool {
    &&& forall|x: nat, y: nat| #[trigger]
        on_curve(x, y) ==> exists|t: nat| #[trigger] times(g, t) == (CurvePoint::Finite { x, y })
    &&& forall|t: nat| (#[trigger] times(g, t)) matches CurvePoint::Finite { x, y } ==> on_curve(x, y)
}

/// The `k`-fold of the generator.
pub open spec fn multiple(k: nat) -> CurvePoint {
    times(generator(), k)
}

/// Multiples add up.
pub proof fn lemma_multiple_add(i: nat, j: nat)
    requires
        generates_group(generator()),
    ensures
        point_sum(multiple(i), multiple(j)) == multiple(i + j),
{
    reveal(generates_group);
}

/// A multiple is neutral exactly if the order divides its factor.
pub proof fn lemma_multiple_infinite(k: nat)
    requires
        generates_group(generator()),
    ensures
        multiple(k) is Infinity <==> k % curve_order() == 0,
{
    reveal(generates_group);
}

/// The zero-fold of the generator is neutral, the one-fold is the generator.
pub proof fn lemma_multiple_small()
    ensures
        multiple(0) == CurvePoint::Infinity,
        multiple(1) == generator(),
{
    reveal_with_fuel(times, 2);
}

/// A multiple depends only on the remainder of the factor modulo the order.
pub proof fn lemma_multiple_mod(k: nat)
    requires
        generates_group(generator()),
    ensures
        multiple(k) == multiple(k % curve_order()),
{
    let n = curve_order();
    lemma_curve_order();
    let whole = (n * (k / n)) as nat;
    vstd::arithmetic::div_mod::lemma_fundamental_div_mod(k as int, n as int);
    vstd::arithmetic::div_mod::lemma_mod_multiples_basic((k / n) as int, n as int);
    assert(n * (k / n) == (k / n) * n) by (nonlinear_arith);
    lemma_multiple_infinite(whole);
    lemma_multiple_add(k % n, whole);
}

/// Equal multiples have factors with equal remainders modulo the order.
pub proof fn lemma_multiple_injective(i: nat, j: nat)
    requires
        generates_group(generator()),
        multiple(i) == multiple(j),
    ensures
        i % curve_order() == j % curve_order(),
{
    let n = curve_order() as int;
    lemma_curve_order();
    let ir = i as int % n;
    let jr = j as int % n;
    let back = (n - ir) as nat;
    lemma_multiple_add(i, back);
    lemma_multiple_add(j, back);
    lemma_multiple_infinite(i + back);
    lemma_multiple_infinite(j + back);
    lemma_mod_add(i as int, back as int, n);
    lemma_mod_add(j as int, back as int, n);
    vstd::arithmetic::div_mod::lemma_mod_self_0(n);
    let d = jr + n - ir;
    assert(d % n == 0);
    vstd::arithmetic::div_mod::lemma_fundamental_div_mod(d, n);
    let q = d / n;
    assert(q == 1) by (nonlinear_arith)
        requires
            d == n * q,
            0 < d < 2 * n,
    ;
}

/// The factor, below the order, by which a point of the curve is a multiple of the generator.
pub proof fn lemma_factor_of(x: nat, y: nat) -> (t: nat)
    requires
        generates_group(generator()),
        spans_curve(generator()),
        on_curve(x, y),
    ensures
        t < curve_order(),
        multiple(t) == (CurvePoint::Finite { x, y }),
{
    reveal(spans_curve);
    let t = choose|t: nat| #[trigger] times(generator(), t) == (CurvePoint::Finite { x, y });
    lemma_curve_order();
    lemma_multiple_mod(t);
    t % curve_order()
}

/// A multiple of the generator lies on the curve.
pub proof fn lemma_multiple_on_curve(t: nat)
    requires
        spans_curve(generator()),
    ensures
        multiple(t) matches CurvePoint::Finite { x, y } ==> on_curve(x, y),
{
    reveal(spans_curve);
}

/// No point of the curve has a zero for its ordinate: the group would hold a point of order two.
pub proof fn lemma_ordinate_not_zero(x: nat, y: nat)
    requires
        generates_group(generator()),
        spans_curve(generator()),
        on_curve(x, y),
    ensures
        y != 0,
{
    if y == 0 {
        let n = curve_order();
        let t = lemma_factor_of(x, y);
        lemma_multiple_add(t, t);
        lemma_multiple_infinite(t);
        lemma_multiple_infinite(t + t);
        assert(n % 2 == 1) by {
            reveal(curve_order);
        }
        vstd::arithmetic::div_mod::lemma_small_mod(t, n);
        if 2 * t < n {
            vstd::arithmetic::div_mod::lemma_small_mod(2 * t, n);
        } else {
            vstd::arithmetic::div_mod::lemma_mod_add_multiples_vanish(2 * t - n, n as int);
            vstd::arithmetic::div_mod::lemma_small_mod((2 * t - n) as nat, n);
        }
    }
}

/// Three points of the curve with one abscissa are not all different.
pub proof fn lemma_two_ordinates(x: nat, y1: nat, y2: nat, y3: nat)
    requires
        generates_group(generator()),
        spans_curve(generator()),
        on_curve(x, y1),
        on_curve(x, y2),
        on_curve(x, y3),
        y1 != y2,
        y1 != y3,
    ensures
        y2 == y3,
{
    let t1 = lemma_factor_of(x, y1);
    let t2 = lemma_factor_of(x, y2);
    let t3 = lemma_factor_of(x, y3);
    lemma_multiple_add(t1, t2);
    lemma_multiple_add(t1, t3);
    lemma_multiple_add(t2, t1 + t3);
    lemma_multiple_add(t3, t1 + t2);
    assert(t2 + (t1 + t3) == t3 + (t1 + t2));
}

/// A point in affine coordinates.
#[derive(Clone, Copy, Debug)]
pub struct Affine {
    pub x: Fq,
    pub y: Fq,
    pub infinity: bool,
}

impl View for Affine {
    type V = CurvePoint;

    open spec fn view(&self) -> CurvePoint {
        if self.infinity {
            CurvePoint::Infinity
        } else {
            CurvePoint::Finite { x: self.x@, y: self.y@ }
        }
    }
}

impl Affine {
    /// The coordinates are reduced, and zero at infinity.
    pub open spec fn wf(&self) -> bool {
        &&& self.x.wf()
        &&& self.y.wf()
        &&& self.infinity ==> self.x@ == 0 && self.y@ == 0
    }

    /// The neutral element.
    pub fn identity() -> (r: Affine)
        ensures
            r.wf(),
            r@ == CurvePoint::Infinity,
    {
        Affine { x: Fq::from_u64(0), y: Fq::from_u64(0), infinity: true }
    }
}

/// `ark_ec::AffineRepr::generator` for `ark_secp256k1::Affine`: the standard generator of
/// secp256k1. As `ark_ec::Group` has it, the points are a group of prime order, that of the scalar
/// field: the generator's multiples add up, and a multiple is neutral exactly if its factor is a
/// multiple of the order. As `ark_secp256k1` has it, the cofactor is one: the generator's
/// multiples are the points of the curve, and all of them.
#[verifier::external_body]
pub(crate) fn curve_generator() -> (r: Affine)
    ensures
        r.wf(),
        r@ == generator(),
        generates_group(r@),
        spans_curve(r@),
{
    let g = ark_secp256k1::Affine::generator();
    Affine {
        x: Fq { limbs: g.x.into_bigint().0 },
        y: Fq { limbs: g.y.into_bigint().0 },
        infinity: g.infinity,
    }
}

/// `ark_secp256k1::Projective` addition, brought back to affine coordinates: the sum by chord and
/// tangent.
#[verifier::external_body]
pub(crate) fn point_add(a: &Affine, b: &Affine) -> (r: Affine)
    requires
        a.wf(),
        b.wf(),
    ensures
        r.wf(),
        r@ == point_sum(a@, b@),
{
    let ax = ark_secp256k1::Fq::from_bigint(BigInt(a.x.limbs)).unwrap();
    let ay = ark_secp256k1::Fq::from_bigint(BigInt(a.y.limbs)).unwrap();
    let bx = ark_secp256k1::Fq::from_bigint(BigInt(b.x.limbs)).unwrap();
    let by = ark_secp256k1::Fq::from_bigint(BigInt(b.y.limbs)).unwrap();
    let left = ark_secp256k1::Affine { x: ax, y: ay, infinity: a.infinity };
    let right = ark_secp256k1::Affine { x: bx, y: by, infinity: b.infinity };
    let sum = (left.into_group() + right).into_affine();
    Affine {
        x: Fq { limbs: sum.x.into_bigint().0 },
        y: Fq { limbs: sum.y.into_bigint().0 },
        infinity: sum.infinity,
    }
}

/// `ark_ec::Group::double_in_place` on `ark_secp256k1::Projective`, brought back to affine
/// coordinates: the sum of a point with itself.
#[verifier::external_body]
pub(crate) fn point_double(a: &Affine) -> (r: Affine)
    requires
        a.wf(),
    ensures
        r.wf(),
        r@ == point_sum(a@, a@),
{
    let ax = ark_secp256k1::Fq::from_bigint(BigInt(a.x.limbs)).unwrap();
    let ay = ark_secp256k1::Fq::from_bigint(BigInt(a.y.limbs)).unwrap();
    let point = ark_secp256k1::Affine { x: ax, y: ay, infinity: a.infinity };
    let mut twice = point.into_group();
    twice.double_in_place();
    let sum = twice.into_affine();
    Affine {
        x: Fq { limbs: sum.x.into_bigint().0 },
        y: Fq { limbs: sum.y.into_bigint().0 },
        infinity: sum.infinity,
    }
}

/// A divisor with an inverse leaves only one quotient.
proof fn lemma_quotient(a: int, b: int, inv: int, q: nat)
    requires
        (inv * b) % field_modulus() as int == 1,
        is_quotient(q, a, b),
    ensures
        quotient(a, b) == q,
{
    let p = field_modulus() as int;
    lemma_field_modulus();
    let r = quotient(a, b);
    assert(is_quotient(r, a, b));
    assert(b * inv == inv * b) by (nonlinear_arith);
    lemma_mod_cancel(r as int, q as int, b, inv, p);
    vstd::arithmetic::div_mod::lemma_small_mod(r, field_modulus());
    vstd::arithmetic::div_mod::lemma_small_mod(q, field_modulus());
}

/// Adds two points with different abscissas, given the inverse of the difference of these.
pub fn point_update(px: &Fq, py: &Fq, qx: &Fq, qy: &Fq, inv: &Fq) -> (r: (Fq, Fq))
    requires
        px.wf(),
        py.wf(),
        qx.wf(),
        qy.wf(),
        inv.wf(),
        (inv@ * (qx@ - px@)) % field_modulus() as int == 1,
    ensures
        r.0.wf(),
        r.1.wf(),
        (CurvePoint::Finite { x: r.0@, y: r.1@ }) == point_sum(
            CurvePoint::Finite { x: px@, y: py@ },
            CurvePoint::Finite { x: qx@, y: qy@ },
        ),
{
    let dy = fq_sub(qy, py);
    let slope = fq_mul(&dy, inv);
    let square = fq_mul(&slope, &slope);
    let less_p = fq_sub(&square, px);
    let rx = fq_sub(&less_p, qx);
    let dx = fq_sub(px, &rx);
    let rise = fq_mul(&slope, &dx);
    let ry = fq_sub(&rise, py);
    proof {
        lemma_field_modulus();
        let p = field_modulus() as int;
        lemma_slope(qy@ - py@, qx@ - px@, inv@ as int, slope@);
        if px@ == qx@ {
            assert(inv@ * (qx@ - px@) == 0) by (nonlinear_arith)
                requires
                    px@ == qx@,
            ;
            vstd::arithmetic::div_mod::lemma_small_mod(0, field_modulus());
        }
        lemma_line(slope@ as int, px@ as int, py@ as int, qx@ as int, rx@ as int, p);
        assert(point_sum(
            CurvePoint::Finite { x: px@, y: py@ },
            CurvePoint::Finite { x: qx@, y: qy@ },
        ) == line_sum(slope@, px@, py@, qx@));
        assert(rx@ as int == (slope@ * slope@ - px@ - qx@) % p);
        assert(ry@ as int == (slope@ * (px@ - rx@) - py@) % p);
    }
    (rx, ry)
}

/// The slope computed with an inverse is the quotient.
proof fn lemma_slope(dy: int, dx: int, inv: int, slope: nat)
    requires
        slope < field_modulus(),
        slope == ((dy % field_modulus() as int) * inv) % field_modulus() as int,
        (inv * dx) % field_modulus() as int == 1,
    ensures
        slope == quotient(dy, dx),
{
    let p = field_modulus() as int;
    lemma_field_modulus();
    vstd::arithmetic::div_mod::lemma_mul_mod_noop_left(dy, inv, p);
    vstd::arithmetic::div_mod::lemma_mul_mod_noop_left(dy * inv, dx, p);
    assert(dy * inv * dx == dy * (inv * dx)) by (nonlinear_arith);
    vstd::arithmetic::div_mod::lemma_mul_mod_noop_right(dy, inv * dx, p);
    assert(dy * 1 == dy);
    assert(is_quotient(slope, dy, dx));
    lemma_quotient(dy, dx, inv, slope);
}

/// The coordinates of the third point, with the inner reductions left out.
proof fn lemma_line(s: int, px: int, py: int, qx: int, x3: int, p: int)
    requires
        0 < p,
        x3 == ((((s * s) % p - px) % p) - qx) % p,
    ensures
        x3 == (s * s - px - qx) % p,
        ((s * ((px - x3) % p)) % p - py) % p == (s * (px - x3) - py) % p,
{
    lemma_mod_sub(s * s, px, p);
    lemma_mod_sub(s * s - px, qx, p);
    vstd::arithmetic::div_mod::lemma_mul_mod_noop_right(s, px - x3, p);
    lemma_mod_sub(s * (px - x3), py, p);
}

/// Precomputed multiples of the generator: in row `i` the multiples by `0, 1, 2, ...` of
/// `2^(window_size * i)`.
pub struct FixedBase {
    pub window_size: usize,
    pub num_windows: usize,
    pub table: Vec<Vec<Affine>>,
}

/// A row of the table, for windows of `w` bits from bit `w * i` on.
pub open spec fn row_ok(row: Seq<Affine>, w: nat, i: nat) -> bool {
    &&& row.len() == pow2(w)
    &&& forall|k: int|
        0 <= k < row.len() ==> (#[trigger] row[k]).wf() && row[k]@ == multiple(
            (k as nat) * pow2(w * i),
        )
}

impl FixedBase {
    /// The table is complete, and the generator generates the group of all points of the curve.
    pub open spec fn wf(&self) -> bool {
        &&& 1 <= self.window_size < 32
        &&& self.num_windows == (256 + self.window_size - 1) / self.window_size as int
        &&& self.table@.len() == self.num_windows
        &&& forall|i: int|
            0 <= i < self.table@.len() ==> row_ok(
                (#[trigger] self.table@[i])@,
                self.window_size as nat,
                i as nat,
            )
        &&& generates_group(generator())
        &&& spans_curve(generator())
    }

    /// Fills the table for windows of `window_size` bits. (A row has two to that power of points,
    /// a number that fits in a machine word of any size.)
    pub fn new(window_size: usize) -> (r: FixedBase)
        requires
            1 <= window_size < 32,
        ensures
            r.wf(),
            r.window_size == window_size,
    {
        let num_windows: usize = (256 + window_size - 1) / window_size;
        let ghost w = window_size as nat;
        proof {
            vstd::arithmetic::power2::lemma2_to64();
            vstd::arithmetic::power2::lemma_pow2_strictly_increases(w, 32);
            vstd::bits::lemma_u64_shl_is_mul(1, window_size as u64);
        }
        let table_size: usize = (1u64 << window_size) as usize;
        let mut table: Vec<Vec<Affine>> = Vec::with_capacity(num_windows);
        let mut base = curve_generator();
        let mut win: usize = 0;
        proof {
            assert(w * 0 == 0) by (nonlinear_arith);
            vstd::arithmetic::power2::lemma2_to64();
            lemma_multiple_small();
        }
        while win < num_windows
            invariant
                win <= num_windows,
                w == window_size,
                1 <= w < 32,
                table_size == pow2(w),
                table@.len() == win,
                base.wf(),
                base@ == multiple(pow2(w * win as nat)),
                generates_group(generator()),
                spans_curve(generator()),
                forall|i: int| 0 <= i < win ==> row_ok((#[trigger] table@[i])@, w, i as nat),
            decreases num_windows - win,
        {
            let ghost unit = pow2(w * win as nat);
            let mut win_table: Vec<Affine> = Vec::with_capacity(table_size);
            let mut current = Affine::identity();
            let mut k: usize = 0;
            proof {
                assert(0 * unit == 0) by (nonlinear_arith);
                lemma_multiple_small();
            }
            while k < table_size
                invariant
                    k <= table_size,
                    win_table@.len() == k,
                    base.wf(),
                    base@ == multiple(unit),
                    unit == pow2(w * win as nat),
                    current.wf(),
                    current@ == multiple(k as nat * unit),
                    generates_group(generator()),
                    forall|j: int|
                        0 <= j < k ==> (#[trigger] win_table@[j]).wf() && win_table@[j]@
                            == multiple((j as nat) * unit),
                decreases table_size - k,
            {
                win_table.push(current);
                proof {
                    lemma_multiple_add(k as nat * unit, unit);
                    assert(k as nat * unit + unit == (k + 1) as nat * unit) by (nonlinear_arith);
                }
                current = point_add(&current, &base);
                k = k + 1;
            }
            assert(row_ok(win_table@, w, win as nat));
            table.push(win_table);
            let mut d: usize = 0;
            assert(pow2(0) == 1) by {
                vstd::arithmetic::power2::lemma2_to64();
            }
            assert(unit * 1 == unit);
            while d < window_size
                invariant
                    d <= window_size,
                    base.wf(),
                    base@ == multiple(unit * pow2(d as nat)),
                    generates_group(generator()),
                decreases window_size - d,
            {
                proof {
                    let m = unit * pow2(d as nat);
                    lemma_multiple_add(m, m);
                    vstd::arithmetic::power2::lemma_pow2_unfold((d + 1) as nat);
                    assert(m + m == unit * pow2((d + 1) as nat)) by (nonlinear_arith)
                        requires
                            m == unit * pow2(d as nat),
                            pow2((d + 1) as nat) == 2 * pow2(d as nat),
                    ;
                }
                base = point_double(&base);
                d = d + 1;
            }
            proof {
                lemma_pow2_adds(w * win as nat, w);
                assert(w * win as nat + w == w * (win + 1) as nat) by (nonlinear_arith);
            }
            win = win + 1;
        }
        FixedBase { window_size, num_windows, table }
    }

    /// The multiple of the generator by a scalar.
    pub fn mul(&self, scalar: &Fr) -> (r: Affine)
        requires
            self.wf(),
        ensures
            r.wf(),
            r@ == multiple(scalar@),
    {
        let ghost w = self.window_size as nat;
        let ghost v = scalar@;
        let mut res = Affine::identity();
        let mut win: usize = 0;
        proof {
            assert(w * 0 == 0) by (nonlinear_arith);
            assert(pow2(0) == 1) by {
                vstd::arithmetic::power2::lemma2_to64();
            }
            assert(v % 1 == 0);
            lemma_multiple_small();
        }
        while win < self.num_windows
            invariant
                self.wf(),
                win <= self.num_windows,
                w == self.window_size,
                v == scalar@,
                res.wf(),
                res@ == multiple(v % pow2(w * win as nat)),
            decreases self.num_windows - win,
        {
            proof {
                lemma_windows(self.window_size as int, self.num_windows as int, win as int);
            }
            let bit_offset: usize = win * self.window_size;
            let val: usize = limbs_window(&scalar.limbs, bit_offset, self.window_size);
            proof {
                lemma_window_step(v, w, win as nat, bit_offset as nat, val as nat);
                assert(row_ok(self.table@[win as int]@, w, win as nat));
                assert(self.table@[win as int]@[val as int].wf());
                lemma_multiple_add(v % pow2(bit_offset as nat), val as nat * pow2(bit_offset as nat));
                assert(self.table@[win as int]@[val as int]@ == multiple(
                    val as nat * pow2(w * win as nat),
                ));
            }
            if val > 0 {
                res = point_add(&res, &self.table[win][val]);
            }
            win = win + 1;
        }
        proof {
            let top = w * self.num_windows as nat;
            lemma_windows(self.window_size as int, self.num_windows as int, 0);
            lemma_limbs_value_bound(scalar.limbs@);
            if 256 < top {
                vstd::arithmetic::power2::lemma_pow2_strictly_increases(256, top);
            }
            vstd::arithmetic::div_mod::lemma_small_mod(v, pow2(top));
        }
        res
    }
}

/// The windows cover all 256 bits, and start within them.
proof fn lemma_windows(w: int, count: int, win: int)
    requires
        1 <= w < 32,
        count == (256 + w - 1) / w,
    ensures
        256 <= w * count,
        0 <= win < count ==> 0 <= win * w < 256,
{
    vstd::arithmetic::div_mod::lemma_fundamental_div_mod(256 + w - 1, w);
    let r = (256 + w - 1) % w;
    assert(w * count == 256 + w - 1 - r);
    if 0 <= win < count {
        assert(win * w <= w * count - w) by (nonlinear_arith)
            requires
                win <= count - 1,
                w > 0,
        ;
        assert(0 <= win * w) by (nonlinear_arith)
            requires
                0 <= win,
                0 <= w,
        ;
    }
}

/// The low windows of a number, one window more.
proof fn lemma_window_step(v: nat, w: nat, win: nat, offset: nat, val: nat)
    requires
        offset == win * w,
        val == (v / pow2(offset)) % pow2(w),
    ensures
        offset == w * win,
        v % pow2(w * (win + 1)) == v % pow2(offset) + val * pow2(offset),
        val == 0 ==> v % pow2(w * (win + 1)) == v % pow2(offset),
{
    lemma_pow2_pos(offset);
    lemma_pow2_pos(w);
    lemma_pow2_adds(offset, w);
    vstd::arithmetic::div_mod::lemma_mod_breakdown(v as int, pow2(offset) as int, pow2(w) as int);
    assert(w * win == win * w) by (nonlinear_arith);
    assert(w * (win + 1) == w * win + w) by (nonlinear_arith);
    let unit = pow2(offset);
    assert(unit * val == val * unit) by (nonlinear_arith);
    assert(val == 0 ==> val * unit == 0) by (nonlinear_arith);
}

/// The generator is a point of the curve.
pub proof fn law_generator_on_curve()
    ensures
        generator() matches CurvePoint::Finite { x, y } && x < field_modulus() && y
            < field_modulus() && (y * y) % field_modulus() == (x * x * x + 7) % field_modulus(),
{
    reveal(generator);
    reveal(field_modulus);
}

/// The sum of two points with different abscissas by the chord: with the slope of the line through
/// both, the three abscissas add up to its square, and the mirrored sum is on the line.
pub proof fn law_chord(x1: nat, y1: nat, x2: nat, y2: nat, slope: nat, inv: int)
    requires
        x1 != x2,
        (inv * (x2 - x1)) % field_modulus() as int == 1,
        slope < field_modulus(),
        (slope * (x2 - x1)) % field_modulus() as int == (y2 - y1) % field_modulus() as int,
    ensures
        point_sum(CurvePoint::Finite { x: x1, y: y1 }, CurvePoint::Finite { x: x2, y: y2 }) matches
            CurvePoint::Finite { x, y } && x < field_modulus() && y < field_modulus() && (x + x1
            + x2) % field_modulus() == (slope * slope) % field_modulus() && (y + y1)
            % field_modulus() == (slope * (x1 - x)) % field_modulus() as int,
{
    lemma_quotient(y2 - y1, x2 - x1, inv, slope);
    lemma_third_point(slope, x1, y1, x2);
}

/// The sum of a point with itself by the tangent, whose slope is `3 x^2` over `2 y`.
pub proof fn law_tangent(x1: nat, y1: nat, slope: nat, inv: int)
    requires
        y1 != 0,
        (inv * (2 * y1)) % field_modulus() as int == 1,
        slope < field_modulus(),
        (slope * (2 * y1)) % field_modulus() == (3 * x1 * x1) % field_modulus(),
    ensures
        point_sum(CurvePoint::Finite { x: x1, y: y1 }, CurvePoint::Finite { x: x1, y: y1 }) matches
            CurvePoint::Finite { x, y } && x < field_modulus() && y < field_modulus() && (x + x1
            + x1) % field_modulus() == (slope * slope) % field_modulus() && (y + y1)
            % field_modulus() == (slope * (x1 - x)) % field_modulus() as int,
{
    lemma_quotient((3 * x1 * x1) as int, (2 * y1) as int, inv, slope);
    lemma_third_point(slope, x1, y1, x1);
}

proof fn lemma_third_point(slope: nat, x1: nat, y1: nat, x2: nat)
    ensures
        line_sum(slope, x1, y1, x2) matches CurvePoint::Finite { x, y } && x < field_modulus() && y
            < field_modulus() && (x + x1 + x2) % field_modulus() == (slope * slope)
            % field_modulus() && (y + y1) % field_modulus() == (slope * (x1 - x))
            % field_modulus() as int,
{
    let p = field_modulus() as int;
    lemma_field_modulus();
    let square = (slope * slope) as int;
    let x = (square - x1 - x2) % p;
    lemma_mod_add(square - x1 - x2, (x1 + x2) as int, p);
    let rise = slope * (x1 - x);
    lemma_mod_add(rise - y1, y1 as int, p);
    assert(line_sum(slope, x1, y1, x2) == (CurvePoint::Finite {
        x: x as nat,
        y: ((rise - y1) % p) as nat,
    }));
}

/// The neutral element changes nothing, a point and its mirror image cancel, and multiples are
/// counted up one by one.
pub proof fn law_sums_with_the_neutral(a: CurvePoint, x: nat, y1: nat, y2: nat, k: nat)
    ensures
        point_sum(CurvePoint::Infinity, a) == a,
        point_sum(a, CurvePoint::Infinity) == a,
        y1 != y2 || y1 == 0 ==> point_sum(
            CurvePoint::Finite { x, y: y1 },
            CurvePoint::Finite { x, y: y2 },
        ) == CurvePoint::Infinity,
        times(a, 0) == CurvePoint::Infinity,
        times(a, k + 1) == point_sum(times(a, k), a),
        multiple(k) == times(generator(), k),
{
    reveal(times);
    reveal_with_fuel(times, 2);
}

/// A pair is on the curve if it is reduced and solves `y^2 = x^3 + 7`.
pub proof fn law_curve_equation(x: nat, y: nat)
    ensures
        on_curve(x, y) <==> x < field_modulus() && y < field_modulus() && (y * y)
            % field_modulus() == (x * x * x + 7) % field_modulus(),
{
}

} // verus!
