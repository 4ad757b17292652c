//! What is searched for: the target in its compressed form, and the span of scalars it may be
//! found in.

use vstd::arithmetic::div_mod::lemma_small_mod;
use vstd::arithmetic::power2::{lemma_pow2_pos, pow2};
use vstd::prelude::*;

use crate::bytes::{
    be_bytes, be_value, lemma_be_roundtrip, lemma_be_roundtrip_bytes, pow256,
};
use crate::curve::{
    curve_rhs, generates_group, generator, lemma_factor_of, lemma_ordinate_not_zero,
    lemma_two_ordinates, multiple, on_curve, spans_curve, Affine, CurvePoint,
};
use crate::encoding::{all_hex, hex_bytes, hex_decode};
use crate::field::{
    field_modulus, fq_add, fq_mul, fq_sqrt, fq_sub, is_root, lemma_field_modulus, Fq,
};
use crate::limbs::{be_to_limbs, limbs_to_be};
use crate::modular::{lemma_mod_add, lemma_mod_mul3};
use crate::scalar::{
    curve_order, fr_add, fr_sub, lemma_curve_order, strip_hex_marks, strip_hex_prefix, Fr,
};
use crate::walk::{max_distance, max_distance_of};

verus! {

/// The 33 bytes that a text stands for: hexadecimal digits, after `0x` or `0X` marks that are
/// ignored. There are none if the text has another number of digits or other characters.
pub fn decode_target(text: &str) -> (r: Option<[u8; 33]>)
    ensures
        r is Some <==> all_hex(strip_hex_marks(text@)) && strip_hex_marks(text@).len() == 66,
        r matches Some(b) ==> b@ == hex_bytes(strip_hex_marks(text@)),
{
    let clean = strip_hex_prefix(text);
    match hex_decode(clean) {
        Some(decoded) => {
            if decoded.len() != 33 {
                return None;
            }
            let mut out: [u8; 33] = [0u8; 33];
            let mut i: usize = 0;
            while i < 33
                invariant
                    i <= 33,
                    decoded@.len() == 33,
                    forall|k: int| 0 <= k < i ==> out@[k] == decoded@[k],
                decreases 33 - i,
            {
                out[i] = decoded[i];
                i = i + 1;
            }
            assert(out@ =~= decoded@);
            Some(out)
        },
        None => None,
    }
}

/// The abscissa in a compressed point.
pub open spec fn compressed_x(bytes: Seq<u8>) -> nat {
    be_value(bytes.subrange(1, 33))
}

/// A point is the one that compressed bytes stand for: it has their abscissa, lies on the curve,
/// and its ordinate is odd exactly if the first byte says so.
pub open spec fn decompresses(bytes: Seq<u8>, x: nat, y: nat) -> bool {
    &&& x == compressed_x(bytes)
    &&& is_root(y, curve_rhs(x))
    &&& y != 0 ==> (y % 2 == 1 <==> bytes[0] == 3)
}

/// The point that 33 bytes stand for. There is none if the abscissa is not reduced, or if no
/// point of the curve has it.
pub fn target_point(bytes: &[u8; 33]) -> (r: Option<Affine>)
    ensures
        r is Some <==> compressed_x(bytes@) < field_modulus() && exists|y: nat|
            is_root(y, curve_rhs(compressed_x(bytes@))),
        r matches Some(a) ==> a.wf() && !a.infinity && decompresses(bytes@, a.x@, a.y@)
            && on_curve(a.x@, a.y@),
{
    let ghost p = field_modulus() as int;
    let x = match Fq::from_limbs(be_to_limbs(bytes, 1)) {
        Some(x) => x,
        None => {
            return None;
        },
    };
    let y_sq = fq_add(&fq_mul(&fq_mul(&x, &x), &x), &Fq::from_u64(7));
    proof {
        lemma_field_modulus();
        lemma_mod_mul3(x@ as int, x@ as int, x@ as int, p);
        lemma_mod_add((x@ * x@ * x@) as int, 7, p);
        assert(x@ == compressed_x(bytes@));
        assert(y_sq@ == curve_rhs(x@));
    }
    let root = match fq_sqrt(&y_sq) {
        Some(root) => root,
        None => {
            return None;
        },
    };
    let y = if root.is_odd() == (bytes[0] == 3) {
        root
    } else {
        fq_sub(&Fq::from_u64(0), &root)
    };
    proof {
        lemma_negated_root(root@, y_sq@);
        assert(is_root(y@, y_sq@));
        assert(y@ != 0 ==> (y@ % 2 == 1 <==> bytes@[0] == 3));
    }
    Some(Affine { x, y, infinity: false })
}

/// The negative of a root is a root, and of the other parity unless it is zero.
proof fn lemma_negated_root(y: nat, a: nat)
    requires
        is_root(y, a),
    ensures
        ({
            let n = ((0 - y) % field_modulus() as int) as nat;
            &&& is_root(n, a)
            &&& y == 0 ==> n == 0
            &&& y != 0 ==> n != 0 && n % 2 != y % 2
        }),
{
    let p = field_modulus() as int;
    lemma_field_modulus();
    if y == 0 {
        lemma_small_mod(0, p as nat);
    } else {
        let n = (p - y) as nat;
        vstd::arithmetic::div_mod::lemma_mod_add_multiples_vanish(-y, p);
        lemma_small_mod(n, p as nat);
        assert(n * n == p * (p - 2 * y) + y * y) by (nonlinear_arith)
            requires
                n == p - y,
        ;
        vstd::arithmetic::div_mod::lemma_mod_multiples_vanish(p - 2 * y, (y * y) as int, p);
    }
}

/// The compressed form of a pair of coordinates: a byte for the parity of the ordinate, then the
/// abscissa.
pub open spec fn compressed_bytes(x: nat, y: nat) -> Seq<u8> {
    seq![if y % 2 == 1 { 3u8 } else { 2u8 }] + be_bytes(x, 32)
}

/// The compressed form of a point; for the neutral element, that of a pair of zeros.
pub open spec fn compressed_point(p: CurvePoint) -> Seq<u8> {
    match p {
        CurvePoint::Infinity => compressed_bytes(0, 0),
        CurvePoint::Finite { x, y } => compressed_bytes(x, y),
    }
}

/// The compressed form of a point.
pub fn compress(point: &Affine) -> (r: [u8; 33])
    requires
        point.wf(),
    ensures
        r@ == compressed_point(point@),
{
    let x = limbs_to_be(&point.x.limbs);
    let mut out: [u8; 33] = [0u8; 33];
    if point.y.is_odd() {
        out[0] = 3;
    } else {
        out[0] = 2;
    }
    let mut i: usize = 0;
    while i < 32
        invariant
            i <= 32,
            out@[0] == if point.y@ % 2 == 1 {
                3u8
            } else {
                2u8
            },
            forall|k: int| 1 <= k < i + 1 ==> out@[k] == #[trigger] x@[k - 1],
        decreases 32 - i,
    {
        out[i + 1] = x[i];
        i = i + 1;
    }
    proof {
        assert(out@.len() == 33);
        assert forall|k: int| 0 <= k < 33 implies #[trigger] out@[k] == compressed_point(
            point@,
        )[k] by {
            if k > 0 {
                assert(out@[k] == x@[k - 1]);
            }
        }
        assert(out@ =~= compressed_point(point@));
    }
    out
}

/// Compressing the point that compressed bytes stand for gives the bytes back.
pub proof fn law_compress_undoes(bytes: Seq<u8>, x: nat, y: nat)
    requires
        generates_group(generator()),
        spans_curve(generator()),
        bytes.len() == 33,
        bytes[0] == 2 || bytes[0] == 3,
        x < field_modulus(),
        decompresses(bytes, x, y),
    ensures
        compressed_bytes(x, y) == bytes,
{
    lemma_ordinate_not_zero(x, y);
    let tail = bytes.subrange(1, 33);
    lemma_be_roundtrip_bytes(tail);
    assert(compressed_bytes(x, y) =~= bytes) by {
        assert(bytes =~= seq![bytes[0]] + tail);
    }
}

/// Compressed bytes stand for one point only.
pub proof fn law_target_is_unique(bytes: Seq<u8>, x: nat, y1: nat, y2: nat)
    requires
        generates_group(generator()),
        spans_curve(generator()),
        x < field_modulus(),
        decompresses(bytes, x, y1),
        decompresses(bytes, x, y2),
    ensures
        y1 == y2,
{
    lemma_ordinate_not_zero(x, y1);
    lemma_ordinate_not_zero(x, y2);
    if y1 != y2 {
        let opposite = ((0 - y1) % field_modulus() as int) as nat;
        lemma_negated_root(y1, curve_rhs(x));
        lemma_two_ordinates(x, y1, y2, opposite);
    }
}

/// The target has a scalar: the point that compressed bytes stand for is a multiple of the
/// generator, by a factor below the order.
pub proof fn law_target_has_a_scalar(bytes: Seq<u8>, x: nat, y: nat)
    requires
        generates_group(generator()),
        spans_curve(generator()),
        x < field_modulus(),
        decompresses(bytes, x, y),
    ensures
        exists|t: nat|
            t < curve_order() && #[trigger] multiple(t) == (CurvePoint::Finite { x, y }),
{
    let t = lemma_factor_of(x, y);
    assert(multiple(t) == (CurvePoint::Finite { x, y }));
}

/// How wide the span is that walks start in: from `start` up to `end`, less the farthest that a
/// walk goes.
pub open spec fn span_of(start: nat, end: nat, delta: nat) -> nat {
    let safe_end = if end > delta {
        ((end - delta + 1) % curve_order() as int) as nat
    } else {
        end
    };
    if safe_end <= start {
        0
    } else {
        (safe_end - start) as nat
    }
}

/// How wide the span is that walks start in.
pub fn search_span(start: &Fr, end: &Fr, sub_bits: u32) -> (r: Fr)
    requires
        start.wf(),
        end.wf(),
    ensures
        r.wf(),
        r@ == span_of(start@, end@, max_distance_of(sub_bits)),
{
    let epoch_delta = max_distance(sub_bits);
    proof {
        lemma_curve_order();
        let n = curve_order() as int;
        lemma_mod_add(end@ - epoch_delta@, 1, n);
    }
    let safe_end = if epoch_delta.less(end) {
        fr_add(&fr_sub(end, &epoch_delta), &Fr::from_u64(1))
    } else {
        *end
    };
    if start.less(&safe_end) {
        proof {
            lemma_small_mod((safe_end@ - start@) as nat, curve_order());
        }
        fr_sub(&safe_end, start)
    } else {
        Fr::from_u64(0)
    }
}

/// The span ends where it should: a walk that starts anywhere in it, and goes as far as walks go,
/// does not pass the end of the search by more than a step; and every start up to there is in it.
/// Only where the end is not beyond that distance does the span reach up to the end itself.
pub proof fn law_span_reaches_its_end(start: nat, end: nat, sub_bits: u32)
    requires
        start < curve_order(),
        end < curve_order(),
    ensures
        ({
            let delta = if sub_bits < 255 {
                pow2(sub_bits as nat) as int
            } else {
                curve_order() - 1
            };
            let span = span_of(start, end, max_distance_of(sub_bits));
            &&& delta < end && start < end - delta + 1 ==> start + span == end - delta + 1
            &&& delta < end && start >= end - delta + 1 ==> span == 0
            &&& end <= delta && start < end ==> start + span == end
            &&& end <= delta && start >= end ==> span == 0
        }),
{
    crate::walk::law_farthest(sub_bits);
    lemma_curve_order();
    let delta = max_distance_of(sub_bits);
    assert(delta > 0) by {
        lemma_pow2_pos(sub_bits as nat);
    }
    if end > delta {
        lemma_small_mod((end - delta + 1) as nat, curve_order());
    }
}

/// A point of the curve is the one that its compressed form stands for.
pub proof fn law_decompress_undoes(x: nat, y: nat)
    requires
        on_curve(x, y),
    ensures
        compressed_bytes(x, y).len() == 33,
        decompresses(compressed_bytes(x, y), x, y),
{
    law_compressed_layout(x, y);
}

/// The compressed form is a byte of two, or three for an odd ordinate, and the abscissa in 32
/// bytes, the most significant first.
pub proof fn law_compressed_layout(x: nat, y: nat)
    requires
        x < field_modulus(),
    ensures
        compressed_bytes(x, y).len() == 33,
        compressed_bytes(x, y)[0] == 2 + y % 2,
        be_value(compressed_bytes(x, y).subrange(1, 33)) == x,
        compressed_point(CurvePoint::Finite { x, y }) == compressed_bytes(x, y),
{
    lemma_field_modulus();
    assert(pow256(32)
        == 0x1_0000_0000_0000_0000_0000_0000_0000_0000_0000_0000_0000_0000_0000_0000_0000_0000nat)
        by {
        reveal_with_fuel(pow256, 33);
    }
    lemma_be_roundtrip(x, 32);
    assert(compressed_bytes(x, y).subrange(1, 33) =~= be_bytes(x, 32));
}

/// The neutral element is written as a two and zeros.
pub proof fn law_neutral_compressed()
    ensures
        compressed_point(CurvePoint::Infinity).len() == 33,
        compressed_point(CurvePoint::Infinity)[0] == 2,
        be_value(compressed_point(CurvePoint::Infinity).subrange(1, 33)) == 0,
{
    lemma_field_modulus();
    law_compressed_layout(0, 0);
}

/// What compressed bytes stand for: a point with the abscissa in the last 32 bytes that solves the
/// equation `y^2 = x^3 + 7`, and whose ordinate is odd exactly if the first byte is a three.
pub proof fn law_decompressed_point(bytes: Seq<u8>, x: nat, y: nat)
    requires
        decompresses(bytes, x, y),
    ensures
        x == be_value(bytes.subrange(1, 33)),
        y < field_modulus(),
        (y * y) % field_modulus() == (x * x * x + 7) % field_modulus(),
        y != 0 ==> y % 2 == if bytes[0] == 3 {
            1nat
        } else {
            0nat
        },
{
}

} // verus!
