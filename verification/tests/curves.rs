use kangputus::curve::{point_update, Affine, FixedBase};
use kangputus::draw::{
    draw_below, fast_rng_material, fast_rng_seed, keep_low_bits, make_fast_rng, random_fr_below,
};
use kangputus::field::Fq;
use kangputus::jumps::{jump_bits, JumpTable, NUM_JUMPS};
use kangputus::report::verify_candidate;
use kangputus::scalar::{limbs_to_fr, parse_hex_to_fr, pow2_scalar, Fr};
use kangputus::target::{compress, decode_target, search_span, target_point};
use kangputus::walk::{
    clear_walk, distinguished, harvest, hop_all, jump_index, max_distance, respawn_point,
    start_herd, start_walk, tally_hops, worker_round, worker_starts_as_base, Walk, WalkPlan,
};
use rand::{Rng, SeedableRng};
use sha2::Digest;

const X1: [u64; 4] =
    [0x59f2815b16f81798, 0x029bfcdb2dce28d9, 0x55a06295ce870b07, 0x79be667ef9dcbbac];
const Y1: [u64; 4] =
    [0x9c47d08ffb10d4b8, 0xfd17b448a6855419, 0x5da4fbfc0e1108a8, 0x483ada7726a3c465];
const X2: [u64; 4] =
    [0xabac09b95c709ee5, 0x5c778e4b8cef3ca7, 0x3045406e95c07cd8, 0xc6047f9441ed7d6d];
const Y2: [u64; 4] =
    [0x236431a950cfe52a, 0xf7f632653266d0e1, 0xa3c58419466ceaee, 0x1ae168fea63dc339];
const X3: [u64; 4] =
    [0x8601f113bce036f9, 0xb531c845836f99b0, 0x49344f85f89d5229, 0xf9308a019258c310];
const Y3: [u64; 4] =
    [0x6cb9fd7584b8e672, 0x6500a99934c2231b, 0x0fe337e62a37f356, 0x388f7b0f632de814];
const FIVE: &str = "022f8bde4d1a07209355b4a7250a5c5128e88b84bddc619ab7cba8d569b240efe4";
const BIG: &str = "031a1fd15fce078234aa292fc024178056bf006433c9b4bd208f59eb4c9efec95b";

fn fq(limbs: [u64; 4]) -> Fq {
    Fq::from_limbs(limbs).unwrap()
}

fn plan<'a>(jumps: &'a JumpTable, fb: &'a FixedBase, tame: bool, dp_bits: u32) -> WalkPlan<'a> {
    WalkPlan {
        start_as_base: tame,
        jumps,
        fixed_base: fb,
        target: target_point(&decode_target(FIVE).unwrap()).unwrap(),
        range_start: Fr::from_u64(1000),
        range_width: Fr::from_u64(50),
        dp_bits,
        sub_bits: 16,
    }
}

fn same_walk(a: &Walk, b: &Walk) -> bool {
    a.x.same(&b.x)
        && a.y.same(&b.y)
        && a.scalar.limbs == b.scalar.limbs
        && a.target_coeff == b.target_coeff
        && a.walked.limbs == b.walked.limbs
}

/// The walk stands where its scalar and its coefficient say, for a target of five.
fn stands_right(w: &Walk, fb: &FixedBase) -> bool {
    let k = w.scalar.limbs[0] as i128 + 5 * w.target_coeff as i128;
    let there = if w.scalar.limbs[3] != 0 {
        // A scalar just below the order.
        let low = 0xbfd25e8cd0364141u64;
        let k = 5 * w.target_coeff as i128 - (low - w.scalar.limbs[0]) as i128;
        if k >= 0 {
            fb.mul(&Fr::from_u64(k as u64))
        } else {
            let mut neg = [0xbfd25e8cd0364141, 0xbaaedce6af48a03b, 0xfffffffffffffffe, u64::MAX];
            neg[0] -= (-k) as u64;
            fb.mul(&limbs_to_fr(neg).unwrap())
        }
    } else {
        fb.mul(&Fr::from_u64(k as u64))
    };
    there.x.same(&w.x) && there.y.same(&w.y)
}

#[test]
fn multiples_of_the_generator() {
    let fb = FixedBase::new(4);
    let one = fb.mul(&Fr::from_u64(1));
    assert_eq!((one.x.limbs, one.y.limbs, one.infinity), (X1, Y1, false));
    let two = fb.mul(&Fr::from_u64(2));
    assert_eq!((two.x.limbs, two.y.limbs), (X2, Y2));
    let three = fb.mul(&Fr::from_u64(3));
    assert_eq!((three.x.limbs, three.y.limbs), (X3, Y3));
    assert!(fb.mul(&Fr::from_u64(0)).infinity);
    let big = fb.mul(&Fr::from_u64(0x123456789abcdef));
    assert_eq!(
        big.x.limbs,
        [0x8f59eb4c9efec95b, 0xbf006433c9b4bd20, 0xaa292fc024178056, 0x1a1fd15fce078234]
    );
    let last = limbs_to_fr([0xbfd25e8cd0364140, 0xbaaedce6af48a03b, 0xfffffffffffffffe, u64::MAX]);
    let minus_one = fb.mul(&last.unwrap());
    assert_eq!(minus_one.x.limbs, X1);
    assert_eq!(
        minus_one.y.limbs,
        [0x63b82f6f04ef2777, 0x02e84bb7597aabe6, 0xa25b0403f1eef757, 0xb7c52588d95c3b9a]
    );
}

#[test]
fn windows_of_another_size() {
    let fb = FixedBase::new(3);
    let s = parse_hex_to_fr("123456789abcdef").unwrap();
    assert_eq!(
        fb.mul(&s).x.limbs,
        [0x8f59eb4c9efec95b, 0xbf006433c9b4bd20, 0xaa292fc024178056, 0x1a1fd15fce078234]
    );
}

#[test]
fn adding_a_jump_by_the_chord() {
    // The inverse of the difference of the abscissas, from a batch of one.
    let mut inv = vec![fq([
        X2[0].wrapping_sub(X1[0]),
        X2[1].wrapping_sub(X1[1]),
        X2[2].wrapping_sub(X1[2]),
        X2[3] - X1[3] - 1,
    ])];
    let mut scratch = vec![Fq::from_u64(0)];
    kangputus::field::batch_inversion_in_place(&mut inv, &mut scratch);
    let (x, y) = point_update(&fq(X1), &fq(Y1), &fq(X2), &fq(Y2), &inv[0]);
    assert_eq!((x.limbs, y.limbs), (X3, Y3));
}

#[test]
fn neutral_point() {
    let p = Affine::identity();
    assert!(p.infinity);
    assert_eq!(compress(&p)[0], 2);
    assert_eq!(compress(&p)[1..], [0u8; 32]);
}

#[test]
fn targets_in_hexadecimal() {
    assert_eq!(decode_target(FIVE).unwrap()[0], 2);
    let marked = format!("0x{}", FIVE);
    assert_eq!(decode_target(&marked), decode_target(FIVE));
    assert!(decode_target(&FIVE[2..]).is_none());
    assert!(decode_target(&FIVE[1..]).is_none());
    let bad = FIVE.replace('2', "z");
    assert!(decode_target(&bad).is_none());
}

#[test]
fn target_points() {
    let five = target_point(&decode_target(FIVE).unwrap()).unwrap();
    assert_eq!(
        five.y.limbs,
        [0xdca87d3aa6ac62d6, 0xf788271bab0d6840, 0xd4dba9dda6c9c426, 0xd8ac222636e5e3d6]
    );
    let big = target_point(&decode_target(BIG).unwrap()).unwrap();
    assert_eq!(
        big.y.limbs,
        [0x408319ce8f3be725, 0x51ef46e2cfab8999, 0xd3ff75bf96011211, 0xa18af1fe46980989]
    );
    let mut one = [0u8; 33];
    one[32] = 1;
    one[0] = 2;
    let even = [0xbc750d587e76a7ee, 0x264ca8d2587fdd6f, 0x63db68605822fb14, 0x4218f20ae6c646b3];
    let odd = [0x438af2a681895441, 0xd9b3572da7802290, 0x9c24979fa7dd04eb, 0xbde70df51939b94c];
    assert_eq!(target_point(&one).unwrap().y.limbs, even);
    one[0] = 3;
    assert_eq!(target_point(&one).unwrap().y.limbs, odd);
    // Any other first byte asks for the even ordinate.
    one[0] = 9;
    assert_eq!(target_point(&one).unwrap().y.limbs, even);
}

#[test]
fn what_is_no_target_point() {
    let mut five = [0u8; 33];
    five[0] = 2;
    five[32] = 5;
    assert!(target_point(&five).is_none());
    let mut high = [0xffu8; 33];
    high[0] = 2;
    assert!(target_point(&high).is_none());
}

#[test]
fn compressing_gives_the_bytes_back() {
    for text in [FIVE, BIG] {
        let bytes = decode_target(text).unwrap();
        assert_eq!(compress(&target_point(&bytes).unwrap()), bytes);
    }
}

#[test]
fn spans() {
    let span = |start: u64, end: u64, sub_bits: u32| {
        search_span(&Fr::from_u64(start), &Fr::from_u64(end), sub_bits).limbs
    };
    assert_eq!(span(100, 1000, 4), [1000 - 16 + 1 - 100, 0, 0, 0]);
    // The end is not beyond the distance that a walk goes.
    assert_eq!(span(100, 1000, 10), [900, 0, 0, 0]);
    assert_eq!(span(1000, 1000, 10), [0, 0, 0, 0]);
    assert_eq!(span(990, 1000, 4), [0, 0, 0, 0]);
}

#[test]
fn distances() {
    assert_eq!(max_distance(10).limbs, [1024, 0, 0, 0]);
    assert_eq!(max_distance(254).limbs, [0, 0, 0, 1 << 62]);
    let top = [0xbfd25e8cd0364140, 0xbaaedce6af48a03b, 0xfffffffffffffffe, u64::MAX];
    assert_eq!(max_distance(255).limbs, top);
    assert_eq!(max_distance(1000).limbs, top);
}

#[test]
fn seeds() {
    let material = fast_rng_material(0x0102, 3, 4);
    assert_eq!((material[0], material[1], material[16], material[24]), (2, 1, 3, 4));
    assert_eq!(material.iter().map(|b| *b as u32).sum::<u32>(), 10);
    let wide = fast_rng_material(1 << 120, 0, 0);
    assert_eq!(wide[15], 1);
    let expected: [u8; 32] = sha2::Sha256::digest(material).into();
    assert_eq!(fast_rng_seed(0x0102, 3, 4), expected);
}

#[test]
fn generators_follow_their_seed() {
    let seed = fast_rng_seed(77, 8, 9);
    let mut plain = rand_xoshiro::Xoshiro256PlusPlus::from_seed(seed);
    let mut ours = make_fast_rng(77, 8, 9);
    let upper = Fr::from_u64(1_000_000);
    for _ in 0..50 {
        let drawn = random_fr_below(&mut ours, upper).unwrap();
        let expected = loop {
            let mut bytes = [0u8; 32];
            plain.fill(&mut bytes);
            let low = u64::from_be_bytes(bytes[24..32].try_into().unwrap()) & ((1 << 20) - 1);
            if low < 1_000_000 {
                break low;
            }
        };
        assert_eq!(drawn.limbs, [expected, 0, 0, 0]);
    }
}

#[test]
fn draws_below_nothing_are_zero() {
    let mut rng = make_fast_rng(1, 2, 3);
    assert!(random_fr_below(&mut rng, Fr::from_u64(0)).unwrap().is_zero());
}

#[test]
fn proposals_are_cut_to_the_length_of_the_bound() {
    let bytes = [0xffu8; 32];
    assert_eq!(keep_low_bits(&bytes, 12)[30..], [0x0f, 0xff]);
    assert_eq!(keep_low_bits(&bytes, 12)[..30], [0u8; 30]);
    assert_eq!(keep_low_bits(&bytes, 256), bytes);
    assert!(draw_below(&bytes, &Fr::from_u64(15)).is_none());
    let mut low = [0xffu8; 32];
    low[31] = 0xf3;
    assert_eq!(draw_below(&low, &Fr::from_u64(15)).unwrap().limbs, [3, 0, 0, 0]);
    // Ten bits are kept for a bound of ten bits.
    assert!(draw_below(&low, &pow2_scalar(9)).is_none());
    assert_eq!(draw_below(&low, &Fr::from_u64(1023)).unwrap().limbs, [0x3f3, 0, 0, 0]);
}

#[test]
fn jump_tables() {
    let fb = FixedBase::new(4);
    let mut rng = make_fast_rng(5, 6, 7);
    let t = JumpTable::build(20, &mut rng, &fb).unwrap();
    assert_eq!(t.scalars.len(), NUM_JUMPS);
    for i in 0..NUM_JUMPS {
        let bits = jump_bits(i, 20);
        let v = t.scalars[i].limbs[0];
        assert!(v >= 1 << (bits - 1) && v < 3 << (bits - 1));
        assert_eq!(t.scalars[i].limbs[1..], [0, 0, 0]);
    }
    let p = fb.mul(&t.scalars[9]);
    assert!(p.x.same(&t.points[9].x) && p.y.same(&t.points[9].y));
}

#[test]
fn jump_choice() {
    assert_eq!(jump_index(&fq([5, 0, 0, 0])), 5);
    assert_eq!(jump_index(&fq([0x80, 0, 0, 0])), 0);
    let x: [u64; 4] = [0x0123456789abcdef, 0xfedcba9876543210, 0x0f1e2d3c4b5a6978, 0x1122334455667788];
    let mix = x[0] ^ x[1].rotate_left(17) ^ x[2].rotate_left(33) ^ x[3].rotate_left(51);
    assert_eq!(jump_index(&fq(x)), (mix & 127) as usize);
}

#[test]
fn distinguished_points() {
    assert!(distinguished(&fq([0x100, 1, 1, 1]), 8));
    assert!(!distinguished(&fq([0x100, 1, 1, 1]), 9));
    assert!(distinguished(&fq([0, 1, 1, 1]), 64));
    assert!(!distinguished(&fq([0, 1, 1, 1]), 65));
    assert!(distinguished(&fq([1, 1, 1, 1]), 0));
}

#[test]
fn starts_of_walks() {
    let fb = FixedBase::new(4);
    let mut rng = make_fast_rng(5, 6, 7);
    let jumps = JumpTable::build(16, &mut rng, &fb).unwrap();
    let tame = start_walk(&plan(&jumps, &fb, true, 4), &Fr::from_u64(3));
    assert_eq!(tame.scalar.limbs, [1003, 0, 0, 0]);
    assert_eq!(tame.target_coeff, 0);
    assert!(tame.walked.is_zero());
    assert!(stands_right(&tame, &fb));
    let wild = start_walk(&plan(&jumps, &fb, false, 4), &Fr::from_u64(256 + 9));
    assert_eq!(wild.scalar.limbs, [9, 0, 0, 0]);
    assert_eq!(wild.target_coeff, 1);
    assert!(stands_right(&wild, &fb));
    let below = start_walk(&plan(&jumps, &fb, false, 4), &Fr::from_u64(256 - 9));
    assert_eq!(below.scalar.limbs[0], 0xbfd25e8cd0364141 - 9);
    assert!(stands_right(&below, &fb));
}

#[test]
fn respawned_walks_follow_the_generator() {
    let fb = FixedBase::new(4);
    let mut rng = make_fast_rng(5, 6, 7);
    let jumps = JumpTable::build(16, &mut rng, &fb).unwrap();
    let p = plan(&jumps, &fb, true, 4);
    let mut a = make_fast_rng(8, 8, 8);
    let mut b = make_fast_rng(8, 8, 8);
    let draw = random_fr_below(&mut a, Fr::from_u64(50)).unwrap();
    let w = respawn_point(&p, &mut b).unwrap();
    assert!(same_walk(&w, &start_walk(&p, &draw)));
    assert_eq!(a, b);
}

#[test]
fn a_walk_above_its_jump_is_started_anew() {
    let fb = FixedBase::new(4);
    let mut rng = make_fast_rng(5, 6, 7);
    let mut jumps = JumpTable::build(16, &mut rng, &fb).unwrap();
    // A walk that stands on the point of its own next jump.
    let w = start_walk(&plan(&jumps, &fb, true, 4), &Fr::from_u64(3));
    let j = jump_index(&w.x);
    jumps.scalars[j] = w.scalar;
    jumps.points[j] = Affine { x: w.x, y: w.y, infinity: false };
    let p = plan(&jumps, &fb, true, 4);
    let mut fresh = w;
    assert!(clear_walk(&p, &mut fresh, &mut rng));
    assert!(!fresh.x.same(&jumps.points[jump_index(&fresh.x)].x));
    assert!(stands_right(&fresh, &fb));
    // One that can hop is left alone.
    let mut kept = fresh;
    assert!(clear_walk(&p, &mut kept, &mut rng));
    assert!(same_walk(&kept, &fresh));
}

#[test]
fn hops_keep_walks_on_course() {
    let fb = FixedBase::new(4);
    let mut rng = make_fast_rng(5, 6, 7);
    let jumps = JumpTable::build(16, &mut rng, &fb).unwrap();
    for tame in [true, false] {
        let p = plan(&jumps, &fb, tame, 64);
        let before = start_herd(&p, 5, &mut rng).unwrap();
        let mut after: Vec<Walk> = before.clone();
        hop_all(&p, &mut after);
        for i in 0..5 {
            assert!(stands_right(&before[i], &fb));
            assert!(stands_right(&after[i], &fb));
            let step = jumps.scalars[jump_index(&before[i].x)].limbs[0];
            assert_eq!(after[i].walked.limbs, [step, 0, 0, 0]);
        }
    }
}

#[test]
fn harvesting() {
    let fb = FixedBase::new(4);
    let mut rng = make_fast_rng(5, 6, 7);
    let jumps = JumpTable::build(16, &mut rng, &fb).unwrap();
    // Every point is distinguished.
    let all = plan(&jumps, &fb, true, 0);
    let before = start_herd(&all, 3, &mut rng).unwrap();
    let mut walks: Vec<Walk> = before.clone();
    let messages = harvest(&all, &mut walks, &mut rng).unwrap();
    assert_eq!(messages.len(), 3);
    for i in 0..3 {
        assert_eq!(messages[i].scalar_limbs, before[i].scalar.limbs);
        assert_eq!(messages[i].key.x_0, before[i].x.limbs[0]);
        assert_eq!(messages[i].key.x_3, before[i].x.limbs[3]);
        assert_eq!(messages[i].target_coeff, 0);
    }
    // Hardly any is, but one walk has gone too far.
    let none = plan(&jumps, &fb, true, 64);
    let mut far: Vec<Walk> = before.clone();
    far[1].walked = Fr::from_u64((1 << 16) + 1);
    far[2].walked = Fr::from_u64(1 << 16);
    let kept = far.clone();
    assert!(harvest(&none, &mut far, &mut rng).unwrap().is_empty());
    assert!(same_walk(&far[0], &kept[0]));
    assert!(far[1].walked.is_zero());
    assert!(same_walk(&far[2], &kept[2]));
}

#[test]
fn rounds_find_a_meeting() {
    let fb = FixedBase::new(4);
    let mut rng = make_fast_rng(5, 6, 7);
    let jumps = JumpTable::build(16, &mut rng, &fb).unwrap();
    let target_bytes = decode_target(FIVE).unwrap();
    let mut collector = kangputus::collect::Collector {
        map: kangputus::dp_map::DpMap::with_capacity(64),
        ram_seq: 0,
        points: 0,
    };
    let tame_plan = WalkPlan { range_start: Fr::from_u64(1), ..plan(&jumps, &fb, true, 2) };
    let wild_plan = plan(&jumps, &fb, false, 2);
    let mut tame = start_herd(&tame_plan, 8, &mut rng).unwrap();
    let mut wild = start_herd(&wild_plan, 8, &mut rng).unwrap();
    let mut found = None;
    for _ in 0..400 {
        let mut messages = worker_round(&tame_plan, &mut tame, &mut rng).unwrap();
        messages.extend(worker_round(&wild_plan, &mut wild, &mut rng).unwrap());
        for m in messages {
            let told = match collector.absorb(&m) {
                Ok(a) => a.candidates,
                Err(_) => panic!("refused"),
            };
            for c in told {
                if let Some(s) = verify_candidate(&c, &target_bytes, &fb) {
                    found = Some((c, s));
                }
            }
        }
        if found.is_some() {
            break;
        }
    }
    let (scalar, solution) = found.unwrap();
    assert_eq!(scalar.limbs, [5, 0, 0, 0]);
    assert_eq!(solution.hex, "5");
    assert_eq!(solution.address, "17Vu7st1U1KwymUKU4jJheHHGRVNqrcfLD");
}

#[test]
fn candidates_are_checked_against_the_target() {
    let fb = FixedBase::new(4);
    let target = decode_target(FIVE).unwrap();
    let s = verify_candidate(&Fr::from_u64(5), &target, &fb).unwrap();
    assert_eq!(s.address, "17Vu7st1U1KwymUKU4jJheHHGRVNqrcfLD");
    assert_eq!(s.wif, "KwDiBf89QgGbjEhKnhXJuH7LrciVrZi3qYjgd9M7rFU75s2EPgZf");
    assert_eq!(s.hex, "5");
    assert!(verify_candidate(&Fr::from_u64(6), &target, &fb).is_none());
}

#[test]
fn only_the_scalar_of_the_target_passes() {
    let fb = FixedBase::new(4);
    let target = decode_target(FIVE).unwrap();
    let passing: Vec<u64> =
        (0..40).filter(|k| verify_candidate(&Fr::from_u64(*k), &target, &fb).is_some()).collect();
    assert_eq!(passing, vec![5]);
    // The opposite point has the same abscissa and does not pass.
    let minus_five =
        limbs_to_fr([0xbfd25e8cd036413c, 0xbaaedce6af48a03b, 0xfffffffffffffffe, u64::MAX]);
    assert!(verify_candidate(&minus_five.unwrap(), &target, &fb).is_none());
}

#[test]
fn decoded_targets_are_multiples_of_the_generator() {
    let fb = FixedBase::new(4);
    for (text, k) in [(FIVE, 5), (BIG, 0x123456789abcdef)] {
        let point = target_point(&decode_target(text).unwrap()).unwrap();
        let multiple = fb.mul(&Fr::from_u64(k));
        assert!(point.x.same(&multiple.x) && point.y.same(&multiple.y));
    }
}

#[test]
fn hops_are_reported_in_lots() {
    assert_eq!(tally_hops(0, 2048), (2048, 0));
    assert_eq!(tally_hops(14_336, 2048), (0, 16_384));
    assert_eq!(tally_hops(14_335, 2048), (16_383, 0));
}

#[test]
fn hops_of_many_rounds() {
    let mut unreported = 0;
    let mut reported = 0;
    for rounds in 1..100u64 {
        let (later, now) = tally_hops(unreported, 2048);
        unreported = later;
        reported += now;
        assert_eq!(reported, 16_384 * (rounds / 8));
        assert_eq!(unreported, 2048 * (rounds % 8));
    }
}

#[test]
fn wild_walks_start_at_infinity_only_near_zero() {
    let fb = FixedBase::new(4);
    let mut rng = make_fast_rng(5, 6, 7);
    let jumps = JumpTable::build(16, &mut rng, &fb).unwrap();
    // The target is five, within the radius of 256: one draw leads to infinity.
    let near = plan(&jumps, &fb, false, 4);
    assert!(start_walk(&near, &Fr::from_u64(251)).x.is_zero());
    assert!(!start_walk(&near, &Fr::from_u64(252)).x.is_zero());
    // A target beyond the radius: none does.
    let far = WalkPlan { target: fb.mul(&Fr::from_u64(257)), ..plan(&jumps, &fb, false, 4) };
    for draw in 0..512 {
        assert!(!start_walk(&far, &Fr::from_u64(draw)).x.is_zero());
    }
}

#[test]
fn kinds_of_workers() {
    assert!(worker_starts_as_base(0));
    assert!(!worker_starts_as_base(1));
    assert!(worker_starts_as_base(2));
}

#[test]
fn tame_walks_start_at_infinity_only_from_zero() {
    let fb = FixedBase::new(4);
    let mut rng = make_fast_rng(5, 6, 7);
    let jumps = JumpTable::build(16, &mut rng, &fb).unwrap();
    let above = WalkPlan { range_start: Fr::from_u64(1), ..plan(&jumps, &fb, true, 4) };
    for draw in 0..50 {
        assert!(!start_walk(&above, &Fr::from_u64(draw)).x.is_zero());
    }
    let from_zero = WalkPlan { range_start: Fr::from_u64(0), ..plan(&jumps, &fb, true, 4) };
    let w = start_walk(&from_zero, &Fr::from_u64(0));
    assert!(w.x.is_zero() && w.y.is_zero() && w.scalar.is_zero());
}
