use kangputus::bytes::{be_to_u32, be_to_u64, u32_to_be, u64_to_be};
use kangputus::compact::compact_u128;
use kangputus::field::{batch_inversion_in_place, Fq};
use kangputus::jumps::{jump_bits, jump_scalar, NUM_JUMPS};
use kangputus::limbs::{be_to_limbs, limbs_equal, limbs_less, limbs_to_be, limbs_window};
use kangputus::scalar::{
    limbs_to_fr, parse_hex_to_fr, pow2_scalar, scalar_to_bytes, scalar_to_limbs,
    strip_hex_prefix, Fr,
};

const ORDER: [u64; 4] =
    [0xbfd25e8cd0364141, 0xbaaedce6af48a03b, 0xfffffffffffffffe, 0xffffffffffffffff];
const FIELD: [u64; 4] =
    [0xfffffffefffffc2f, 0xffffffffffffffff, 0xffffffffffffffff, 0xffffffffffffffff];

#[test]
fn words_to_bytes_and_back() {
    assert_eq!(u64_to_be(0x0102030405060708), [1, 2, 3, 4, 5, 6, 7, 8]);
    assert_eq!(u32_to_be(0x01020304), [1, 2, 3, 4]);
    let bytes = [9u8, 1, 2, 3, 4, 5, 6, 7, 8];
    assert_eq!(be_to_u64(&bytes, 1), 0x0102030405060708);
    assert_eq!(be_to_u32(&bytes, 2), 0x02030405);
}

#[test]
fn limbs_to_bytes_and_back() {
    let limbs = [4u64, 3, 2, 1];
    let bytes = limbs_to_be(&limbs);
    assert_eq!(bytes[7], 1);
    assert_eq!(bytes[15], 2);
    assert_eq!(bytes[23], 3);
    assert_eq!(bytes[31], 4);
    assert_eq!(be_to_limbs(&bytes, 0), limbs);
}

#[test]
fn limbs_are_ordered_from_the_top() {
    assert!(limbs_less(&[9, 9, 9, 0], &[0, 0, 0, 1]));
    assert!(!limbs_less(&[0, 0, 0, 1], &[0, 0, 0, 1]));
    assert!(limbs_equal(&[1, 2, 3, 4], &[1, 2, 3, 4]));
    assert!(!limbs_equal(&[1, 2, 3, 4], &[1, 2, 3, 5]));
}

#[test]
fn windows_cross_limbs_and_end_with_the_number() {
    let limbs = [0xf000_0000_0000_0000u64, 0x0000_0000_0000_000a, 0, 0xff00_0000_0000_0000];
    assert_eq!(limbs_window(&limbs, 60, 8), 0xaf);
    assert_eq!(limbs_window(&limbs, 248, 8), 0xff);
    assert_eq!(limbs_window(&limbs, 252, 8), 0x0f);
    assert_eq!(limbs_window(&limbs, 256, 8), 0);
}

#[test]
fn field_elements_are_reduced() {
    assert!(Fq::from_limbs(FIELD).is_none());
    let mut top = FIELD;
    top[0] -= 1;
    let x = Fq::from_limbs(top).unwrap();
    assert_eq!(x.limbs, top);
    assert!(!x.is_odd());
    assert!(!x.is_zero());
    assert!(Fq::from_u64(0).is_zero());
    assert!(Fq::from_u64(7).is_odd());
    assert!(Fq::from_u64(7).same(&Fq::from_u64(7)));
    assert!(!Fq::from_u64(7).same(&Fq::from_u64(8)));
}

#[test]
fn batch_inversion_inverts_each_element() {
    let mut v = vec![Fq::from_u64(2), Fq::from_u64(3), Fq::from_u64(1), Fq::from_u64(5)];
    let mut scratch = vec![Fq::from_u64(0); 4];
    batch_inversion_in_place(&mut v, &mut scratch);
    assert_eq!(
        v[0].limbs,
        [0xffffffff7ffffe18, 0xffffffffffffffff, 0xffffffffffffffff, 0x7fffffffffffffff]
    );
    assert_eq!(
        v[1].limbs,
        [0xaaaaaaa9fffffd75, 0xaaaaaaaaaaaaaaaa, 0xaaaaaaaaaaaaaaaa, 0xaaaaaaaaaaaaaaaa]
    );
    assert_eq!(v[2].limbs, [1, 0, 0, 0]);
    assert_eq!(
        v[3].limbs,
        [0x99999998fffffdb6, 0x9999999999999999, 0x9999999999999999, 0x9999999999999999]
    );
}

#[test]
fn batch_inversion_with_a_zero_gives_products_of_the_others() {
    let mut v = vec![Fq::from_u64(2), Fq::from_u64(0), Fq::from_u64(5)];
    let mut scratch = vec![Fq::from_u64(0); 3];
    batch_inversion_in_place(&mut v, &mut scratch);
    assert_eq!(v[0].limbs, [0, 0, 0, 0]);
    assert_eq!(v[1].limbs, [10, 0, 0, 0]);
    assert_eq!(v[2].limbs, [0, 0, 0, 0]);
}

#[test]
fn batch_inversion_of_nothing() {
    let mut v: Vec<Fq> = Vec::new();
    let mut scratch: Vec<Fq> = Vec::new();
    batch_inversion_in_place(&mut v, &mut scratch);
    assert!(v.is_empty());
}

#[test]
fn scalars_have_limbs_below_the_order() {
    assert!(limbs_to_fr(ORDER).is_none());
    let mut top = ORDER;
    top[0] -= 1;
    let s = limbs_to_fr(top).unwrap();
    assert_eq!(scalar_to_limbs(s), top);
}

#[test]
fn scalar_bytes_are_big_endian() {
    let s = limbs_to_fr([1, 2, 3, 4]).unwrap();
    let bytes = scalar_to_bytes(s);
    assert_eq!(bytes[7], 4);
    assert_eq!(bytes[15], 3);
    assert_eq!(bytes[23], 2);
    assert_eq!(bytes[31], 1);
    assert_eq!(bytes.iter().map(|b| *b as u32).sum::<u32>(), 10);
}

#[test]
fn powers_of_two_are_reduced() {
    assert_eq!(pow2_scalar(0).limbs, [1, 0, 0, 0]);
    assert_eq!(pow2_scalar(70).limbs, [0, 64, 0, 0]);
    assert_eq!(pow2_scalar(255).limbs, [0, 0, 0, 0x8000000000000000]);
    assert_eq!(pow2_scalar(256).limbs, [0x402da1732fc9bebf, 0x4551231950b75fc4, 1, 0]);
}

#[test]
fn hexadecimal_scalars() {
    assert_eq!(parse_hex_to_fr("0x1f").unwrap().limbs, [0x1f, 0, 0, 0]);
    assert_eq!(parse_hex_to_fr("f").unwrap().limbs, [15, 0, 0, 0]);
    assert_eq!(parse_hex_to_fr("").unwrap().limbs, [0, 0, 0, 0]);
    assert_eq!(parse_hex_to_fr("0X0000aB").unwrap().limbs, [0xab, 0, 0, 0]);
    assert_eq!(parse_hex_to_fr("123456789abcdef01").unwrap().limbs, [0x23456789abcdef01, 1, 0, 0]);
}

#[test]
fn hexadecimal_scalars_are_reduced() {
    let top = "ffffffffffffffffffffffffffffffffffffffffffffffffffffffffffffffff";
    assert_eq!(
        parse_hex_to_fr(top).unwrap().limbs,
        [0x402da1732fc9bebe, 0x4551231950b75fc4, 1, 0]
    );
}

#[test]
fn what_is_no_hexadecimal_scalar() {
    assert!(parse_hex_to_fr("xyz").is_none());
    assert!(parse_hex_to_fr("0x12g4").is_none());
    let long = "00ffffffffffffffffffffffffffffffffffffffffffffffffffffffffffffffff";
    assert!(parse_hex_to_fr(long).is_none());
}

#[test]
fn hexadecimal_marks_are_taken_off_in_order() {
    assert_eq!(strip_hex_prefix("0x0x0X12"), "12");
    assert_eq!(strip_hex_prefix("0X0x12"), "0x12");
    assert_eq!(strip_hex_prefix("12"), "12");
    assert_eq!(strip_hex_prefix("0"), "0");
}

#[test]
fn scalar_comparison() {
    assert!(Fr::from_u64(3).less(&pow2_scalar(64)));
    assert!(!pow2_scalar(64).less(&Fr::from_u64(3)));
    assert!(Fr::from_u64(0).is_zero());
    assert!(!pow2_scalar(200).is_zero());
}

#[test]
fn compact_numbers() {
    assert_eq!(compact_u128(0), "0");
    assert_eq!(compact_u128(999), "999");
    assert_eq!(compact_u128(1_000), "1.00K");
    assert_eq!(compact_u128(1_234), "1.23K");
    assert_eq!(compact_u128(999_999), "1000.00K");
    assert_eq!(compact_u128(1_000_000), "1.00M");
    assert_eq!(compact_u128(2_500_000_000), "2.50B");
    assert_eq!(compact_u128(7_777_000_000_000), "7.78T");
    assert_eq!(compact_u128(1_000_000_000_000_000), "1.00Q");
    assert_eq!(compact_u128(123_456_000_000_000_000_000), "123456.00Q");
}

#[test]
fn compact_numbers_round_to_even_between_two() {
    assert_eq!(compact_u128(1_125), "1.12K");
    assert_eq!(compact_u128(1_375), "1.38K");
    assert_eq!(compact_u128(1_625), "1.62K");
}

fn in_doubles(value: u128) -> String {
    let units: [(u128, &str); 5] = [
        (1_000_000_000_000_000, "Q"),
        (1_000_000_000_000, "T"),
        (1_000_000_000, "B"),
        (1_000_000, "M"),
        (1_000, "K"),
    ];
    for (divisor, suffix) in units {
        if value >= divisor {
            return format!("{:.2}{}", value as f64 / divisor as f64, suffix);
        }
    }
    value.to_string()
}

#[test]
fn compact_numbers_are_those_of_double_precision() {
    let mut x: u128 = 0x9e3779b97f4a7c15f39cc0605cedc835;
    for i in 0..20_000u32 {
        x = x.wrapping_mul(0xda942042e4dd58b5_0000_0001_0000_0001).wrapping_add(12345);
        let v = x >> (i % 128);
        assert_eq!(compact_u128(v), in_doubles(v));
    }
    for v in 0..20_000u128 {
        assert_eq!(compact_u128(v * 5), in_doubles(v * 5));
    }
    for k in 0..128u32 {
        let v = 1u128 << k;
        for w in [v - 1, v, v + 1] {
            assert_eq!(compact_u128(w), in_doubles(w));
        }
    }
    for w in [u128::MAX, u128::MAX - (1 << 74), u128::MAX - (1 << 74) + 1, u128::MAX - (1 << 75)] {
        assert_eq!(compact_u128(w), in_doubles(w));
    }
}

#[test]
fn compact_numbers_do_not_fall_within_a_unit() {
    let shown = |v: u128| {
        let text = compact_u128(v);
        let letter = text.chars().last().unwrap();
        let digits: String = text.chars().filter(|c| c.is_ascii_digit()).collect();
        (letter, digits.parse::<u128>().unwrap())
    };
    let mut before = shown(1_000);
    let mut v: u128 = 1_000;
    while v < 1 << 126 {
        v += v / 97 + 1;
        let next = shown(v);
        if next.0 == before.0 {
            assert!(before.1 <= next.1);
        }
        before = next;
    }
    assert_eq!(shown(999_994_999), ('M', 99_999));
    assert_eq!(shown(999_995_001), ('M', 100_000));
}

#[test]
fn jump_sizes() {
    assert_eq!(jump_bits(0, 139), 66);
    assert_eq!(jump_bits(127, 139), 74);
    assert_eq!(jump_bits(0, 8), 1);
    assert_eq!(jump_bits(127, 0), 9);
}

#[test]
fn jump_sizes_are_those_of_double_precision() {
    for sub_bits in 0..600u32 {
        let half = sub_bits as f64 / 2.0;
        for i in 0..NUM_JUMPS {
            let base = if half > 4.0 { half - 4.0 } else { 1.0 };
            let bits = base + (8.0 * ((i as f64) / (NUM_JUMPS as f64 - 1.0)));
            assert_eq!(jump_bits(i, sub_bits), bits.round() as u64);
        }
    }
}

#[test]
fn jump_scalars() {
    assert_eq!(jump_scalar(5, &Fr::from_u64(9)).limbs, [25, 0, 0, 0]);
    assert_eq!(jump_scalar(1, &Fr::from_u64(0)).limbs, [1, 0, 0, 0]);
}
