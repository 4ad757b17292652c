//! Large numbers in short form: a number with two decimals and the letter of its unit.
//!
//! The number is first brought to double precision, divided by its unit in double precision, and
//! then rounded to two decimals; each step rounds to the nearest, and to even between two.

use vstd::arithmetic::power2::{
    lemma2_to64, lemma2_to64_rest, lemma_pow2_adds, lemma_pow2_pos,
    lemma_pow2_strictly_increases, pow2,
};
use vstd::prelude::*;

use crate::scalar::bit_length;
use crate::text::{decimal_text, decimal_value, lemma_decimal_roundtrip, push_decimal};

verus! {

/// The quotient rounded to the nearest integer, and to the even one between two.
pub open spec fn round_div(a: nat, b: nat) -> nat {
    let q = a / b;
    let r = a % b;
    if 2 * r > b || (2 * r == b && q % 2 == 1) {
        q + 1
    } else {
        q
    }
}

/// A number in double precision: 53 binary digits.
pub open spec fn double_of(v: nat) -> nat {
    if bit_length(v) <= 53 {
        v
    } else {
        let unit = pow2((bit_length(v) - 53) as nat);
        round_div(v, unit) * unit
    }
}

/// A quotient of at least one in double precision, as a fraction.
pub open spec fn double_quotient(a: nat, b: nat) -> (nat, nat) {
    let digits = bit_length(a / b);
    if digits >= 53 {
        let unit = pow2((digits - 53) as nat);
        (round_div(a, b * unit) * unit, 1)
    } else {
        let parts = pow2((53 - digits) as nat);
        (round_div(a * parts, b), parts)
    }
}

/// A number of units in hundredths, by way of double precision.
pub open spec fn hundredths_of(value: nat, divisor: nat) -> nat {
    let q = double_quotient(double_of(value), divisor);
    round_div(100 * q.0, q.1)
}

/// A number of hundredths as text, with two decimals.
pub open spec fn two_decimals(h: nat) -> Seq<char> {
    decimal_text(h / 100) + "."@ + decimal_text((h / 10) % 10) + decimal_text(h % 10)
}

/// The unit of a number, none below a thousand.
pub open spec fn unit_of(value: nat) -> Option<(nat, Seq<char>)> {
    if value >= 1_000_000_000_000_000 {
        Some((1_000_000_000_000_000, "Q"@))
    } else if value >= 1_000_000_000_000 {
        Some((1_000_000_000_000, "T"@))
    } else if value >= 1_000_000_000 {
        Some((1_000_000_000, "B"@))
    } else if value >= 1_000_000 {
        Some((1_000_000, "M"@))
    } else if value >= 1_000 {
        Some((1_000, "K"@))
    } else {
        None
    }
}

/// A number in short form.
pub open spec fn compact_text(value: nat) -> Seq<char> {
    match unit_of(value) {
        Some((divisor, suffix)) => two_decimals(hundredths_of(value, divisor)) + suffix,
        None => decimal_text(value),
    }
}

/// The powers of two that are used below.
proof fn lemma_powers()
    ensures
        pow2(0) == 1,
        pow2(1) == 2,
        pow2(14) == 0x4000,
        pow2(15) == 0x8000,
        pow2(26) == 0x400_0000,
        pow2(38) == 0x40_0000_0000,
        pow2(52) == 0x10_0000_0000_0000,
        pow2(53) == 0x20_0000_0000_0000,
        pow2(63) == 0x8000_0000_0000_0000,
        pow2(64) == 0x1_0000_0000_0000_0000,
        pow2(127) == 0x8000_0000_0000_0000_0000_0000_0000_0000nat,
        pow2(128) == 0x1_0000_0000_0000_0000_0000_0000_0000_0000nat,
{
    lemma2_to64();
    lemma2_to64_rest();
    lemma_pow2_adds(64, 63);
    lemma_pow2_adds(64, 64);
}

/// A number lies between the powers of two that its length names.
pub proof fn lemma_bit_length(v: nat)
    ensures
        v < pow2(bit_length(v)),
        v > 0 ==> bit_length(v) > 0 && pow2((bit_length(v) - 1) as nat) <= v,
    decreases v,
{
    lemma_powers();
    if v > 0 {
        lemma_bit_length(v / 2);
        let l = bit_length(v / 2);
        lemma_pow2_adds(1, l);
        if l > 0 {
            lemma_pow2_adds(1, (l - 1) as nat);
        }
    }
}

/// A number between two neighbouring powers of two has the length they name.
pub proof fn lemma_bit_length_is(v: nat, l: nat)
    requires
        l > 0,
        pow2((l - 1) as nat) <= v < pow2(l),
    ensures
        bit_length(v) == l,
{
    lemma_bit_length(v);
    lemma_pow2_pos((l - 1) as nat);
    let k = bit_length(v);
    if k < l {
        if k < l - 1 {
            lemma_pow2_strictly_increases(k, (l - 1) as nat);
        }
    } else if k > l {
        if l < k - 1 {
            lemma_pow2_strictly_increases(l, (k - 1) as nat);
        }
    }
}

fn bits(v: u128) -> (r: u32)
    ensures
        r == bit_length(v as nat),
        r <= 128,
{
    let mut x: u128 = v;
    let mut n: u32 = 0;
    proof {
        lemma_powers();
    }
    while x > 0
        invariant
            bit_length(v as nat) == n + bit_length(x as nat),
            n <= 128,
            x as nat * pow2(n as nat) <= v,
        decreases x,
    {
        proof {
            lemma_powers();
            lemma_pow2_adds(n as nat, 1);
            lemma_pow2_pos(n as nat);
            let p = pow2(n as nat) as int;
            let h = x as int / 2;
            assert(h * (2 * p) <= x * p) by (nonlinear_arith)
                requires
                    0 <= p,
                    2 * h <= x,
            ;
            if n == 128 {
                assert(x * p >= p) by (nonlinear_arith)
                    requires
                        x >= 1,
                        p >= 0,
                ;
            }
        }
        x = x / 2;
        n = n + 1;
    }
    n
}

fn two_to(k: u32) -> (r: u128)
    requires
        k < 128,
    ensures
        r == pow2(k as nat),
{
    let mut r: u128 = 1;
    let mut i: u32 = 0;
    proof {
        lemma_powers();
    }
    while i < k
        invariant
            i <= k < 128,
            r == pow2(i as nat),
        decreases k - i,
    {
        proof {
            lemma_powers();
            lemma_pow2_adds(i as nat, 1);
            if i + 1 < 127 {
                lemma_pow2_strictly_increases((i + 1) as nat, 127);
            }
        }
        r = r * 2;
        i = i + 1;
    }
    r
}

fn rounded_quotient(a: u128, b: u128) -> (r: u128)
    requires
        0 < b,
    ensures
        r == round_div(a as nat, b as nat),
{
    let q: u128 = a / b;
    let rest: u128 = a % b;
    if rest > b - rest || (rest == b - rest && q % 2 == 1) {
        proof {
            vstd::arithmetic::div_mod::lemma_fundamental_div_mod(a as int, b as int);
            assert(q + 1 <= a) by (nonlinear_arith)
                requires
                    a == b * q + rest,
                    b >= 2,
                    rest >= 1,
            ;
        }
        q + 1
    } else {
        q
    }
}

/// Rounding cannot pass a multiple of the divisor.
proof fn lemma_round_div_bound(a: nat, b: nat, n: nat)
    requires
        0 < b,
        a < n * b,
    ensures
        round_div(a, b) <= n,
        a / b < n,
{
    vstd::arithmetic::div_mod::lemma_fundamental_div_mod(a as int, b as int);
    let q = a / b;
    assert(q < n) by (nonlinear_arith)
        requires
            a == b * q + a % b,
            a % b >= 0,
            a < n * b,
            b > 0,
    ;
}

/// A common factor does not change a rounded quotient.
proof fn lemma_round_div_scaled(a: nat, b: nat, c: nat)
    requires
        0 < b,
        0 < c,
    ensures
        round_div(a * c, b * c) == round_div(a, b),
{
    let q = a / b;
    let r = a % b;
    vstd::arithmetic::div_mod::lemma_fundamental_div_mod(a as int, b as int);
    assert(a * c == q * (b * c) + r * c && 0 <= r * c < b * c) by (nonlinear_arith)
        requires
            a == b * q + r,
            0 <= r < b,
            0 < c,
    ;
    vstd::arithmetic::div_mod::lemma_fundamental_div_mod_converse(
        (a * c) as int,
        (b * c) as int,
        q as int,
        (r * c) as int,
    );
    assert(2 * (r * c) > b * c <==> 2 * r > b) by (nonlinear_arith)
        requires
            0 < c,
    ;
    assert(2 * (r * c) == b * c <==> 2 * r == b) by (nonlinear_arith)
        requires
            0 < c,
    ;
}

/// A number in double precision, divided by a unit, in hundredths.
fn quotient_hundredths(a: u128, b: u128) -> (r: u128)
    requires
        1_000 <= b <= 1_000_000_000_000_000,
        b <= a,
    ensures
        r == ({
            let q = double_quotient(a as nat, b as nat);
            round_div(100 * q.0, q.1)
        }),
{
    let whole: u128 = a / b;
    let digits: u32 = bits(whole);
    proof {
        lemma_powers();
        lemma_bit_length(whole as nat);
        vstd::arithmetic::div_mod::lemma_fundamental_div_mod(a as int, b as int);
        assert(whole >= 1) by (nonlinear_arith)
            requires
                a == b * whole + a % b,
                a % b < b,
                b <= a,
        ;
        assert(whole * 1000 <= a) by (nonlinear_arith)
            requires
                a == b * whole + a % b,
                a % b >= 0,
                b >= 1000,
                whole >= 0,
        ;
    }
    if digits >= 53 {
        let unit: u128 = two_to(digits - 53);
        proof {
            if digits > 54 || digits == 53 {
                lemma_pow2_strictly_increases(
                    (digits - 53) as nat,
                    (digits - 1) as nat,
                );
            } else {
                lemma_pow2_strictly_increases(1, 53);
            }
            assert(b * unit <= a) by (nonlinear_arith)
                requires
                    unit <= whole,
                    b * whole <= a,
                    b > 0,
            ;
            lemma_pow2_pos((digits - 53) as nat);
            assert(b * unit > 0) by (nonlinear_arith)
                requires
                    b > 0,
                    unit > 0,
            ;
        }
        let m: u128 = rounded_quotient(a, b * unit);
        proof {
            vstd::arithmetic::div_mod::lemma_div_denominator(a as int, b as int, unit as int);
            vstd::arithmetic::div_mod::lemma_fundamental_div_mod(whole as int, unit as int);
            let d = whole as int / unit as int;
            assert(m <= d + 1);
            assert(m * unit <= whole + unit) by (nonlinear_arith)
                requires
                    m <= d + 1,
                    unit * d <= whole,
                    unit > 0,
            ;
            let n = (100 * (m * unit)) as nat;
            assert(n / 1 == n && n % 1 == 0);
        }
        100 * (m * unit)
    } else {
        let parts: u128 = two_to(53 - digits);
        proof {
            lemma_pow2_adds(digits as nat, (53 - digits) as nat);
            lemma_pow2_pos((53 - digits) as nat);
            let top = pow2(digits as nat) as int;
            assert(a < b * top) by (nonlinear_arith)
                requires
                    a == b * whole + a % b,
                    a % b < b,
                    whole + 1 <= top,
                    b > 0,
            ;
            assert(a * parts < 0x20_0000_0000_0000 * b) by (nonlinear_arith)
                requires
                    a < b * top,
                    top * parts == 0x20_0000_0000_0000,
                    parts > 0,
            ;
            lemma_round_div_bound((a * parts) as nat, b as nat, 0x20_0000_0000_0000);
        }
        let m: u128 = rounded_quotient(a * parts, b);
        rounded_quotient(100 * m, parts)
    }
}

/// What the largest numbers come to, which double precision rounds up to a power of two.
proof fn lemma_top_quotient()
    ensures
        double_quotient(pow2(128), 1_000_000_000_000_000) == (
            round_div(pow2(102), 1_000_000_000_000_000) * pow2(26),
            1nat,
        ),
{
    let d = 1_000_000_000_000_000nat;
    lemma_powers();
    lemma_pow2_adds(64, 38);
    lemma_pow2_adds(64, 14);
    lemma_pow2_adds(64, 15);
    lemma_pow2_adds(102, 26);
    assert(pow2(78) <= pow2(128) / d < pow2(79));
    lemma_bit_length_is(pow2(128) / d, 79);
    lemma_round_div_scaled(pow2(102), d, pow2(26));
}

/// A number in hundredths of its unit.
fn hundredths(value: u128, divisor: u128) -> (r: u128)
    requires
        1_000 <= divisor <= 1_000_000_000_000_000,
        divisor <= value,
        value >= 1_000_000_000_000_000 ==> divisor == 1_000_000_000_000_000,
    ensures
        r == hundredths_of(value as nat, divisor as nat),
{
    let digits: u32 = bits(value);
    if digits <= 53 {
        return quotient_hundredths(value, divisor);
    }
    let unit: u128 = two_to(digits - 53);
    proof {
        lemma_pow2_pos((digits - 53) as nat);
    }
    let m: u128 = rounded_quotient(value, unit);
    proof {
        lemma_powers();
        lemma_bit_length(value as nat);
        lemma_pow2_adds(53, (digits - 53) as nat);
        lemma_round_div_bound(value as nat, unit as nat, 0x20_0000_0000_0000);
        lemma_pow2_adds(64, 38);
        assert(m * unit <= 0x20_0000_0000_0000 * unit) by (nonlinear_arith)
            requires
                m <= 0x20_0000_0000_0000,
                unit >= 0,
        ;
    }
    if m == 0x20_0000_0000_0000 && digits == 128 {
        proof {
            lemma_top_quotient();
        }
        let top: u128 = rounded_quotient(two_to(102), divisor);
        proof {
            lemma_round_div_bound(pow2(102), divisor as nat, 0x20_0000_0000_0000);
            let n = (100 * (top * pow2(26))) as nat;
            assert(n / 1 == n && n % 1 == 0);
        }
        return 100 * (top * two_to(26));
    }
    proof {
        if digits < 128 {
            if digits < 127 {
                lemma_pow2_strictly_increases(digits as nat, 127);
            }
        } else {
            assert(m * unit <= (0x20_0000_0000_0000 - 1) * unit) by (nonlinear_arith)
                requires
                    m <= 0x20_0000_0000_0000 - 1,
                    unit >= 0,
            ;
        }
        lemma_rounded_keeps_unit(value as nat, divisor as nat, digits as nat);
    }
    quotient_hundredths(m * unit, divisor)
}

/// Rounding to double precision does not take a number below a divisor of at most 53 digits.
proof fn lemma_rounded_keeps_unit(value: nat, divisor: nat, digits: nat)
    requires
        digits == bit_length(value),
        digits > 53,
        divisor <= 1_000_000_000_000_000,
    ensures
        divisor <= round_div(value, pow2((digits - 53) as nat)) * pow2((digits - 53) as nat),
{
    lemma_powers();
    let unit = pow2((digits - 53) as nat);
    lemma_pow2_pos((digits - 53) as nat);
    lemma_bit_length(value);
    lemma_pow2_adds(52, (digits - 53) as nat);
    vstd::arithmetic::div_mod::lemma_fundamental_div_mod(value as int, unit as int);
    let q = value / unit;
    assert(q >= 0x10_0000_0000_0000) by (nonlinear_arith)
        requires
            value == unit * q + value % unit,
            value % unit < unit,
            0x10_0000_0000_0000 * unit <= value,
            unit > 0,
    ;
    let m = round_div(value, unit);
    assert(m * unit >= m) by (nonlinear_arith)
        requires
            unit >= 1,
            m >= 0,
    ;
}

fn push_hundredths(out: &mut String, h: u128)
    ensures
        final(out)@ == old(out)@ + two_decimals(h as nat),
{
    push_decimal(out, h / 100);
    out.append(".");
    push_decimal(out, (h / 10) % 10);
    push_decimal(out, h % 10);
    assert(out@ =~= old(out)@ + two_decimals(h as nat));
}

fn in_units(value: u128, divisor: u128, suffix: &str) -> (r: String)
    requires
        1_000 <= divisor <= 1_000_000_000_000_000,
        divisor <= value,
        value >= 1_000_000_000_000_000 ==> divisor == 1_000_000_000_000_000,
    ensures
        r@ == two_decimals(hundredths_of(value as nat, divisor as nat)) + suffix@,
{
    let mut out = String::from_str("");
    push_hundredths(&mut out, hundredths(value, divisor));
    proof {
        reveal_strlit("");
        assert(out@ =~= two_decimals(hundredths_of(value as nat, divisor as nat)));
    }
    out.append(suffix);
    out
}

/// A number in short form.
pub fn compact_u128(value: u128) -> (r: String)
    ensures
        r@ == compact_text(value as nat),
{
    if value >= 1_000_000_000_000_000 {
        in_units(value, 1_000_000_000_000_000, "Q")
    } else if value >= 1_000_000_000_000 {
        in_units(value, 1_000_000_000_000, "T")
    } else if value >= 1_000_000_000 {
        in_units(value, 1_000_000_000, "B")
    } else if value >= 1_000_000 {
        in_units(value, 1_000_000, "M")
    } else if value >= 1_000 {
        in_units(value, 1_000, "K")
    } else {
        let mut out = String::from_str("");
        push_decimal(&mut out, value);
        proof {
            reveal_strlit("");
            assert(out@ =~= decimal_text(value as nat));
        }
        out
    }
}

/// A larger number does not round to a smaller quotient.
proof fn lemma_round_div_grows(a: nat, b: nat, d: nat)
    requires
        0 < d,
        a <= b,
    ensures
        round_div(a, d) <= round_div(b, d),
{
    vstd::arithmetic::div_mod::lemma_fundamental_div_mod(a as int, d as int);
    vstd::arithmetic::div_mod::lemma_fundamental_div_mod(b as int, d as int);
    let (qa, qb) = (a / d, b / d);
    assert(qa <= qb && (qa == qb ==> a % d <= b % d)) by (nonlinear_arith)
        requires
            a == d * qa + a % d,
            b == d * qb + b % d,
            0 <= a % d < d,
            0 <= b % d < d,
            a <= b,
    ;
}

/// A larger fraction does not round to a smaller integer.
proof fn lemma_round_fraction_grows(a: nat, c: nat, b: nat, d: nat)
    requires
        0 < c,
        0 < d,
        a * d <= b * c,
    ensures
        round_div(a, c) <= round_div(b, d),
{
    lemma_round_div_scaled(a, c, d);
    lemma_round_div_scaled(b, d, c);
    assert(c * d == d * c && c * d > 0) by (nonlinear_arith)
        requires
            0 < c,
            0 < d,
    ;
    lemma_round_div_grows(a * d, b * c, c * d);
}

/// What lies at or above a multiple of the divisor rounds to no less.
proof fn lemma_round_div_least(a: nat, d: nat, n: nat)
    requires
        0 < d,
        n * d <= a,
    ensures
        n <= round_div(a, d),
{
    vstd::arithmetic::div_mod::lemma_fundamental_div_mod(a as int, d as int);
    let q = a / d;
    assert(n <= q) by (nonlinear_arith)
        requires
            a == d * q + a % d,
            a % d < d,
            n * d <= a,
            0 < d,
    ;
}

/// A shorter number lies below the least number of a greater length.
proof fn lemma_shorter(a: nat, b: nat)
    requires
        a <= b,
    ensures
        bit_length(a) <= bit_length(b),
        bit_length(a) < bit_length(b) ==> pow2(bit_length(a)) <= pow2((bit_length(b) - 1) as nat),
{
    let (la, lb) = (bit_length(a), bit_length(b));
    lemma_bit_length(a);
    lemma_bit_length(b);
    if la > lb && lb < la - 1 {
        lemma_pow2_strictly_increases(lb, (la - 1) as nat);
    }
    if la < lb && la < lb - 1 {
        lemma_pow2_strictly_increases(la, (lb - 1) as nat);
    }
}

/// Double precision keeps a number between the powers of two that its length names.
proof fn lemma_double_range(v: nat)
    ensures
        double_of(v) <= pow2(bit_length(v)),
        v > 0 ==> pow2((bit_length(v) - 1) as nat) <= double_of(v),
{
    let l = bit_length(v);
    lemma_bit_length(v);
    if l > 53 {
        let k = (l - 53) as nat;
        let unit = pow2(k);
        lemma_pow2_pos(k);
        lemma_pow2_adds(53, k);
        lemma_pow2_adds(52, k);
        lemma_round_div_bound(v, unit, pow2(53));
        lemma_round_div_least(v, unit, pow2(52));
        let m = round_div(v, unit);
        assert(pow2(52) * unit <= m * unit <= pow2(53) * unit) by (nonlinear_arith)
            requires
                pow2(52) <= m <= pow2(53),
        ;
    }
}

/// Double precision keeps the order of numbers.
proof fn lemma_double_grows(a: nat, b: nat)
    requires
        a <= b,
    ensures
        double_of(a) <= double_of(b),
{
    lemma_shorter(a, b);
    if bit_length(a) < bit_length(b) {
        lemma_double_range(a);
        lemma_double_range(b);
    } else if bit_length(a) > 53 {
        let unit = pow2((bit_length(a) - 53) as nat);
        lemma_pow2_pos((bit_length(a) - 53) as nat);
        lemma_round_div_grows(a, b, unit);
        assert(round_div(a, unit) * unit <= round_div(b, unit) * unit) by (nonlinear_arith)
            requires
                round_div(a, unit) <= round_div(b, unit),
        ;
    }
}

/// Double precision keeps a quotient between the powers of two that its length names.
proof fn lemma_quotient_range(a: nat, b: nat)
    requires
        0 < b <= a,
    ensures
        ({
            let q = double_quotient(a, b);
            let l = bit_length(a / b);
            &&& 0 < q.1
            &&& 0 < l
            &&& pow2((l - 1) as nat) * q.1 <= q.0 <= pow2(l) * q.1
        }),
{
    let whole = a / b;
    let l = bit_length(whole);
    vstd::arithmetic::div_mod::lemma_fundamental_div_mod(a as int, b as int);
    assert(whole >= 1) by (nonlinear_arith)
        requires
            a == b * whole + a % b,
            a % b < b,
            0 < b <= a,
    ;
    lemma_bit_length(whole);
    let (low, high) = (pow2((l - 1) as nat), pow2(l));
    assert(low * b <= a < high * b) by (nonlinear_arith)
        requires
            a == b * whole + a % b,
            0 <= a % b < b,
            low <= whole,
            whole + 1 <= high,
    ;
    if l >= 53 {
        let k = (l - 53) as nat;
        let unit = pow2(k);
        lemma_pow2_pos(k);
        lemma_pow2_adds(53, k);
        lemma_pow2_adds(52, k);
        let m = round_div(a, b * unit);
        assert(pow2(52) * (b * unit) == low * b && pow2(53) * (b * unit) == high * b && b * unit
            > 0) by (nonlinear_arith)
            requires
                low == pow2(52) * unit,
                high == pow2(53) * unit,
                b > 0,
                unit > 0,
        ;
        lemma_round_div_bound(a, b * unit, pow2(53));
        lemma_round_div_least(a, b * unit, pow2(52));
        assert(pow2(52) * unit <= m * unit <= pow2(53) * unit) by (nonlinear_arith)
            requires
                pow2(52) <= m <= pow2(53),
        ;
    } else {
        let k = (53 - l) as nat;
        let parts = pow2(k);
        lemma_pow2_pos(k);
        lemma_pow2_adds(l, k);
        lemma_pow2_adds((l - 1) as nat, k);
        assert((low * parts) * b <= a * parts < (high * parts) * b) by (nonlinear_arith)
            requires
                low * b <= a < high * b,
                parts > 0,
        ;
        lemma_round_div_bound(a * parts, b, high * parts);
        lemma_round_div_least(a * parts, b, low * parts);
    }
}

/// Double precision keeps the order of quotients by one divisor.
proof fn lemma_quotient_grows(a: nat, b: nat, d: nat)
    requires
        0 < d <= a,
        a <= b,
    ensures
        ({
            let p = double_quotient(a, d);
            let q = double_quotient(b, d);
            0 < p.1 && 0 < q.1 && p.0 * q.1 <= q.0 * p.1
        }),
{
    let p = double_quotient(a, d);
    let q = double_quotient(b, d);
    lemma_quotient_range(a, d);
    lemma_quotient_range(b, d);
    vstd::arithmetic::div_mod::lemma_div_is_ordered(a as int, b as int, d as int);
    lemma_shorter(a / d, b / d);
    let (la, lb) = (bit_length(a / d), bit_length(b / d));
    if la < lb {
        let (top, low) = (pow2(la), pow2((lb - 1) as nat));
        assert(p.0 * q.1 <= q.0 * p.1) by (nonlinear_arith)
            requires
                p.0 <= top * p.1,
                low * q.1 <= q.0,
                top <= low,
                0 < p.1,
                0 < q.1,
        ;
    } else {
        if la >= 53 {
            let unit = pow2((la - 53) as nat);
            lemma_pow2_pos((la - 53) as nat);
            assert(d * unit > 0) by (nonlinear_arith)
                requires
                    d > 0,
                    unit > 0,
            ;
            lemma_round_div_grows(a, b, d * unit);
            let (m, n) = (round_div(a, d * unit), round_div(b, d * unit));
            assert(m * unit <= n * unit) by (nonlinear_arith)
                requires
                    m <= n,
            ;
        } else {
            let parts = pow2((53 - la) as nat);
            assert(a * parts <= b * parts) by (nonlinear_arith)
                requires
                    a <= b,
            ;
            lemma_round_div_grows(a * parts, b * parts, d);
        }
        assert(p.1 == q.1 && p.0 <= q.0);
        assert(p.0 * q.1 <= q.0 * p.1) by (nonlinear_arith)
            requires
                p.1 == q.1,
                p.0 <= q.0,
        ;
    }
}

/// Double precision does not take a number below its unit.
proof fn lemma_double_keeps_unit(value: nat, divisor: nat)
    requires
        divisor <= value,
        divisor <= 1_000_000_000_000_000,
    ensures
        divisor <= double_of(value),
{
    if bit_length(value) > 53 {
        lemma_rounded_keeps_unit(value, divisor, bit_length(value));
    }
}

/// The number before the letter of a short form, in hundredths.
pub open spec fn shown_hundredths(value: nat) -> nat {
    match unit_of(value) {
        Some((divisor, _)) => hundredths_of(value, divisor),
        None => 100 * value,
    }
}

/// Within one unit, or below all units, the number before the letter does not fall as the value
/// grows.
pub proof fn law_short_form_grows(a: nat, b: nat)
    requires
        a <= b,
        unit_of(a) == unit_of(b),
    ensures
        shown_hundredths(a) <= shown_hundredths(b),
{
    if let Some((divisor, suffix)) = unit_of(a) {
        lemma_double_keeps_unit(a, divisor);
        lemma_double_grows(a, b);
        let p = double_quotient(double_of(a), divisor);
        let q = double_quotient(double_of(b), divisor);
        lemma_quotient_grows(double_of(a), double_of(b), divisor);
        assert((100 * p.0) * q.1 <= (100 * q.0) * p.1) by (nonlinear_arith)
            requires
                p.0 * q.1 <= q.0 * p.1,
        ;
        lemma_round_fraction_grows(100 * p.0, p.1, 100 * q.0, q.1);
    }
}

/// The text of a number of hundredths stands for it: before the point are the whole ones, behind
/// it two digits for the rest.
pub proof fn law_two_decimals_read_back(h: nat)
    ensures
        decimal_value(decimal_text(h / 100)) == h / 100,
        decimal_text((h / 10) % 10).len() == 1,
        decimal_text(h % 10).len() == 1,
        decimal_value(decimal_text((h / 10) % 10)) * 10 + decimal_value(decimal_text(h % 10)) == h
            % 100,
{
    lemma_decimal_roundtrip(h / 100);
    lemma_decimal_roundtrip((h / 10) % 10);
    lemma_decimal_roundtrip(h % 10);
}

/// A rounded quotient is the nearest integer, and the even one of two that are as near.
pub proof fn law_rounded_is_nearest(a: nat, b: nat)
    requires
        0 < b,
    ensures
        ({
            let off = 2 * (b * round_div(a, b) - a);
            &&& -b <= off <= b
            &&& off == b || off == -b ==> round_div(a, b) % 2 == 0
        }),
{
    vstd::arithmetic::div_mod::lemma_fundamental_div_mod(a as int, b as int);
    let q = a / b;
    assert(b * (q + 1) == b * q + b) by (nonlinear_arith);
}

/// Double precision keeps 53 binary digits: shorter numbers stay as they are, and of longer ones
/// it takes the nearest multiple of the place of the last digit, the even one of two.
pub proof fn law_double_is_nearest(v: nat, k: nat)
    ensures
        v < pow2(53) ==> double_of(v) == v,
        pow2(k + 52) <= v < pow2(k + 53) ==> ({
            let d = double_of(v);
            let place = pow2(k) as int;
            let off = 2 * (d - v);
            &&& d as int % place == 0
            &&& -place <= off <= place
            &&& off == place || off == -place ==> (d as int / place) % 2 == 0
        }),
{
    lemma_powers();
    lemma_bit_length(v);
    let l = bit_length(v);
    if v < pow2(53) && l > 53 {
        if l > 54 {
            lemma_pow2_strictly_increases(53, (l - 1) as nat);
        }
    }
    if pow2(k + 52) <= v < pow2(k + 53) {
        lemma_bit_length_is(v, k + 53);
        if k > 0 {
            let place = pow2(k);
            lemma_pow2_pos(k);
            law_rounded_is_nearest(v, place);
            let m = round_div(v, place);
            assert(place * m == m * place) by (nonlinear_arith);
            vstd::arithmetic::div_mod::lemma_mod_multiples_basic(m as int, place as int);
            vstd::arithmetic::div_mod::lemma_div_by_multiple(m as int, place as int);
        }
    }
}

/// A quotient in double precision is the nearest with 53 binary digits, the even one of two.
pub proof fn law_quotient_is_nearest(a: nat, b: nat, l: nat)
    requires
        0 < b,
        pow2(l) * b <= a < pow2(l + 1) * b,
    ensures
        l >= 52 ==> ({
            let q = double_quotient(a, b);
            let place = pow2((l - 52) as nat) as int;
            let off = 2 * (q.0 * b - a);
            &&& q.1 == 1
            &&& q.0 as int % place == 0
            &&& -(b * place) <= off <= b * place
            &&& off == b * place || off == -(b * place) ==> (q.0 as int / place) % 2 == 0
        }),
        l < 52 ==> ({
            let q = double_quotient(a, b);
            let off = 2 * (q.0 * b - a * q.1);
            &&& q.1 == pow2((52 - l) as nat)
            &&& -b <= off <= b
            &&& off == b || off == -b ==> q.0 % 2 == 0
        }),
{
    let whole = a / b;
    let (low, high) = (pow2(l), pow2(l + 1));
    vstd::arithmetic::div_mod::lemma_fundamental_div_mod(a as int, b as int);
    assert(low <= whole < high) by (nonlinear_arith)
        requires
            a == b * whole + a % b,
            0 <= a % b < b,
            low * b <= a < high * b,
    ;
    lemma_bit_length_is(whole, l + 1);
    if l >= 52 {
        let place = pow2((l - 52) as nat);
        lemma_pow2_pos((l - 52) as nat);
        assert(b * place > 0) by (nonlinear_arith)
            requires
                b > 0,
                place > 0,
        ;
        law_rounded_is_nearest(a, b * place);
        let m = round_div(a, b * place);
        assert((b * place) * m == (m * place) * b) by (nonlinear_arith);
        vstd::arithmetic::div_mod::lemma_mod_multiples_basic(m as int, place as int);
        vstd::arithmetic::div_mod::lemma_div_by_multiple(m as int, place as int);
    } else {
        let parts = pow2((52 - l) as nat);
        law_rounded_is_nearest(a * parts, b);
        let m = round_div(a * parts, b);
        assert(b * m == m * b) by (nonlinear_arith);
    }
}

/// Double precision is off by at most one in 2^53.
proof fn lemma_double_error(v: nat)
    ensures
        -v <= 0x20_0000_0000_0000 * (double_of(v) - v) <= v,
{
    lemma_powers();
    lemma_bit_length(v);
    let l = bit_length(v);
    if l > 53 {
        let k = (l - 53) as nat;
        law_double_is_nearest(v, k);
        lemma_pow2_adds(k, 52);
        assert(pow2(k + 52) == pow2(k) * 0x10_0000_0000_0000);
    }
}

/// A quotient in double precision is off by at most one in 2^53.
proof fn lemma_quotient_error(a: nat, b: nat)
    requires
        0 < b <= a,
    ensures
        ({
            let q = double_quotient(a, b);
            &&& 0 < q.1
            &&& -(a * q.1) <= 0x20_0000_0000_0000 * (q.0 * b - a * q.1) <= a * q.1
        }),
{
    lemma_powers();
    let q = double_quotient(a, b);
    let whole = a / b;
    lemma_quotient_range(a, b);
    lemma_bit_length(whole);
    vstd::arithmetic::div_mod::lemma_fundamental_div_mod(a as int, b as int);
    let l = (bit_length(whole) - 1) as nat;
    let (low, high) = (pow2(l), pow2(l + 1));
    assert(low * b <= a < high * b) by (nonlinear_arith)
        requires
            a == b * whole + a % b,
            0 <= a % b < b,
            low <= whole,
            whole + 1 <= high,
    ;
    law_quotient_is_nearest(a, b, l);
    let off = q.0 * b - a * q.1;
    if l >= 52 {
        let place = pow2((l - 52) as nat);
        lemma_pow2_adds((l - 52) as nat, 52);
        assert(low * b == 0x10_0000_0000_0000 * (b * place)) by (nonlinear_arith)
            requires
                low == place * 0x10_0000_0000_0000,
        ;
        assert(a * q.1 == a) by (nonlinear_arith)
            requires
                q.1 == 1,
        ;
    } else {
        let parts = pow2((52 - l) as nat);
        lemma_pow2_adds(l, (52 - l) as nat);
        assert(0x10_0000_0000_0000 * b <= a * parts) by (nonlinear_arith)
            requires
                low * b <= a,
                low * parts == 0x10_0000_0000_0000,
                parts > 0,
        ;
    }
}

/// The number before the letter is right to half of a hundredth, but for what double precision
/// cannot tell apart, at most six hundred parts in 2^54 of the value.
pub proof fn law_short_form_is_near(value: nat, divisor: nat)
    requires
        0 < divisor <= value,
        divisor <= 1_000_000_000_000_000,
    ensures
        ({
            let off = hundredths_of(value, divisor) * divisor - 100 * value;
            let room = 0x20_0000_0000_0000 * divisor + 600 * value;
            -room <= 0x40_0000_0000_0000 * off <= room
        }),
{
    let v = value as int;
    let d = divisor as int;
    let near = double_of(value) as int;
    lemma_double_keeps_unit(value, divisor);
    lemma_double_error(value);
    lemma_quotient_error(double_of(value), divisor);
    let q = double_quotient(double_of(value), divisor);
    let (q0, q1) = (q.0 as int, q.1 as int);
    law_rounded_is_nearest(100 * q.0, q.1);
    let h = hundredths_of(value, divisor) as int;
    let e1 = near - v;
    let e2 = q0 * d - near * q1;
    let e3 = q1 * h - 100 * q0;
    let off = h * d - 100 * v;
    assert(q1 * off == d * e3 + 100 * e2 + 100 * (q1 * e1)) by (nonlinear_arith)
        requires
            off == h * d - 100 * v,
            e1 == near - v,
            e2 == q0 * d - near * q1,
            e3 == q1 * h - 100 * q0,
    ;
    let room = 0x20_0000_0000_0000 * d + 600 * v;
    assert(-(d * q1) <= 2 * (d * e3) <= d * q1) by (nonlinear_arith)
        requires
            -q1 <= 2 * e3 <= q1,
            d > 0,
    ;
    assert(-(q1 * v) <= 0x20_0000_0000_0000 * (q1 * e1) <= q1 * v) by (nonlinear_arith)
        requires
            -v <= 0x20_0000_0000_0000 * e1 <= v,
            q1 > 0,
    ;
    assert(near * q1 <= 2 * (q1 * v)) by (nonlinear_arith)
        requires
            near <= 2 * v,
            q1 > 0,
    ;
    let scaled = 0x40_0000_0000_0000 * off;
    assert(q1 * room == 0x20_0000_0000_0000 * (d * q1) + 600 * (q1 * v)) by (nonlinear_arith)
        requires
            room == 0x20_0000_0000_0000 * d + 600 * v,
    ;
    assert(q1 * scaled == 0x40_0000_0000_0000 * (q1 * off)) by (nonlinear_arith)
        requires
            scaled == 0x40_0000_0000_0000 * off,
    ;
    assert(-(q1 * room) <= q1 * scaled <= q1 * room);
    assert(-room <= scaled <= room) by (nonlinear_arith)
        requires
            -(q1 * room) <= q1 * scaled <= q1 * room,
            q1 > 0,
    ;
}

/// The unit is the largest of a thousand, a million and so on up to a thousand million million
/// that is not above the number, and the letter tells which.
pub proof fn law_units(value: nat)
    ensures
        unit_of(value) is None <==> value < 1_000,
        unit_of(value) matches Some((divisor, letter)) ==> {
            &&& divisor <= value
            &&& value < 1_000 * divisor || letter == "Q"@
            &&& ({
                ||| divisor == 1_000 && letter == "K"@
                ||| divisor == 1_000 * 1_000 && letter == "M"@
                ||| divisor == 1_000 * 1_000_000 && letter == "B"@
                ||| divisor == 1_000 * 1_000_000_000 && letter == "T"@
                ||| divisor == 1_000 * 1_000_000_000_000 && letter == "Q"@
            })
        },
{
}

/// How a number is written: below a thousand all its digits, else the whole units, a point, two
/// digits and the letter.
pub proof fn law_short_form_text(value: nat)
    ensures
        value < 1_000 ==> compact_text(value) == decimal_text(value),
        unit_of(value) matches Some((divisor, letter)) ==> compact_text(value) == ({
            let h = hundredths_of(value, divisor);
            decimal_text(h / 100) + "."@ + decimal_text((h / 10) % 10) + decimal_text(h % 10)
                + letter
        }),
{
}

} // verus!
