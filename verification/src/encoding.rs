//! Text encodings and digests.

use ripemd::Ripemd160;
use sha2::{Digest, Sha256};
use vstd::prelude::*;

use crate::bytes::{be_value, lemma_be_value_concat, pow256};

verus! {

/// Whether a character is a hexadecimal digit, in either case.
pub open spec fn is_hex_digit(c: char) -> bool {
    '0' <= c <= '9' || 'a' <= c <= 'f' || 'A' <= c <= 'F'
}

/// The number a hexadecimal digit stands for.
pub open spec fn hex_digit(c: char) -> nat {
    if '0' <= c <= '9' {
        (c as int - '0' as int) as nat
    } else if 'a' <= c <= 'f' {
        (c as int - 'a' as int + 10) as nat
    } else {
        (c as int - 'A' as int + 10) as nat
    }
}

/// Every character is a hexadecimal digit.
pub open spec fn all_hex(s: Seq<char>) -> bool {
    forall|i: int| 0 <= i < s.len() ==> is_hex_digit(#[trigger] s[i])
}

/// The number a string of hexadecimal digits stands for.
pub open spec fn hex_value(s: Seq<char>) -> nat
    decreases s.len(),
{
    if s.len() == 0 {
        0
    } else {
        hex_value(s.drop_last()) * 16 + hex_digit(s.last())
    }
}

/// The bytes that pairs of hexadecimal digits stand for.
pub open spec fn hex_bytes(s: Seq<char>) -> Seq<u8> {
    Seq::new(s.len() / 2, |i: int| (16 * hex_digit(s[2 * i]) + hex_digit(s[2 * i + 1])) as u8)
}

/// The lower-case hexadecimal digit for a number below sixteen.
pub open spec fn hex_char(d: nat) -> char {
    if d < 10 {
        ('0' as int + d) as char
    } else {
        ('a' as int + d - 10) as char
    }
}

/// Two lower-case hexadecimal digits for each byte.
pub open spec fn hex_text(b: Seq<u8>) -> Seq<char> {
    Seq::new(
        2 * b.len(),
        |i: int| hex_char(if i % 2 == 0 { b[i / 2] as nat / 16 } else { b[i / 2] as nat % 16 }),
    )
}

/// Pairs of hexadecimal digits stand for the same number as the bytes they make up.
pub proof fn lemma_hex_bytes_value(s: Seq<char>)
    requires
        s.len() % 2 == 0,
        all_hex(s),
    ensures
        be_value(hex_bytes(s)) == hex_value(s),
    decreases s.len(),
{
    if s.len() > 0 {
        let shorter = s.drop_last().drop_last();
        assert forall|i: int| 0 <= i < shorter.len() implies is_hex_digit(#[trigger] shorter[i]) by {
            assert(shorter[i] == s[i]);
        }
        lemma_hex_bytes_value(shorter);
        assert(hex_bytes(s).drop_last() =~= hex_bytes(shorter));
        let n = s.len() as int;
        assert(is_hex_digit(s[n - 1]) && is_hex_digit(s[n - 2]));
        assert(s.drop_last().last() == s[n - 2]);
        assert(hex_value(s.drop_last()) == hex_value(shorter) * 16 + hex_digit(s[n - 2]));
        assert(hex_bytes(s).last() as nat == 16 * hex_digit(s[n - 2]) + hex_digit(s[n - 1]));
    }
}

/// A leading zero digit adds nothing.
pub proof fn lemma_hex_value_leading_zero(s: Seq<char>)
    ensures
        hex_value(seq!['0'] + s) == hex_value(s),
    decreases s.len(),
{
    let t = seq!['0'] + s;
    if s.len() == 0 {
        assert(t =~= seq!['0']);
        assert(t.drop_last() =~= Seq::<char>::empty());
        assert(t.last() == '0' && hex_digit('0') == 0);
        assert(hex_value(t.drop_last()) == 0);
        assert(hex_value(t) == hex_value(t.drop_last()) * 16 + hex_digit(t.last()));
    } else {
        lemma_hex_value_leading_zero(s.drop_last());
        assert(t.drop_last() =~= seq!['0'] + s.drop_last());
        assert(t.last() == s.last());
    }
}

/// `hex::decode`: the bytes that the digit pairs stand for; fails on an odd number of digits and
/// on any character that is no hexadecimal digit.
#[verifier::external_body]
pub(crate) fn hex_decode(text: &str) -> (r: Option<Vec<u8>>)
    ensures
        r is Some <==> (text@.len() % 2 == 0 && all_hex(text@)),
        r is Some ==> r->0@ == hex_bytes(text@),
{
    hex::decode(text).ok()
}

/// `hex::encode`: two lower-case digits for each byte.
#[verifier::external_body]
pub(crate) fn hex_encode(data: &[u8]) -> (r: String)
    ensures
        r@ == hex_text(data@),
{
    hex::encode(data)
}

/// The digits of a number in base 58, most significant first; none for zero.
pub open spec fn base58_digits(v: nat) -> Seq<char>
    decreases v,
{
    if v == 0 {
        Seq::empty()
    } else {
        base58_digits(v / 58).push(
            "123456789ABCDEFGHJKLMNPQRSTUVWXYZabcdefghijkmnopqrstuvwxyz"@[(v % 58) as int],
        )
    }
}

/// How many zero bytes a byte string starts with.
pub open spec fn leading_zero_bytes(s: Seq<u8>) -> nat
    decreases s.len(),
{
    if s.len() == 0 || s[0] != 0 {
        0
    } else {
        1 + leading_zero_bytes(s.drop_first())
    }
}

/// Base-58 text: a `1` for each leading zero byte, then the digits of the number that the bytes
/// stand for.
pub open spec fn base58_text(s: Seq<u8>) -> Seq<char> {
    Seq::new(leading_zero_bytes(s), |i: int| '1') + base58_digits(be_value(s))
}

/// The digit that a character of Bitcoin's base-58 alphabet stands for.
pub open spec fn base58_digit(c: char) -> nat {
    if '1' <= c <= '9' {
        (c as int - '1' as int) as nat
    } else if 'A' <= c <= 'H' {
        (c as int - 'A' as int + 9) as nat
    } else if 'J' <= c <= 'N' {
        (c as int - 'J' as int + 17) as nat
    } else if 'P' <= c <= 'Z' {
        (c as int - 'P' as int + 22) as nat
    } else if 'a' <= c <= 'k' {
        (c as int - 'a' as int + 33) as nat
    } else {
        (c as int - 'm' as int + 44) as nat
    }
}

/// The number that base-58 digits stand for.
pub open spec fn base58_value(t: Seq<char>) -> nat
    decreases t.len(),
{
    if t.len() == 0 {
        0
    } else {
        base58_value(t.drop_last()) * 58 + base58_digit(t.last())
    }
}

/// How many times a text starts with `1`.
pub open spec fn leading_ones(t: Seq<char>) -> nat
    decreases t.len(),
{
    if t.len() == 0 || t[0] != '1' {
        0
    } else {
        1 + leading_ones(t.drop_first())
    }
}

/// The bytes of a number, most significant first, without leading zeros.
pub open spec fn short_bytes(v: nat) -> Seq<u8>
    decreases v,
{
    if v == 0 {
        Seq::empty()
    } else {
        short_bytes(v / 256).push((v % 256) as u8)
    }
}

/// The bytes that a base-58 text stands for: a zero for each leading `1`, then those of the number.
pub open spec fn base58_bytes(t: Seq<char>) -> Seq<u8> {
    Seq::new(leading_ones(t), |i: int| 0u8) + short_bytes(base58_value(t))
}

/// Each character of the alphabet stands for its place, and only the first is a `1`.
proof fn lemma_alphabet(d: int)
    requires
        0 <= d < 58,
    ensures
        ({
            let c = "123456789ABCDEFGHJKLMNPQRSTUVWXYZabcdefghijkmnopqrstuvwxyz"@[d];
            base58_digit(c) == d && (c == '1' <==> d == 0)
        }),
{
    reveal_strlit("123456789ABCDEFGHJKLMNPQRSTUVWXYZabcdefghijkmnopqrstuvwxyz");
}

/// The digits of a number stand for it, and do not start with `1`.
proof fn lemma_base58_digits(v: nat)
    ensures
        base58_value(base58_digits(v)) == v,
        v > 0 ==> base58_digits(v).len() > 0 && base58_digits(v)[0] != '1',
    decreases v,
{
    if v > 0 {
        lemma_base58_digits(v / 58);
        lemma_alphabet((v % 58) as int);
        let t = base58_digits(v);
        assert(t.drop_last() =~= base58_digits(v / 58));
        if v / 58 > 0 {
            assert(t[0] == base58_digits(v / 58)[0]);
        }
    }
}

/// Leading ones add nothing to the number, and are counted.
proof fn lemma_leading_ones(z: nat, t: Seq<char>)
    requires
        t.len() > 0 ==> t[0] != '1',
    ensures
        base58_value(Seq::new(z, |i: int| '1') + t) == base58_value(t),
        leading_ones(Seq::new(z, |i: int| '1') + t) == z,
    decreases z,
{
    let ones = Seq::new(z, |i: int| '1');
    if z == 0 {
        assert(ones + t =~= t);
    } else {
        let fewer = Seq::new((z - 1) as nat, |i: int| '1');
        lemma_leading_ones((z - 1) as nat, t);
        assert((ones + t).drop_first() =~= fewer + t);
        assert(ones + t =~= seq!['1'] + (fewer + t));
        lemma_leading_one_value(fewer + t);
    }
}

proof fn lemma_leading_one_value(t: Seq<char>)
    ensures
        base58_value(seq!['1'] + t) == base58_value(t),
    decreases t.len(),
{
    let longer = seq!['1'] + t;
    if t.len() == 0 {
        assert(longer.drop_last() =~= Seq::<char>::empty());
        assert(base58_value(longer.drop_last()) == 0);
        assert(base58_digit(longer.last()) == 0);
    } else {
        lemma_leading_one_value(t.drop_last());
        assert(longer.drop_last() =~= seq!['1'] + t.drop_last());
    }
}

/// Bytes are their leading zeros and the bytes of their number.
proof fn lemma_short_bytes(s: Seq<u8>)
    ensures
        Seq::new(leading_zero_bytes(s), |i: int| 0u8) + short_bytes(be_value(s)) == s,
    decreases s.len(),
{
    let zeros = Seq::new(leading_zero_bytes(s), |i: int| 0u8);
    if s.len() > 0 && s[0] == 0 {
        let rest = s.drop_first();
        lemma_short_bytes(rest);
        assert(s =~= seq![0u8] + rest);
        lemma_be_value_concat(seq![0u8], rest);
        assert(be_value(seq![0u8]) == 0) by {
            assert(seq![0u8].drop_last() =~= Seq::<u8>::empty());
            assert(be_value(seq![0u8].drop_last()) == 0);
        }
        assert(0 * pow256(rest.len()) == 0);
        assert(zeros =~= seq![0u8] + Seq::new(leading_zero_bytes(rest), |i: int| 0u8));
        assert(zeros + short_bytes(be_value(s)) =~= s);
    } else {
        lemma_short_bytes_whole(s);
        assert(zeros + short_bytes(be_value(s)) =~= s);
    }
}

proof fn lemma_short_bytes_whole(s: Seq<u8>)
    requires
        s.len() > 0 ==> s[0] != 0,
    ensures
        short_bytes(be_value(s)) == s,
    decreases s.len(),
{
    if s.len() > 0 {
        let shorter = s.drop_last();
        lemma_short_bytes_whole(shorter);
        if shorter.len() > 0 {
            assert(be_value(shorter) > 0);
        }
        assert(s =~= shorter.push(s.last()));
    }
}

/// Base-58 text gives back the bytes it was made from.
pub proof fn law_base58_reads_back(s: Seq<u8>)
    ensures
        base58_bytes(base58_text(s)) == s,
{
    let v = be_value(s);
    lemma_base58_digits(v);
    lemma_leading_ones(leading_zero_bytes(s), base58_digits(v));
    lemma_short_bytes(s);
}

/// Different bytes have different base-58 texts.
pub proof fn law_base58_tells_apart(a: Seq<u8>, b: Seq<u8>)
    requires
        base58_text(a) == base58_text(b),
    ensures
        a == b,
{
    law_base58_reads_back(a);
    law_base58_reads_back(b);
}

/// `58` to the power `n`.
pub open spec fn pow58(n: nat) -> nat
    decreases n,
{
    if n == 0 {
        1
    } else {
        58 * pow58((n - 1) as nat)
    }
}

/// A number between two neighbouring powers of 58 has the number of digits that they name, and
/// starts with its quotient by the lower power.
pub proof fn lemma_base58_length(v: nat, n: nat)
    requires
        n > 0,
        pow58((n - 1) as nat) <= v < pow58(n),
    ensures
        base58_digits(v).len() == n,
        v / pow58((n - 1) as nat) < 58,
        base58_digits(v)[0]
            == "123456789ABCDEFGHJKLMNPQRSTUVWXYZabcdefghijkmnopqrstuvwxyz"@[(v / pow58(
            (n - 1) as nat,
        )) as int],
    decreases n,
{
    if n == 1 {
        assert(pow58(0) == 1);
        assert(pow58(1) == 58 * pow58(0));
        assert(base58_digits(v / 58) =~= Seq::<char>::empty());
    } else {
        let low = pow58((n - 2) as nat);
        assert(pow58((n - 1) as nat) == 58 * low);
        assert(low > 0) by {
            lemma_pow58_pos((n - 2) as nat);
        }
        lemma_base58_length(v / 58, (n - 1) as nat);
        vstd::arithmetic::div_mod::lemma_div_denominator(v as int, 58, low as int);
        assert(base58_digits(v)[0] == base58_digits(v / 58)[0]);
    }
}

proof fn lemma_pow58_pos(n: nat)
    ensures
        pow58(n) > 0,
    decreases n,
{
    if n > 0 {
        lemma_pow58_pos((n - 1) as nat);
    }
}

proof fn lemma_pow58_adds(a: nat, b: nat)
    ensures
        pow58(a + b) == pow58(a) * pow58(b),
    decreases a,
{
    if a == 0 {
        assert(1 * pow58(b) == pow58(b));
    } else {
        lemma_pow58_adds((a - 1) as nat, b);
        let p = pow58((a - 1) as nat);
        assert((58 * p) * pow58(b) == 58 * (p * pow58(b))) by (nonlinear_arith);
    }
}

/// The largest power of 58 that the payload of a private key reaches.
pub proof fn lemma_pow58_51()
    ensures
        pow58(51)
            == 0x6C2_91AA_261B_1B72_2FB3_FD8A_5973_B2EC_631F_BB1D_7E13_953A_F3F3_D057_12E1_9028_0000_0000_0000nat,
{
    reveal_with_fuel(pow58, 4);
    assert(pow58(3) == 0x2_FA28nat);
    lemma_pow58_adds(3, 3);
    assert(pow58(6) == 0x8_DD12_2640nat);
    lemma_pow58_adds(6, 6);
    assert(pow58(12) == 0x4E_900A_BB53_E6B7_1000nat);
    lemma_pow58_adds(12, 12);
    assert(pow58(24) == 0x181C_1796_3A52_26BD_66DC_1C01_D3A7_E100_0000nat);
    lemma_pow58_adds(24, 24);
    assert(pow58(48)
        == 0x245_4781_55F8_7FDF_253C_87C1_38DD_5572_92E3_5E9A_1B8C_3026_C785_ECFD_53C1_0000_0000_0000nat);
    lemma_pow58_adds(48, 3);
}

/// `bs58::encode(..).into_string()` with its default alphabet: base-58 text in Bitcoin's
/// alphabet.
#[verifier::external_body]
pub(crate) fn base58_encode(data: &[u8]) -> (r: String)
    ensures
        r@ == base58_text(data@),
{
    bs58::encode(data).into_string()
}

/// What `sha2::Sha256::digest` returns.
pub uninterp spec fn sha256_of(data: Seq<u8>) -> Seq<u8>;

/// `sha2::Sha256::digest`: the 32-byte SHA-256 digest of the data.
#[verifier::external_body]
pub(crate) fn sha256(data: &[u8]) -> (r: [u8; 32])
    ensures
        r@ == sha256_of(data@),
{
    Sha256::digest(data).into()
}

/// What hashing with `ripemd::Ripemd160` returns.
pub uninterp spec fn ripemd160_of(data: Seq<u8>) -> Seq<u8>;

/// `ripemd::Ripemd160`, fed the data and finalized: the 20-byte RIPEMD-160 digest.
#[verifier::external_body]
pub(crate) fn ripemd160(data: &[u8]) -> (r: [u8; 20])
    ensures
        r@ == ripemd160_of(data@),
{
    Ripemd160::digest(data).into()
}

/// One binary digit of a CRC-32: the register moves down, and takes in the reversed polynomial if
/// a one falls out.
pub open spec fn crc_step(register: u32) -> u32 {
    if register & 1 == 1 {
        (register >> 1) ^ 0xEDB8_8320
    } else {
        register >> 1
    }
}

/// A number of binary digits of a CRC-32.
pub open spec fn crc_steps(register: u32, n: nat) -> u32
    decreases n,
{
    if n == 0 {
        register
    } else {
        crc_step(crc_steps(register, (n - 1) as nat))
    }
}

/// The register of a CRC-32 after some bytes: all ones at first, and eight steps for each byte.
pub open spec fn crc_register(data: Seq<u8>) -> u32
    decreases data.len(),
{
    if data.len() == 0 {
        0xFFFF_FFFF
    } else {
        crc_steps(crc_register(data.drop_last()) ^ (data.last() as u32), 8)
    }
}

/// The CRC-32 of a byte string, as in ISO 3309 and gzip: the register, complemented.
#[verifier::opaque]
pub open spec fn crc32_of(data: Seq<u8>) -> u32 {
    !crc_register(data)
}

/// `crc32fast::Hasher`, fed the data and finalized: the CRC-32 of the data, with the reversed
/// polynomial `0xEDB88320`, a register of ones to start with and its complement as the result.
#[verifier::external_body]
pub(crate) fn crc32(data: &[u8]) -> (r: u32)
    ensures
        r == crc32_of(data@),
{
    let mut hasher = crc32fast::Hasher::new();
    hasher.update(data);
    hasher.finalize()
}

/// What hexadecimal digits stand for, in either case.
pub proof fn law_hex_digits(d: nat)
    ensures
        d < 10 ==> is_hex_digit(('0' as int + d) as char) && hex_digit(('0' as int + d) as char)
            == d,
        d < 6 ==> is_hex_digit(('a' as int + d) as char) && hex_digit(('a' as int + d) as char)
            == 10 + d,
        d < 6 ==> is_hex_digit(('A' as int + d) as char) && hex_digit(('A' as int + d) as char)
            == 10 + d,
{
}

/// Hexadecimal text reads back: it has two digits for each byte, and stands for the number that
/// the bytes stand for.
pub proof fn law_hex_text_reads_back(b: Seq<u8>)
    ensures
        hex_text(b).len() == 2 * b.len(),
        all_hex(hex_text(b)),
        hex_bytes(hex_text(b)) == b,
        hex_value(hex_text(b)) == be_value(b),
        forall|i: int|
            0 <= i < hex_text(b).len() ==> '0' <= #[trigger] hex_text(b)[i] <= '9' || 'a'
                <= hex_text(b)[i] <= 'f',
{
    let t = hex_text(b);
    assert forall|i: int| 0 <= i < t.len() implies is_hex_digit(#[trigger] t[i]) && ('0' <= t[i]
        <= '9' || 'a' <= t[i] <= 'f') && hex_digit(t[i]) == if i % 2 == 0 {
        b[i / 2] as nat / 16
    } else {
        b[i / 2] as nat % 16
    } by {
        let d = if i % 2 == 0 {
            b[i / 2] as nat / 16
        } else {
            b[i / 2] as nat % 16
        };
        assert(d < 16);
        assert(t[i] == hex_char(d));
    }
    assert forall|i: int| 0 <= i < b.len() implies hex_bytes(t)[i] == b[i] by {
        assert((2 * i) / 2 == i && (2 * i + 1) / 2 == i);
        assert(hex_digit(t[2 * i]) == b[i] as nat / 16);
        assert(hex_digit(t[2 * i + 1]) == b[i] as nat % 16);
    }
    assert(hex_bytes(t) =~= b);
    lemma_hex_bytes_value(t);
}

/// Each further hexadecimal digit counts by one, and what stands before it by sixteen; a text is
/// hexadecimal if all of its characters are digits, of which there are no others.
pub proof fn law_hex_counts(s: Seq<char>, c: char)
    ensures
        hex_value(Seq::empty()) == 0,
        hex_value(s.push(c)) == 16 * hex_value(s) + hex_digit(c),
        is_hex_digit(c) ==> hex_digit(c) < 16 && ('0' <= c <= '9' || 'a' <= c <= 'f' || 'A' <= c
            <= 'F'),
        all_hex(Seq::empty()),
        all_hex(s.push(c)) <==> all_hex(s) && is_hex_digit(c),
{
    assert(s.push(c).drop_last() =~= s);
    if all_hex(s.push(c)) {
        assert(is_hex_digit(s.push(c)[s.len() as int]));
        assert forall|i: int| 0 <= i < s.len() implies is_hex_digit(#[trigger] s[i]) by {
            assert(s.push(c)[i] == s[i]);
        }
    }
}

} // verus!
