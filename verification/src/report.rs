//! A solution of the search, and the texts that tell of it.

use vstd::prelude::*;

use crate::bytes::{
    be_bytes, be_value, lemma_be_roundtrip, lemma_be_value_bound, lemma_be_value_concat, pow256,
};
use crate::collect::{absorbable, law_meeting_is_told, told_by};
use crate::curve::{
    generates_group, generator, lemma_factor_of, lemma_multiple_infinite,
    lemma_multiple_injective, lemma_multiple_mod, lemma_multiple_on_curve,
    lemma_ordinate_not_zero, multiple, spans_curve, CurvePoint, FixedBase,
};
use crate::dp_map::{Path, PointKey};
use crate::encoding::{
    all_hex, base58_bytes, base58_digits, base58_encode, base58_text, hex_encode, hex_text,
    hex_value, is_hex_digit, law_base58_reads_back, law_base58_tells_apart,
    law_hex_text_reads_back, leading_zero_bytes, lemma_base58_length,
    lemma_hex_value_leading_zero, lemma_pow58_51, pow58, ripemd160, ripemd160_of, sha256,
    sha256_of,
};
use crate::field::{field_modulus, lemma_field_modulus};
use crate::scalar::{curve_order, scalar_to_bytes, Fr};
use crate::target::{
    compress, compressed_bytes, compressed_point, decompresses, law_compress_undoes,
    law_target_is_unique,
};
use crate::text::{
    contains_text, law_leading_are_left_off, skip_leading, text_contains, without_leading,
};
use crate::walk::{message_of, on_course, Walk};

verus! {

fn append_bytes(out: &mut Vec<u8>, data: &[u8])
    ensures
        final(out)@ == old(out)@ + data@,
{
    let ghost before = out@;
    let n: usize = data.len();
    let mut i: usize = 0;
    while i < n
        invariant
            i <= n,
            n == data@.len(),
            out@ == before + data@.take(i as int),
        decreases n - i,
    {
        out.push(data[i]);
        proof {
            assert(out@ =~= before + data@.take(i + 1));
        }
        i = i + 1;
    }
    assert(data@.take(n as int) =~= data@);
}

/// The base-58 text of a payload and the first four bytes of a digest.
pub fn checked_text(payload: &[u8], digest: &[u8; 32]) -> (r: String)
    ensures
        r@ == base58_text(payload@ + digest@.take(4)),
{
    let mut all: Vec<u8> = Vec::new();
    append_bytes(&mut all, payload);
    assert(all@ =~= payload@);
    all.push(digest[0]);
    all.push(digest[1]);
    all.push(digest[2]);
    all.push(digest[3]);
    assert(all@ =~= payload@ + digest@.take(4));
    base58_encode(all.as_slice())
}

/// The base-58 text of a payload with its checksum, the start of its twofold SHA-256.
pub open spec fn base58_check(payload: Seq<u8>) -> Seq<char> {
    base58_text(payload + sha256_of(sha256_of(payload)).take(4))
}

/// A text stands for a payload and its checksum of four bytes.
pub open spec fn carries(text: Seq<char>, payload: Seq<u8>) -> bool {
    let all = base58_bytes(text);
    let n = payload.len() as int;
    &&& all.len() == n + 4
    &&& all.subrange(0, n) == payload
    &&& all.subrange(n, n + 4) == sha256_of(sha256_of(payload)).take(4)
}

fn base58_check_text(payload: &[u8]) -> (r: String)
    ensures
        r@ == base58_check(payload@),
        carries(r@, payload@),
{
    let once = sha256(payload);
    let twice = sha256(&once);
    proof {
        let n = payload@.len() as int;
        let all = payload@ + twice@.take(4);
        law_base58_reads_back(all);
        assert(all.subrange(0, n) =~= payload@);
        assert(all.subrange(n, n + 4) =~= twice@.take(4));
    }
    checked_text(payload, &twice)
}

/// Texts with a checksum are the same only for the same payload, among payloads of one length.
pub proof fn law_checked_texts_tell_apart(a: Seq<u8>, b: Seq<u8>)
    requires
        a.len() == b.len(),
        base58_check(a) == base58_check(b),
    ensures
        a == b,
{
    let all_a = a + sha256_of(sha256_of(a)).take(4);
    let all_b = b + sha256_of(sha256_of(b)).take(4);
    law_base58_tells_apart(all_a, all_b);
    assert forall|i: int| 0 <= i < a.len() implies a[i] == b[i] by {
        assert(all_a[i] == a[i] && all_b[i] == b[i]);
    }
    assert(a =~= b);
}

/// The payload of an address: a version byte of zero and the hash of the public key.
pub open spec fn address_payload(hash160: Seq<u8>) -> Seq<u8> {
    seq![0u8] + hash160
}

/// A base-58 text starts with `1` if the bytes start with zero.
proof fn lemma_zero_gives_one(s: Seq<u8>)
    requires
        s.len() > 0,
        s[0] == 0,
    ensures
        base58_text(s).len() > 0,
        base58_text(s)[0] == '1',
{
    assert(leading_zero_bytes(s) > 0);
}

/// The address for the hash of a public key. It starts with `1`, and stands for 25 bytes: a zero,
/// the hash, and a checksum.
pub fn hash160_to_address(hash160: &[u8; 20]) -> (r: String)
    ensures
        r@ == base58_check(address_payload(hash160@)),
        carries(r@, address_payload(hash160@)),
        base58_bytes(r@).len() == 25,
        base58_bytes(r@)[0] == 0,
        base58_bytes(r@).subrange(1, 21) == hash160@,
        r@.len() > 0,
        r@[0] == '1',
{
    let mut payload: Vec<u8> = Vec::new();
    payload.push(0);
    append_bytes(&mut payload, hash160);
    assert(payload@ =~= address_payload(hash160@));
    let r = base58_check_text(payload.as_slice());
    proof {
        let p = address_payload(hash160@);
        let all = base58_bytes(r@);
        assert(all[0] == all.subrange(0, 21)[0]);
        assert(all.subrange(1, 21) =~= all.subrange(0, 21).subrange(1, 21));
        assert(all.subrange(1, 21) =~= hash160@);
        lemma_zero_gives_one(p + sha256_of(sha256_of(p)).take(4));
    }
    r
}

/// Different hashes have different addresses.
pub proof fn law_addresses_tell_apart(a: Seq<u8>, b: Seq<u8>)
    requires
        a.len() == 20,
        b.len() == 20,
        base58_check(address_payload(a)) == base58_check(address_payload(b)),
    ensures
        a == b,
{
    law_checked_texts_tell_apart(address_payload(a), address_payload(b));
    assert(address_payload(a).skip(1) =~= a);
    assert(address_payload(b).skip(1) =~= b);
}

/// The payload of a private key: a version byte, the key, and a mark for a compressed public key.
pub open spec fn wif_payload(priv_key: Seq<u8>) -> Seq<u8> {
    seq![0x80u8] + priv_key + seq![1u8]
}

/// 38 bytes with the version byte of a private key have a base-58 text of 52 characters that
/// starts with `K` or `L`.
proof fn lemma_wif_shape(s: Seq<u8>)
    requires
        s.len() == 38,
        s[0] == 0x80,
    ensures
        base58_text(s).len() == 52,
        base58_text(s)[0] == 'K' || base58_text(s)[0] == 'L',
{
    let tail = s.drop_first();
    let v = be_value(s);
    let unit = pow256(37);
    assert(s =~= seq![0x80u8] + tail);
    lemma_be_value_concat(seq![0x80u8], tail);
    lemma_be_value_bound(tail);
    assert(be_value(seq![0x80u8]) == 0x80) by {
        assert(seq![0x80u8].drop_last() =~= Seq::<u8>::empty());
        assert(be_value(seq![0x80u8].drop_last()) == 0);
    }
    assert(unit
        == 0x100_0000_0000_0000_0000_0000_0000_0000_0000_0000_0000_0000_0000_0000_0000_0000_0000_0000_0000nat)
        by {
        reveal_with_fuel(pow256, 38);
    }
    assert(tail.len() == 37);
    let head = be_value(seq![0x80u8]);
    assert(head * unit == 0x80 * unit) by (nonlinear_arith)
        requires
            head == 0x80,
    ;
    assert(0x80 * unit <= v < 0x81 * unit);
    lemma_pow58_51();
    let low = pow58(51);
    assert(pow58(52) == 58 * low);
    assert(low <= v < 58 * low);
    lemma_base58_length(v, 52);
    let first = v / low;
    assert(first == 18 || first == 19) by (nonlinear_arith)
        requires
            first == v / low,
            18 * low <= v < 20 * low,
            low > 0,
    ;
    reveal_strlit("123456789ABCDEFGHJKLMNPQRSTUVWXYZabcdefghijkmnopqrstuvwxyz");
    assert(base58_text(s) =~= base58_digits(v));
}

/// A private key in the wallet import format, for a compressed public key. It has 52 characters,
/// starts with `K` or `L`, and stands for 38 bytes: a version byte, the key, a mark, and a
/// checksum.
pub fn private_key_to_wif_compressed(priv_key: &[u8; 32]) -> (r: String)
    ensures
        r@ == base58_check(wif_payload(priv_key@)),
        carries(r@, wif_payload(priv_key@)),
        base58_bytes(r@).len() == 38,
        base58_bytes(r@)[0] == 0x80,
        base58_bytes(r@).subrange(1, 33) == priv_key@,
        base58_bytes(r@)[33] == 1,
        r@.len() == 52,
        r@[0] == 'K' || r@[0] == 'L',
{
    let mut payload: Vec<u8> = Vec::new();
    payload.push(0x80);
    append_bytes(&mut payload, priv_key);
    payload.push(1);
    assert(payload@ =~= wif_payload(priv_key@));
    let r = base58_check_text(payload.as_slice());
    proof {
        let p = wif_payload(priv_key@);
        let all = base58_bytes(r@);
        assert(all[0] == all.subrange(0, 34)[0]);
        assert(all[33] == all.subrange(0, 34)[33]);
        assert(all.subrange(1, 33) =~= all.subrange(0, 34).subrange(1, 33));
        assert(all.subrange(1, 33) =~= priv_key@);
        let whole = p + sha256_of(sha256_of(p)).take(4);
        law_base58_reads_back(whole);
        lemma_wif_shape(whole);
    }
    r
}

/// Different private keys have different texts.
pub proof fn law_wifs_tell_apart(a: Seq<u8>, b: Seq<u8>)
    requires
        a.len() == 32,
        b.len() == 32,
        base58_check(wif_payload(a)) == base58_check(wif_payload(b)),
    ensures
        a == b,
{
    law_checked_texts_tell_apart(wif_payload(a), wif_payload(b));
    assert(wif_payload(a).subrange(1, 33) =~= a);
    assert(wif_payload(b).subrange(1, 33) =~= b);
}

/// A private key in hexadecimal digits, without leading zeros.
pub open spec fn short_hex(priv_key: Seq<u8>) -> Seq<char> {
    without_leading(hex_text(priv_key), '0')
}

/// What is told of a solution.
pub struct Solution {
    pub address: String,
    pub wif: String,
    pub hex: String,
}

/// What is told of a private key, given the hash of its public key.
pub fn describe_key(priv_key: &[u8; 32], hash160: &[u8; 20]) -> (r: Solution)
    ensures
        r.address@ == base58_check(address_payload(hash160@)),
        r.wif@ == base58_check(wif_payload(priv_key@)),
        r.hex@ == short_hex(priv_key@),
        all_hex(r.hex@),
        hex_value(r.hex@) == be_value(priv_key@),
        r.hex@.len() > 0 ==> r.hex@[0] != '0',
{
    proof {
        law_announced_hex_is_the_key(priv_key@);
    }
    let hex = hex_encode(priv_key);
    Solution {
        address: hash160_to_address(hash160),
        wif: private_key_to_wif_compressed(priv_key),
        hex: String::from_str(skip_leading(hex.as_str(), '0')),
    }
}

fn same_bytes(a: &[u8; 33], b: &[u8; 33]) -> (r: bool)
    ensures
        r == (a@ == b@),
{
    let mut i: usize = 0;
    while i < 33
        invariant
            i <= 33,
            forall|k: int| 0 <= k < i ==> a@[k] == b@[k],
        decreases 33 - i,
    {
        if a[i] != b[i] {
            return false;
        }
        i = i + 1;
    }
    assert(a@ =~= b@);
    true
}

/// A scalar solves the search: its multiple of the generator is the target.
pub open spec fn solves(scalar: nat, target_bytes: Seq<u8>) -> bool {
    compressed_point(multiple(scalar)) == target_bytes
}

/// Checks a candidate against the target. What is told of it, if it solves the search.
pub fn verify_candidate(
    final_scalar: &Fr,
    target_bytes: &[u8; 33],
    fixed_base: &FixedBase,
) -> (r: Option<Solution>)
    requires
        fixed_base.wf(),
        final_scalar.wf(),
    ensures
        r is Some <==> solves(final_scalar@, target_bytes@),
        r matches Some(s) ==> {
            let key = be_bytes(final_scalar@, 32);
            &&& s.address@ == base58_check(
                address_payload(ripemd160_of(sha256_of(target_bytes@))),
            )
            &&& s.wif@ == base58_check(wif_payload(key))
            &&& s.hex@ == short_hex(key)
            &&& all_hex(s.hex@)
            &&& hex_value(s.hex@) == final_scalar@
            &&& s.hex@.len() > 0 ==> s.hex@[0] != '0'
        },
{
    let priv_bytes = scalar_to_bytes(*final_scalar);
    let derived = fixed_base.mul(final_scalar);
    let derived_bytes = compress(&derived);
    if !same_bytes(&derived_bytes, target_bytes) {
        return None;
    }
    let hash160 = ripemd160(&sha256(&derived_bytes));
    proof {
        law_announced_key_is_the_scalar(final_scalar@);
    }
    Some(describe_key(&priv_bytes, &hash160))
}

/// The scalar of the target solves the search: if the target that the bytes stand for is the
/// multiple of the generator by `t`, then the remainder of `t` modulo the order passes the check.
pub proof fn law_scalar_of_target_solves(t: nat, target_bytes: Seq<u8>, x: nat, y: nat)
    requires
        generates_group(generator()),
        spans_curve(generator()),
        target_bytes.len() == 33,
        target_bytes[0] == 2 || target_bytes[0] == 3,
        x < field_modulus(),
        decompresses(target_bytes, x, y),
        multiple(t) == (CurvePoint::Finite { x, y }),
    ensures
        solves(t % curve_order(), target_bytes),
{
    lemma_multiple_mod(t);
    law_compress_undoes(target_bytes, x, y);
}

/// What solves the search is the scalar of the target: a scalar that passes the check, and whose
/// multiple of the generator is not neutral, leads to the point that the bytes stand for.
pub proof fn law_solution_is_the_scalar(
    scalar: nat,
    t: nat,
    target_bytes: Seq<u8>,
    x: nat,
    y: nat,
)
    requires
        generates_group(generator()),
        spans_curve(generator()),
        target_bytes.len() == 33,
        x < field_modulus(),
        decompresses(target_bytes, x, y),
        multiple(t) == (CurvePoint::Finite { x, y }),
        scalar % curve_order() != 0,
        solves(scalar, target_bytes),
    ensures
        multiple(scalar) == (CurvePoint::Finite { x, y }),
        scalar % curve_order() == t % curve_order(),
{
    lemma_multiple_infinite(scalar);
    lemma_multiple_on_curve(scalar);
    if let CurvePoint::Finite { x: sx, y: sy } = multiple(scalar) {
        lemma_field_modulus();
        assert(pow256(32)
            == 0x1_0000_0000_0000_0000_0000_0000_0000_0000_0000_0000_0000_0000_0000_0000_0000_0000nat)
            by {
            reveal_with_fuel(pow256, 33);
        }
        lemma_be_roundtrip(sx, 32);
        assert(compressed_bytes(sx, sy).subrange(1, 33) =~= be_bytes(sx, 32));
        assert(sx == x);
        lemma_ordinate_not_zero(x, sy);
        assert(target_bytes[0] == compressed_bytes(sx, sy)[0]);
        assert(decompresses(target_bytes, x, sy));
        law_target_is_unique(target_bytes, x, y, sy);
        lemma_multiple_injective(scalar, t);
    }
}

/// A meeting solves the search: when a walk on course reports a point that the table knows from a
/// walk of the other kind, reduced scalars given, one of the candidates that are told passes the
/// check against the target.
pub proof fn law_meeting_solves(
    target_bytes: Seq<u8>,
    x: nat,
    y: nat,
    w1: Walk,
    w2: Walk,
    map: Map<PointKey, Seq<Path>>,
    i: int,
)
    requires
        generates_group(generator()),
        spans_curve(generator()),
        target_bytes.len() == 33,
        target_bytes[0] == 2 || target_bytes[0] == 3,
        x < field_modulus(),
        decompresses(target_bytes, x, y),
        on_course(CurvePoint::Finite { x, y }, w1),
        on_course(CurvePoint::Finite { x, y }, w2),
        w1.target_coeff + w2.target_coeff == 1,
        w1.point() == w2.point(),
        absorbable(map, message_of(w1)),
        map.contains_key(message_of(w1).key.limbs()),
        0 <= i < map[message_of(w1).key.limbs()].len(),
        map[message_of(w1).key.limbs()][i] == message_of(w2).path(),
    ensures
        exists|k: int|
            0 <= k < told_by(map, message_of(w1)).len() && solves(
                #[trigger] told_by(map, message_of(w1))[k],
                target_bytes,
            ),
{
    let t = lemma_factor_of(x, y);
    let told = told_by(map, message_of(w1));
    let scalar = t % curve_order();
    law_meeting_is_told(CurvePoint::Finite { x, y }, w1, w2, t, map, i);
    law_scalar_of_target_solves(t, target_bytes, x, y);
    let k = told.index_of(scalar);
    assert(told[k] == scalar);
}

/// The announcement of a solution.
pub fn found_message(address: &str, wif: &str, hex: &str) -> (r: String)
    ensures
        r@
            == "\n======================================\n🚀 BINGO! PUZZLE SOLVED! 🚀\nAddress: "@
            + address@ + "\nWIF: "@ + wif@ + "\nHEX: "@ + hex@
            + "\n======================================\n"@,
{
    let mut msg = String::from_str(
        "\n======================================\n🚀 BINGO! PUZZLE SOLVED! 🚀\nAddress: ",
    );
    msg.append(address);
    msg.append("\nWIF: ");
    msg.append(wif);
    msg.append("\nHEX: ");
    msg.append(hex);
    msg.append("\n======================================\n");
    msg
}

/// A message for a chat: where it is sent, and what is sent.
pub struct Alert {
    pub url: String,
    pub payload: String,
}

/// The text of an alert. Line breaks are escaped, as the text becomes part of a JSON string.
pub open spec fn alert_text(address: Seq<char>, wif: Seq<char>, hex: Seq<char>) -> Seq<char> {
    "✅ BINGO! MATCH FOUND (140-BIT)!\\n\\nAddress: "@ + address + "\\nWIF: "@ + wif
        + "\\nHEX: "@ + hex
}

/// The alert of a solution. There is none while the token is still the placeholder.
pub fn telegram_alert(
    bot_token: &str,
    chat_id: &str,
    address: &str,
    wif: &str,
    hex: &str,
) -> (r: Option<Alert>)
    ensures
        r is None <==> contains_text(bot_token@, "CUA_BAN_DIEN"@),
        r matches Some(a) ==> {
            &&& a.url@ == "https://api.telegram.org/bot"@ + bot_token@ + "/sendMessage"@
            &&& a.payload@ == "{\"chat_id\": \""@ + chat_id@ + "\", \"text\": \""@ + alert_text(
                address@,
                wif@,
                hex@,
            ) + "\"}"@
        },
{
    if text_contains(bot_token, "CUA_BAN_DIEN") {
        return None;
    }
    let mut text = String::from_str("✅ BINGO! MATCH FOUND (140-BIT)!\\n\\nAddress: ");
    text.append(address);
    text.append("\\nWIF: ");
    text.append(wif);
    text.append("\\nHEX: ");
    text.append(hex);
    let mut payload = String::from_str("{\"chat_id\": \"");
    payload.append(chat_id);
    payload.append("\", \"text\": \"");
    payload.append(text.as_str());
    payload.append("\"}");
    let mut url = String::from_str("https://api.telegram.org/bot");
    url.append(bot_token);
    url.append("/sendMessage");
    Some(Alert { url, payload })
}

/// The announced key reads back: its text holds hexadecimal digits only, none of them a capital
/// letter, stands for the whole key, and does not start with a zero.
pub proof fn law_announced_hex_is_the_key(priv_key: Seq<u8>)
    ensures
        all_hex(short_hex(priv_key)),
        hex_value(short_hex(priv_key)) == be_value(priv_key),
        short_hex(priv_key).len() > 0 ==> short_hex(priv_key)[0] != '0',
        forall|i: int|
            0 <= i < short_hex(priv_key).len() ==> '0' <= #[trigger] short_hex(priv_key)[i] <= '9'
                || 'a' <= short_hex(priv_key)[i] <= 'f',
{
    let t = hex_text(priv_key);
    let left = short_hex(priv_key);
    law_hex_text_reads_back(priv_key);
    law_leading_are_left_off(t, '0');
    lemma_hex_without_zeros(t);
    let k = t.len() - left.len();
    assert forall|i: int| 0 <= i < left.len() implies is_hex_digit(#[trigger] left[i]) && ('0'
        <= left[i] <= '9' || 'a' <= left[i] <= 'f') by {
        assert(left[i] == t[k + i]);
    }
}

proof fn lemma_hex_without_zeros(t: Seq<char>)
    ensures
        hex_value(without_leading(t, '0')) == hex_value(t),
    decreases t.len(),
{
    if t.len() > 0 && t[0] == '0' {
        let rest = t.skip(1);
        lemma_hex_without_zeros(rest);
        lemma_hex_value_leading_zero(rest);
        assert(t =~= seq!['0'] + rest);
    }
}

/// What is announced of a scalar stands for the scalar: the hexadecimal text, and the bytes in the
/// wallet import format.
pub proof fn law_announced_key_is_the_scalar(scalar: nat)
    requires
        scalar < curve_order(),
    ensures
        hex_value(short_hex(be_bytes(scalar, 32))) == scalar,
        wif_payload(be_bytes(scalar, 32)).len() == 34,
        be_value(wif_payload(be_bytes(scalar, 32)).subrange(1, 33)) == scalar,
{
    crate::scalar::lemma_curve_order();
    assert(pow256(32)
        == 0x1_0000_0000_0000_0000_0000_0000_0000_0000_0000_0000_0000_0000_0000_0000_0000_0000nat)
        by {
        reveal_with_fuel(pow256, 33);
    }
    lemma_be_roundtrip(scalar, 32);
    law_announced_hex_is_the_key(be_bytes(scalar, 32));
    assert(wif_payload(be_bytes(scalar, 32)).subrange(1, 33) =~= be_bytes(scalar, 32));
}

/// The payloads: a zero and the hash for an address; a byte of `0x80`, the key and a one for a
/// private key.
pub proof fn law_payload_layout(hash160: Seq<u8>, priv_key: Seq<u8>)
    requires
        hash160.len() == 20,
        priv_key.len() == 32,
    ensures
        address_payload(hash160).len() == 21,
        address_payload(hash160)[0] == 0,
        address_payload(hash160).subrange(1, 21) == hash160,
        wif_payload(priv_key).len() == 34,
        wif_payload(priv_key)[0] == 0x80,
        wif_payload(priv_key).subrange(1, 33) == priv_key,
        wif_payload(priv_key)[33] == 1,
{
    assert(address_payload(hash160).subrange(1, 21) =~= hash160);
    assert(wif_payload(priv_key).subrange(1, 33) =~= priv_key);
}

/// An alert tells the whole address, the whole private key and its hexadecimal form, each behind
/// its name.
pub proof fn law_alert_tells_all(address: Seq<char>, wif: Seq<char>, hex: Seq<char>)
    ensures
        alert_text(address, wif, hex) == "✅ BINGO! MATCH FOUND (140-BIT)!\\n\\nAddress: "@ + address
            + "\\nWIF: "@ + wif + "\\nHEX: "@ + hex,
{
}

/// A checked text stands for the payload and the first four bytes of its twofold SHA-256, and a
/// text that stands for these is that text of the payload.
pub proof fn law_checked_text_reads_back(payload: Seq<u8>, text: Seq<char>)
    ensures
        base58_bytes(base58_check(payload)) == payload + sha256_of(sha256_of(payload)).take(4),
        carries(text, payload) && sha256_of(sha256_of(payload)).len() == 32 ==> base58_bytes(text)
            == payload + sha256_of(sha256_of(payload)).take(4),
{
    law_base58_reads_back(payload + sha256_of(sha256_of(payload)).take(4));
    let all = base58_bytes(text);
    let n = payload.len() as int;
    if carries(text, payload) {
        assert(all =~= all.subrange(0, n) + all.subrange(n, n + 4));
    }
}

/// A scalar solves the search exactly if its multiple of the generator has the bytes of the
/// target: the abscissa in the last 32, and the parity of the ordinate in the first.
pub proof fn law_what_solves(scalar: nat, target_bytes: Seq<u8>, x: nat, y: nat)
    requires
        multiple(scalar) == (CurvePoint::Finite { x, y }),
        x < field_modulus(),
        target_bytes.len() == 33,
    ensures
        solves(scalar, target_bytes) <==> target_bytes[0] == 2 + y % 2 && be_value(
            target_bytes.subrange(1, 33),
        ) == x,
{
    let c = compressed_bytes(x, y);
    crate::target::law_compressed_layout(x, y);
    if target_bytes[0] == 2 + y % 2 && be_value(target_bytes.subrange(1, 33)) == x {
        let tail = target_bytes.subrange(1, 33);
        crate::bytes::lemma_be_roundtrip_bytes(tail);
        assert(target_bytes =~= seq![target_bytes[0]] + tail);
        assert(c =~= seq![c[0]] + crate::bytes::be_bytes(x, 32));
    }
}

} // verus!
