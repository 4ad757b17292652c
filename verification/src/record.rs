//! The log of distinguished points: fixed-size records with a sequence number and a checksum.

use vstd::prelude::*;

use crate::bytes::{
    be_bytes, be_to_u32, be_to_u64, be_value, lemma_be_bytes_len, lemma_be_roundtrip,
    lemma_be_roundtrip_bytes, lemma_be_value_bound, lemma_pow256_values, u32_to_be, u64_to_be,
};
use crate::dp_map::{with_path, DpMap, Path, PointKey};
use crate::encoding::{crc32, crc32_of};
use crate::text::{decimal_text, push_decimal};

verus! {

/// The size of a record in bytes.
pub const RECORD_SIZE: usize = 77;

/// The abscissa of a distinguished point, least significant limb first.
#[derive(Clone, Copy, Debug, PartialEq, Eq, Hash, Structural)]
pub struct DpKey {
    pub x_0: u64,
    pub x_1: u64,
    pub x_2: u64,
    pub x_3: u64,
}

impl DpKey {
    /// The limbs in the order in which the table is keyed.
    pub open spec fn limbs(&self) -> PointKey {
        (self.x_0, self.x_1, self.x_2, self.x_3)
    }

    /// The limbs in the order in which the table is keyed.
    pub fn to_limbs(&self) -> (r: PointKey)
        ensures
            r == self.limbs(),
    {
        (self.x_0, self.x_1, self.x_2, self.x_3)
    }
}

/// A distinguished point and how it was reached.
#[derive(Clone, Copy, Debug)]
pub struct DpMessage {
    pub target_coeff: i8,
    pub key: DpKey,
    pub scalar_limbs: [u64; 4],
}

impl DpMessage {
    /// The path that the table holds for this message.
    pub open spec fn path(&self) -> Path {
        (self.target_coeff, self.scalar_limbs)
    }
}

/// A coefficient as a byte, in two's complement.
pub open spec fn coeff_byte(c: i8) -> u8 {
    if c >= 0 {
        c as u8
    } else {
        (c + 256) as u8
    }
}

/// The coefficient that a byte stands for, in two's complement.
pub open spec fn byte_coeff(b: u8) -> i8 {
    if b < 128 {
        b as i8
    } else {
        (b - 256) as i8
    }
}

/// A record without its checksum.
pub open spec fn record_body(seq: nat, key: PointKey, path: Path) -> Seq<u8> {
    be_bytes(seq, 8) + be_bytes(key.3 as nat, 8) + be_bytes(key.2 as nat, 8) + be_bytes(
        key.1 as nat,
        8,
    ) + be_bytes(key.0 as nat, 8) + seq![coeff_byte(path.0)] + be_bytes(path.1@[3] as nat, 8)
        + be_bytes(path.1@[2] as nat, 8) + be_bytes(path.1@[1] as nat, 8) + be_bytes(
        path.1@[0] as nat,
        8,
    )
}

/// A record: its body and the checksum of the body.
pub open spec fn record_bytes(seq: nat, key: PointKey, path: Path) -> Seq<u8> {
    let body = record_body(seq, key, path);
    body + be_bytes(crc32_of(body) as nat, 4)
}

/// The word at a place in a record.
pub open spec fn word_at(r: Seq<u8>, at: int) -> u64 {
    be_value(r.subrange(at, at + 8)) as u64
}

/// The checksum in a record matches its body.
pub open spec fn checksum_ok(r: Seq<u8>) -> bool {
    crc32_of(r.subrange(0, 73)) == be_value(r.subrange(73, 77))
}

/// The point that a record tells of.
pub open spec fn record_key(r: Seq<u8>) -> PointKey {
    (word_at(r, 32), word_at(r, 24), word_at(r, 16), word_at(r, 8))
}

/// The path that a record tells of.
pub open spec fn record_path(r: Seq<u8>) -> Path {
    (byte_coeff(r[40]), [word_at(r, 65), word_at(r, 57), word_at(r, 49), word_at(r, 41)])
}

fn push_word(out: &mut Vec<u8>, v: u64)
    ensures
        final(out)@ == old(out)@ + be_bytes(v as nat, 8),
{
    let word = u64_to_be(v);
    let ghost start = out@;
    let mut i: usize = 0;
    while i < 8
        invariant
            i <= 8,
            out@ == start + word@.take(i as int),
        decreases 8 - i,
    {
        out.push(word[i]);
        proof {
            assert(out@ =~= start + word@.take(i + 1));
        }
        i = i + 1;
    }
    assert(word@.take(8) =~= word@);
}

/// The record for a message, without its checksum.
pub fn encode_body(seq: u64, msg: &DpMessage) -> (out: Vec<u8>)
    ensures
        out@ == record_body(seq as nat, msg.key.limbs(), msg.path()),
{
    let mut out: Vec<u8> = Vec::with_capacity(RECORD_SIZE);
    push_word(&mut out, seq);
    proof {
        assert(out@ =~= be_bytes(seq as nat, 8));
    }
    push_word(&mut out, msg.key.x_3);
    push_word(&mut out, msg.key.x_2);
    push_word(&mut out, msg.key.x_1);
    push_word(&mut out, msg.key.x_0);
    let ghost head = out@;
    let coeff: u8 = if msg.target_coeff >= 0 {
        msg.target_coeff as u8
    } else {
        (msg.target_coeff as i16 + 256) as u8
    };
    out.push(coeff);
    proof {
        assert(out@ =~= head + seq![coeff_byte(msg.target_coeff)]);
    }
    push_word(&mut out, msg.scalar_limbs[3]);
    push_word(&mut out, msg.scalar_limbs[2]);
    push_word(&mut out, msg.scalar_limbs[1]);
    push_word(&mut out, msg.scalar_limbs[0]);
    out
}

/// Appends the checksum to the body of a record.
pub fn seal_record(body: Vec<u8>, checksum: u32) -> (out: Vec<u8>)
    ensures
        out@ == body@ + be_bytes(checksum as nat, 4),
{
    let mut out = body;
    let check = u32_to_be(checksum);
    out.push(check[0]);
    out.push(check[1]);
    out.push(check[2]);
    out.push(check[3]);
    assert(out@ =~= body@ + check@);
    out
}

/// The record for a message.
pub fn encode_record(seq: u64, msg: &DpMessage) -> (out: Vec<u8>)
    ensures
        out@ == record_bytes(seq as nat, msg.key.limbs(), msg.path()),
        out@.len() == RECORD_SIZE,
{
    let body = encode_body(seq, msg);
    let checksum: u32 = crc32(body.as_slice());
    proof {
        lemma_record_parts(seq as nat, msg.key.limbs(), msg.path());
    }
    seal_record(body, checksum)
}

/// How long a record and its parts are.
proof fn lemma_record_parts(seq: nat, key: PointKey, path: Path)
    ensures
        record_bytes(seq, key, path).len() == 77,
        record_body(seq, key, path).len() == 73,
        be_bytes(seq, 8).len() == 8,
        be_bytes(key.0 as nat, 8).len() == 8,
        be_bytes(key.1 as nat, 8).len() == 8,
        be_bytes(key.2 as nat, 8).len() == 8,
        be_bytes(key.3 as nat, 8).len() == 8,
        be_bytes(path.1@[0] as nat, 8).len() == 8,
        be_bytes(path.1@[1] as nat, 8).len() == 8,
        be_bytes(path.1@[2] as nat, 8).len() == 8,
        be_bytes(path.1@[3] as nat, 8).len() == 8,
        be_bytes(crc32_of(record_body(seq, key, path)) as nat, 4).len() == 4,
{
    lemma_be_bytes_len(seq, 8);
    lemma_be_bytes_len(key.0 as nat, 8);
    lemma_be_bytes_len(key.1 as nat, 8);
    lemma_be_bytes_len(key.2 as nat, 8);
    lemma_be_bytes_len(key.3 as nat, 8);
    lemma_be_bytes_len(path.1@[0] as nat, 8);
    lemma_be_bytes_len(path.1@[1] as nat, 8);
    lemma_be_bytes_len(path.1@[2] as nat, 8);
    lemma_be_bytes_len(path.1@[3] as nat, 8);
    lemma_be_bytes_len(crc32_of(record_body(seq, key, path)) as nat, 4);
}

/// A word written into a byte string is read back from its place.
proof fn lemma_word_back(r: Seq<u8>, at: int, v: u64)
    requires
        r.subrange(at, at + 8) == be_bytes(v as nat, 8),
    ensures
        word_at(r, at) == v,
        be_value(r.subrange(at, at + 8)) == v,
{
    lemma_pow256_values();
    lemma_be_roundtrip(v as nat, 8);
}

/// A record tells of the message that it was written for: its sequence number, its point and
/// its path are read back, and its checksum matches.
pub proof fn law_record_reads_back(seq: u64, key: PointKey, path: Path)
    ensures
        record_bytes(seq as nat, key, path).len() == RECORD_SIZE,
        checksum_ok(record_bytes(seq as nat, key, path)),
        be_value(record_bytes(seq as nat, key, path).subrange(0, 8)) == seq,
        record_key(record_bytes(seq as nat, key, path)) == key,
        record_path(record_bytes(seq as nat, key, path)) == path,
{
    let r = record_bytes(seq as nat, key, path);
    let body = record_body(seq as nat, key, path);
    let crc = crc32_of(body);
    lemma_record_parts(seq as nat, key, path);
    lemma_pow256_values();
    lemma_be_roundtrip(crc as nat, 4);
    assert(r.subrange(0, 73) =~= body);
    assert(r.subrange(73, 77) =~= be_bytes(crc as nat, 4));
    assert(r.subrange(0, 8) =~= be_bytes(seq as nat, 8));
    lemma_word_back(r, 0, seq);
    assert(r.subrange(8, 16) =~= be_bytes(key.3 as nat, 8));
    lemma_word_back(r, 8, key.3);
    assert(r.subrange(16, 24) =~= be_bytes(key.2 as nat, 8));
    lemma_word_back(r, 16, key.2);
    assert(r.subrange(24, 32) =~= be_bytes(key.1 as nat, 8));
    lemma_word_back(r, 24, key.1);
    assert(r.subrange(32, 40) =~= be_bytes(key.0 as nat, 8));
    lemma_word_back(r, 32, key.0);
    assert(r[40] == coeff_byte(path.0));
    assert(r.subrange(41, 49) =~= be_bytes(path.1@[3] as nat, 8));
    lemma_word_back(r, 41, path.1@[3]);
    assert(r.subrange(49, 57) =~= be_bytes(path.1@[2] as nat, 8));
    lemma_word_back(r, 49, path.1@[2]);
    assert(r.subrange(57, 65) =~= be_bytes(path.1@[1] as nat, 8));
    lemma_word_back(r, 57, path.1@[1]);
    assert(r.subrange(65, 73) =~= be_bytes(path.1@[0] as nat, 8));
    lemma_word_back(r, 65, path.1@[0]);
    assert(record_path(r).1@ =~= path.1@);
}

/// How far a log has been read.
pub struct LoadState {
    pub map: Map<PointKey, Seq<Path>>,
    pub count: nat,
    pub expected: nat,
    pub last: nat,
}

/// What stopped the reading of a log.
#[derive(Clone, Copy, Debug, PartialEq, Eq, Structural)]
pub enum DbError {
    /// The log ends within a record, after this many bytes of it.
    Truncated { bytes: usize },
    /// The checksum of this record does not match, counted from zero.
    BadChecksum { record: u64 },
    /// A record has another sequence number than the one that was due.
    SequenceGap { expected: u64, found: u64 },
}

/// A log that is about to be read from its start.
pub open spec fn load_start(map: Map<PointKey, Seq<Path>>, expected: nat) -> LoadState {
    LoadState { map, count: 0, expected, last: 0 }
}

/// A log read one record further.
pub open spec fn load_one(st: LoadState, r: Seq<u8>) -> LoadState {
    LoadState {
        map: with_path(st.map, record_key(r), record_path(r)),
        count: st.count + 1,
        expected: be_value(r.subrange(0, 8)) + 1,
        last: be_value(r.subrange(0, 8)),
    }
}

/// Reads a log record by record: how far it gets, and what stops it before the end.
pub open spec fn load(bytes: Seq<u8>, st: LoadState) -> (LoadState, Option<DbError>)
    decreases bytes.len(),
{
    let r = bytes.take(77);
    if bytes.len() == 0 {
        (st, None)
    } else if bytes.len() < 77 {
        (st, Some(DbError::Truncated { bytes: bytes.len() as usize }))
    } else if !checksum_ok(r) {
        (st, Some(DbError::BadChecksum { record: st.count as u64 }))
    } else if be_value(r.subrange(0, 8)) != st.expected {
        (
            st,
            Some(
                DbError::SequenceGap {
                    expected: st.expected as u64,
                    found: be_value(r.subrange(0, 8)) as u64,
                },
            ),
        )
    } else {
        load(bytes.skip(77), load_one(st, r))
    }
}

/// How many records at the start of a log are sound and numbered from `expected` on.
pub open spec fn sound_records(bytes: Seq<u8>, expected: nat) -> nat
    decreases bytes.len(),
{
    let r = bytes.take(77);
    if bytes.len() >= 77 && checksum_ok(r) && be_value(r.subrange(0, 8)) == expected {
        1 + sound_records(bytes.skip(77), expected + 1)
    } else {
        0
    }
}

/// The number that is due after reading a log is that before it, and one more for each sound
/// record.
pub proof fn lemma_load_expected(bytes: Seq<u8>, st: LoadState)
    ensures
        load(bytes, st).0.expected == st.expected + sound_records(bytes, st.expected),
    decreases bytes.len(),
{
    let r = bytes.take(77);
    if bytes.len() >= 77 && checksum_ok(r) && be_value(r.subrange(0, 8)) == st.expected {
        lemma_load_expected(bytes.skip(77), load_one(st, r));
    }
}

/// There are no more sound records than whole ones.
pub proof fn lemma_sound_records_bound(bytes: Seq<u8>, expected: nat)
    ensures
        77 * sound_records(bytes, expected) <= bytes.len(),
    decreases bytes.len(),
{
    if bytes.len() >= 77 {
        lemma_sound_records_bound(bytes.skip(77), expected + 1);
    }
}

/// The text of a fault.
pub open spec fn fault_text(e: DbError) -> Seq<char> {
    match e {
        DbError::Truncated { bytes } => "File bị cụt tại byte thứ "@ + decimal_text(bytes as nat),
        DbError::BadChecksum { record } => "CRC32 hỏng tại record "@ + decimal_text(
            record as nat,
        ),
        DbError::SequenceGap { expected, found } => "SEQ nhảy cóc (Mong đợi "@ + decimal_text(
            expected as nat,
        ) + ", Nhận "@ + decimal_text(found as nat) + "). Corrupted!"@,
    }
}

/// The text of a fault.
pub fn db_error_text(e: &DbError) -> (r: String)
    ensures
        r@ == fault_text(*e),
{
    match e {
        DbError::Truncated { bytes } => {
            let mut text = String::from_str("File bị cụt tại byte thứ ");
            push_decimal(&mut text, *bytes as u128);
            text
        },
        DbError::BadChecksum { record } => {
            let mut text = String::from_str("CRC32 hỏng tại record ");
            push_decimal(&mut text, *record as u128);
            text
        },
        DbError::SequenceGap { expected, found } => {
            let mut text = String::from_str("SEQ nhảy cóc (Mong đợi ");
            push_decimal(&mut text, *expected as u128);
            text.append(", Nhận ");
            push_decimal(&mut text, *found as u128);
            text.append("). Corrupted!");
            text
        },
    }
}

/// What is wrong with a record, given the checksum of its body, the sequence number that is due,
/// and how many records came before it.
pub open spec fn record_fault(r: Seq<u8>, checksum: u32, expected: nat, count: nat) -> Option<
    DbError,
> {
    if checksum != be_value(r.subrange(73, 77)) {
        Some(DbError::BadChecksum { record: count as u64 })
    } else if be_value(r.subrange(0, 8)) != expected {
        Some(
            DbError::SequenceGap {
                expected: expected as u64,
                found: be_value(r.subrange(0, 8)) as u64,
            },
        )
    } else {
        None
    }
}

/// Reads a record: the point and the path it tells of, or what is wrong with it.
pub fn read_record(record: &[u8], checksum: u32, expected: u64, count: u64) -> (r: Result<
    (PointKey, Path),
    DbError,
>)
    requires
        record@.len() == RECORD_SIZE,
    ensures
        match record_fault(record@, checksum, expected as nat, count as nat) {
            Some(e) => r == Err::<(PointKey, Path), DbError>(e),
            None => r == Ok::<(PointKey, Path), DbError>(
                (record_key(record@), record_path(record@)),
            ),
        },
{
    if checksum != be_to_u32(record, 73) {
        return Err(DbError::BadChecksum { record: count });
    }
    let seq: u64 = be_to_u64(record, 0);
    if seq != expected {
        return Err(DbError::SequenceGap { expected, found: seq });
    }
    let x_3 = be_to_u64(record, 8);
    let x_2 = be_to_u64(record, 16);
    let x_1 = be_to_u64(record, 24);
    let x_0 = be_to_u64(record, 32);
    let byte: u8 = record[40];
    let target_coeff: i8 = if byte < 128 {
        byte as i8
    } else {
        (byte as i16 - 256) as i8
    };
    let s_3 = be_to_u64(record, 41);
    let s_2 = be_to_u64(record, 49);
    let s_1 = be_to_u64(record, 57);
    let s_0 = be_to_u64(record, 65);
    let scalar: [u64; 4] = [s_0, s_1, s_2, s_3];
    assert(scalar@ =~= record_path(record@).1@);
    assert((target_coeff, scalar) == record_path(record@));
    Ok(((x_0, x_1, x_2, x_3), (target_coeff, scalar)))
}

/// What reading a log comes to, given how far it gets and what stops it: the outcome, the table
/// and the number that is due, which was `start` before.
pub open spec fn loaded(
    end: (LoadState, Option<DbError>),
    start: u64,
    r: Result<(u64, u64), DbError>,
    map: Map<PointKey, Seq<Path>>,
    expected: u64,
) -> bool {
    &&& map == end.0.map
    &&& match end.1 {
        None => {
            &&& r is Ok
            &&& r->Ok_0.0 == end.0.count
            &&& r->Ok_0.1 == end.0.last
            &&& expected == end.0.expected
        },
        Some(e) => {
            &&& r is Err
            &&& r->Err_0 == e
            &&& expected == start
        },
    }
}

/// Reads a log of distinguished points into the table, and checks it on the way.
///
/// Returns the number of records and the last sequence number (zero for an empty log), and moves
/// the expected sequence number past the log. On an error the expected number stays, and the
/// table holds the records before the faulty one.
pub fn validate_and_load_db(
    bytes: &[u8],
    map: &mut DpMap,
    expected_start_seq: &mut u64,
) -> (r: Result<(u64, u64), DbError>)
    requires
        *old(expected_start_seq) + sound_records(bytes@, *old(expected_start_seq) as nat)
            <= u64::MAX,
    ensures
        loaded(
            load(bytes@, load_start(old(map)@, *old(expected_start_seq) as nat)),
            *old(expected_start_seq),
            r,
            final(map)@,
            *final(expected_start_seq),
        ),
{
    let len: usize = bytes.len();
    let ghost start = load_start(map@, *expected_start_seq as nat);
    let ghost whole = load(bytes@, start);
    proof {
        lemma_load_expected(bytes@, start);
    }
    let mut count: u64 = 0;
    let mut current_expected_seq: u64 = *expected_start_seq;
    let mut last_seq_read: u64 = 0;
    let mut at: usize = 0;
    assert(bytes@.skip(0) =~= bytes@);
    while at < len
        invariant
            len == bytes@.len(),
            at <= len,
            at == 77 * count,
            *expected_start_seq == *old(expected_start_seq),
            current_expected_seq == *old(expected_start_seq) + count,
            whole.0.expected <= u64::MAX,
            whole == load(bytes@, load_start(old(map)@, *old(expected_start_seq) as nat)),
            whole == load(
                bytes@.skip(at as int),
                (LoadState {
                    map: map@,
                    count: count as nat,
                    expected: current_expected_seq as nat,
                    last: last_seq_read as nat,
                }),
            ),
        decreases len - at,
    {
        let ghost rest = bytes@.skip(at as int);
        let ghost r = rest.take(77);
        let ghost st = LoadState {
            map: map@,
            count: count as nat,
            expected: current_expected_seq as nat,
            last: last_seq_read as nat,
        };
        if len - at < RECORD_SIZE {
            return Err(DbError::Truncated { bytes: len - at });
        }
        let record = vstd::slice::slice_subrange(bytes, at, at + RECORD_SIZE);
        assert(record@ =~= r);
        let checksum: u32 = crc32(vstd::slice::slice_subrange(record, 0, 73));
        let (key, path) = match read_record(record, checksum, current_expected_seq, count) {
            Ok(told) => told,
            Err(e) => {
                return Err(e);
            },
        };
        proof {
            lemma_load_expected(rest.skip(77), load_one(st, r));
        }
        last_seq_read = current_expected_seq;
        map.push(key, path);
        assert(count < len / 77);
        count = count + 1;
        current_expected_seq = current_expected_seq + 1;
        at = at + RECORD_SIZE;
        proof {
            assert(rest.skip(77) =~= bytes@.skip(at as int));
            assert(load_one(st, r) == (LoadState {
                map: map@,
                count: count as nat,
                expected: current_expected_seq as nat,
                last: last_seq_read as nat,
            }));
        }
    }
    *expected_start_seq = current_expected_seq;
    Ok((count, last_seq_read))
}

/// Whether the sequence numbers suffice for the sound records at the start of a log.
pub fn numbers_suffice(bytes: &[u8], expected: u64) -> (r: bool)
    ensures
        r == (expected + sound_records(bytes@, expected as nat) <= u64::MAX),
{
    let len: usize = bytes.len();
    let mut current: u64 = expected;
    let mut at: usize = 0;
    let mut count: u64 = 0;
    assert(bytes@.skip(0) =~= bytes@);
    while len - at >= RECORD_SIZE
        invariant
            len == bytes@.len(),
            at <= len,
            at == 77 * count,
            current == expected + count,
            sound_records(bytes@, expected as nat) == count + sound_records(
                bytes@.skip(at as int),
                current as nat,
            ),
        decreases len - at,
    {
        let ghost rest = bytes@.skip(at as int);
        let record = vstd::slice::slice_subrange(bytes, at, at + RECORD_SIZE);
        assert(record@ =~= rest.take(77));
        let checksum: u32 = crc32(vstd::slice::slice_subrange(record, 0, 73));
        if read_record(record, checksum, current, count).is_err() {
            return true;
        }
        if current == u64::MAX {
            return false;
        }
        current = current + 1;
        count = count + 1;
        at = at + RECORD_SIZE;
        assert(rest.skip(77) =~= bytes@.skip(at as int));
    }
    true
}

/// Reads a log of distinguished points into the table, if the sequence numbers suffice for it.
/// Else nothing is read.
pub fn load_db_if_numbered(
    bytes: &[u8],
    map: &mut DpMap,
    expected_start_seq: &mut u64,
) -> (r: Option<Result<(u64, u64), DbError>>)
    ensures
        ({
            let start = *old(expected_start_seq);
            let end = load(bytes@, load_start(old(map)@, start as nat));
            if start + sound_records(bytes@, start as nat) > u64::MAX {
                r is None && final(map)@ == old(map)@ && *final(expected_start_seq) == start
            } else {
                &&& r is Some
                &&& loaded(end, start, r->0, final(map)@, *final(expected_start_seq))
            }
        }),
{
    if !numbers_suffice(bytes, *expected_start_seq) {
        return None;
    }
    Some(validate_and_load_db(bytes, map, expected_start_seq))
}

/// A log that reads to its end can be read on: with a further record that has the sequence
/// number that is due, it reads to its end again, one path further.
pub proof fn law_log_extends(bytes: Seq<u8>, st: LoadState, key: PointKey, path: Path)
    requires
        load(bytes, st).1 is None,
        load(bytes, st).0.expected <= u64::MAX,
    ensures
        ({
            let seq = load(bytes, st).0.expected;
            let before = load(bytes, st).0;
            load(bytes + record_bytes(seq, key, path), st) == (
                LoadState {
                    map: with_path(before.map, key, path),
                    count: before.count + 1,
                    expected: seq + 1,
                    last: seq,
                },
                None::<DbError>,
            )
        }),
    decreases bytes.len(),
{
    let seq = load(bytes, st).0.expected;
    let rec = record_bytes(seq, key, path);
    let longer = bytes + rec;
    law_record_reads_back(seq as u64, key, path);
    if bytes.len() == 0 {
        assert(longer =~= rec);
        assert(rec.take(77) =~= rec);
        assert(rec.skip(77).len() == 0);
        assert(load(rec.skip(77), load_one(st, rec)) == (load_one(st, rec), None::<DbError>));
    } else {
        let r = bytes.take(77);
        assert(longer.take(77) =~= r);
        assert(longer.skip(77) =~= bytes.skip(77) + rec);
        law_log_extends(bytes.skip(77), load_one(st, r), key, path);
    }
}

/// The log of a sequence of paths, numbered from `start` on.
pub open spec fn log_bytes(paths: Seq<(PointKey, Path)>, start: nat) -> Seq<u8>
    decreases paths.len(),
{
    if paths.len() == 0 {
        Seq::empty()
    } else {
        log_bytes(paths.drop_last(), start) + record_bytes(
            (start + paths.len() - 1) as nat,
            paths.last().0,
            paths.last().1,
        )
    }
}

/// A table with a sequence of paths added to it.
pub open spec fn with_paths(map: Map<PointKey, Seq<Path>>, paths: Seq<(PointKey, Path)>) -> Map<
    PointKey,
    Seq<Path>,
>
    decreases paths.len(),
{
    if paths.len() == 0 {
        map
    } else {
        with_path(with_paths(map, paths.drop_last()), paths.last().0, paths.last().1)
    }
}

/// A log gives back what was written to it: every path, in order, under its point; with the
/// number of records, the last sequence number and the one that is due next.
pub proof fn law_log_replays(
    paths: Seq<(PointKey, Path)>,
    map: Map<PointKey, Seq<Path>>,
    start: nat,
)
    requires
        start + paths.len() <= u64::MAX,
    ensures
        load(log_bytes(paths, start), load_start(map, start)) == (
            LoadState {
                map: with_paths(map, paths),
                count: paths.len(),
                expected: start + paths.len(),
                last: if paths.len() == 0 {
                    0
                } else {
                    (start + paths.len() - 1) as nat
                },
            },
            None::<DbError>,
        ),
    decreases paths.len(),
{
    if paths.len() > 0 {
        let shorter = paths.drop_last();
        law_log_replays(shorter, map, start);
        law_log_extends(
            log_bytes(shorter, start),
            load_start(map, start),
            paths.last().0,
            paths.last().1,
        );
    }
}

/// A log that reads to its end consists of whole records, numbered without a gap.
pub proof fn law_log_is_whole(bytes: Seq<u8>, st: LoadState)
    requires
        load(bytes, st).1 is None,
    ensures
        bytes.len() == 77 * (load(bytes, st).0.count - st.count),
        load(bytes, st).0.expected == st.expected + load(bytes, st).0.count - st.count,
        bytes.len() > 0 ==> load(bytes, st).0.last + 1 == load(bytes, st).0.expected,
        bytes.len() == 0 ==> load(bytes, st).0 == st,
    decreases bytes.len(),
{
    if bytes.len() > 0 {
        let r = bytes.take(77);
        law_log_is_whole(bytes.skip(77), load_one(st, r));
    }
}

/// A sound record is the record of what it tells: nothing in it is left unread.
pub proof fn law_record_is_what_it_tells(r: Seq<u8>)
    requires
        r.len() == 77,
        crc32_of(r.subrange(0, 73)) == be_value(r.subrange(73, 77)),
    ensures
        r == record_bytes(be_value(r.subrange(0, 8)), record_key(r), record_path(r)),
{
    let seq = be_value(r.subrange(0, 8));
    let key = record_key(r);
    let path = record_path(r);
    lemma_word_is(r, 0);
    lemma_word_is(r, 8);
    lemma_word_is(r, 16);
    lemma_word_is(r, 24);
    lemma_word_is(r, 32);
    lemma_word_is(r, 41);
    lemma_word_is(r, 49);
    lemma_word_is(r, 57);
    lemma_word_is(r, 65);
    assert(coeff_byte(byte_coeff(r[40])) == r[40]);
    lemma_record_parts(seq, key, path);
    assert(path.1@[0] == word_at(r, 65) && path.1@[1] == word_at(r, 57) && path.1@[2] == word_at(
        r,
        49,
    ) && path.1@[3] == word_at(r, 41));
    let body = record_body(seq, key, path);
    assert(body =~= r.subrange(0, 73));
    let check = r.subrange(73, 77);
    lemma_be_roundtrip_bytes(check);
    assert(r =~= r.subrange(0, 73) + check);
}

/// The word at a place is written as the bytes there.
proof fn lemma_word_is(r: Seq<u8>, at: int)
    requires
        0 <= at,
        at + 8 <= r.len(),
    ensures
        be_bytes(word_at(r, at) as nat, 8) == r.subrange(at, at + 8),
        word_at(r, at) == be_value(r.subrange(at, at + 8)),
{
    let s = r.subrange(at, at + 8);
    lemma_pow256_values();
    lemma_be_value_bound(s);
    lemma_be_roundtrip_bytes(s);
}

/// Where the parts of a record stand: the sequence number, the abscissa from its top limb down, the
/// coefficient as a signed byte, the scalar from its top limb down, and the checksum of all that.
pub proof fn law_record_layout(seq: u64, key: PointKey, path: Path)
    ensures
        ({
            let r = record_bytes(seq as nat, key, path);
            &&& r.len() == 77
            &&& be_value(r.subrange(0, 8)) == seq
            &&& be_value(r.subrange(8, 16)) == key.3
            &&& be_value(r.subrange(16, 24)) == key.2
            &&& be_value(r.subrange(24, 32)) == key.1
            &&& be_value(r.subrange(32, 40)) == key.0
            &&& (r[40] - path.0) % 256 == 0
            &&& be_value(r.subrange(41, 49)) == path.1@[3]
            &&& be_value(r.subrange(49, 57)) == path.1@[2]
            &&& be_value(r.subrange(57, 65)) == path.1@[1]
            &&& be_value(r.subrange(65, 73)) == path.1@[0]
            &&& be_value(r.subrange(73, 77)) == crc32_of(r.subrange(0, 73))
        }),
{
    law_record_reads_back(seq, key, path);
    lemma_layout(record_bytes(seq as nat, key, path), key, path);
}

proof fn lemma_layout(r: Seq<u8>, key: PointKey, path: Path)
    requires
        r.len() == 77,
        record_key(r) == key,
        record_path(r) == path,
    ensures
        be_value(r.subrange(8, 16)) == key.3,
        be_value(r.subrange(16, 24)) == key.2,
        be_value(r.subrange(24, 32)) == key.1,
        be_value(r.subrange(32, 40)) == key.0,
        (r[40] - path.0) % 256 == 0,
        be_value(r.subrange(41, 49)) == path.1@[3],
        be_value(r.subrange(49, 57)) == path.1@[2],
        be_value(r.subrange(57, 65)) == path.1@[1],
        be_value(r.subrange(65, 73)) == path.1@[0],
{
    law_record_is_read_by_its_places(r);
}

/// What a record of 77 bytes tells, by its places.
pub proof fn law_record_is_read_by_its_places(r: Seq<u8>)
    requires
        r.len() == 77,
    ensures
        record_key(r).3 == be_value(r.subrange(8, 16)),
        record_key(r).2 == be_value(r.subrange(16, 24)),
        record_key(r).1 == be_value(r.subrange(24, 32)),
        record_key(r).0 == be_value(r.subrange(32, 40)),
        (r[40] - record_path(r).0) % 256 == 0,
        record_path(r).1@[3] == be_value(r.subrange(41, 49)),
        record_path(r).1@[2] == be_value(r.subrange(49, 57)),
        record_path(r).1@[1] == be_value(r.subrange(57, 65)),
        record_path(r).1@[0] == be_value(r.subrange(65, 73)),
{
    lemma_word_is(r, 8);
    lemma_word_is(r, 16);
    lemma_word_is(r, 24);
    lemma_word_is(r, 32);
    lemma_word_is(r, 41);
    lemma_word_is(r, 49);
    lemma_word_is(r, 57);
    lemma_word_is(r, 65);
    let told = record_path(r);
    assert(told.1@[0] == word_at(r, 65) && told.1@[1] == word_at(r, 57) && told.1@[2] == word_at(
        r,
        49,
    ) && told.1@[3] == word_at(r, 41));
}

/// The record at a place in a log.
pub open spec fn record_at(bytes: Seq<u8>, i: int) -> Seq<u8> {
    bytes.subrange(77 * i, 77 * i + 77)
}

/// What the first records of a log tell.
pub open spec fn paths_told(bytes: Seq<u8>, n: nat) -> Seq<(PointKey, Path)> {
    Seq::new(n, |i: int| (record_key(record_at(bytes, i)), record_path(record_at(bytes, i))))
}

/// The record at a place is whole, has the checksum of its first 73 bytes, and the number that is
/// due there.
pub open spec fn is_sound(bytes: Seq<u8>, i: int, start: nat) -> bool {
    &&& 77 * i + 77 <= bytes.len()
    &&& crc32_of(bytes.subrange(77 * i, 77 * i + 73)) == be_value(
        bytes.subrange(77 * i + 73, 77 * i + 77),
    )
    &&& be_value(bytes.subrange(77 * i, 77 * i + 8)) == start + i
}

/// Reading passes over sound records one by one.
proof fn lemma_load_prefix(bytes: Seq<u8>, map: Map<PointKey, Seq<Path>>, start: nat, k: nat)
    requires
        forall|i: int| 0 <= i < k ==> #[trigger] is_sound(bytes, i, start),
    ensures
        77 * k <= bytes.len(),
        load(bytes, load_start(map, start)) == load(
            bytes.skip(77 * k as int),
            (LoadState {
                map: with_paths(map, paths_told(bytes, k)),
                count: k,
                expected: start + k,
                last: if k == 0 {
                    0
                } else {
                    (start + k - 1) as nat
                },
            }),
        ),
    decreases k,
{
    if k == 0 {
        assert(bytes.skip(0) =~= bytes);
        assert(paths_told(bytes, 0).len() == 0);
    } else {
        let before = (k - 1) as nat;
        lemma_load_prefix(bytes, map, start, before);
        assert(is_sound(bytes, before as int, start));
        let rest = bytes.skip(77 * before as int);
        let r = rest.take(77);
        assert(r =~= record_at(bytes, before as int));
        assert(r.subrange(0, 73) =~= bytes.subrange(77 * before as int, 77 * before as int + 73));
        assert(r.subrange(73, 77) =~= bytes.subrange(77 * before as int + 73, 77 * before as int + 77));
        assert(r.subrange(0, 8) =~= bytes.subrange(77 * before as int, 77 * before as int + 8));
        assert(rest.skip(77) =~= bytes.skip(77 * k as int));
        assert(paths_told(bytes, k).drop_last() =~= paths_told(bytes, before));
        assert(paths_told(bytes, k).last() == (record_key(r), record_path(r)));
    }
}

/// The count of sound records is that of the records up to the first that is not.
proof fn lemma_sound_records(bytes: Seq<u8>, start: nat)
    ensures
        ({
            let k = sound_records(bytes, start);
            &&& forall|i: int| 0 <= i < k ==> #[trigger] is_sound(bytes, i, start)
            &&& !is_sound(bytes, k as int, start)
        }),
    decreases bytes.len(),
{
    let k = sound_records(bytes, start);
    let r = bytes.take(77);
    if bytes.len() >= 77 {
        assert(r.subrange(0, 73) =~= bytes.subrange(0, 73));
        assert(r.subrange(73, 77) =~= bytes.subrange(73, 77));
        assert(r.subrange(0, 8) =~= bytes.subrange(0, 8));
    }
    if k > 0 {
        let rest = bytes.skip(77);
        lemma_sound_records(rest, start + 1);
        assert forall|i: int| 0 <= i <= k implies #[trigger] is_sound(bytes, i, start) == (i < k) by {
            if i > 0 {
                let j = i - 1;
                assert(is_sound(rest, j, start + 1) == (j < k - 1));
                if 77 * i + 77 <= bytes.len() {
                    assert(rest.subrange(77 * j, 77 * j + 73) =~= bytes.subrange(
                        77 * i,
                        77 * i + 73,
                    ));
                    assert(rest.subrange(77 * j + 73, 77 * j + 77) =~= bytes.subrange(
                        77 * i + 73,
                        77 * i + 77,
                    ));
                    assert(rest.subrange(77 * j, 77 * j + 8) =~= bytes.subrange(77 * i, 77 * i + 8));
                }
            }
        }
    }
}

/// A log is read up to its first fault, and no farther. Every record before it has the checksum of
/// its first 73 bytes and the number that is due; these, and only these, are in the table. What
/// comes first decides the fault: the log ends within the record, its checksum differs, or its
/// number does.
pub proof fn law_load_stops_at_the_first_fault(
    bytes: Seq<u8>,
    map: Map<PointKey, Seq<Path>>,
    start: nat,
)
    ensures
        ({
            let (end, fault) = load(bytes, load_start(map, start));
            let k = end.count as int;
            let rest = bytes.len() - 77 * k;
            &&& rest >= 0
            &&& forall|i: int|
                0 <= i < k ==> crc32_of(#[trigger] bytes.subrange(77 * i, 77 * i + 73)) == be_value(
                    bytes.subrange(77 * i + 73, 77 * i + 77),
                ) && be_value(bytes.subrange(77 * i, 77 * i + 8)) == start + i
            &&& end.map == with_paths(map, paths_told(bytes, k as nat))
            &&& end.expected == start + k
            &&& end.last == if k == 0 {
                0
            } else {
                start + k - 1
            }
            &&& match fault {
                None => rest == 0,
                Some(DbError::Truncated { bytes: left }) => 0 < rest < 77 && left == rest as usize,
                Some(DbError::BadChecksum { record }) => {
                    &&& rest >= 77
                    &&& record == k as u64
                    &&& crc32_of(bytes.subrange(77 * k, 77 * k + 73)) != be_value(
                        bytes.subrange(77 * k + 73, 77 * k + 77),
                    )
                },
                Some(DbError::SequenceGap { expected, found }) => {
                    &&& rest >= 77
                    &&& crc32_of(bytes.subrange(77 * k, 77 * k + 73)) == be_value(
                        bytes.subrange(77 * k + 73, 77 * k + 77),
                    )
                    &&& be_value(bytes.subrange(77 * k, 77 * k + 8)) != start + k
                    &&& expected == (start + k) as u64
                    &&& found == be_value(bytes.subrange(77 * k, 77 * k + 8)) as u64
                },
            }
        }),
{
    let k = sound_records(bytes, start);
    lemma_sound_records(bytes, start);
    lemma_load_prefix(bytes, map, start, k);
    let rest = bytes.skip(77 * k as int);
    let r = rest.take(77);
    if rest.len() >= 77 {
        assert(r.subrange(0, 73) =~= bytes.subrange(77 * k as int, 77 * k as int + 73));
        assert(r.subrange(73, 77) =~= bytes.subrange(77 * k as int + 73, 77 * k as int + 77));
        assert(r.subrange(0, 8) =~= bytes.subrange(77 * k as int, 77 * k as int + 8));
    }
    let (end, fault) = load(bytes, load_start(map, start));
    assert(!is_sound(bytes, k as int, start));
    assert(end.count == k);
    assert forall|i: int| 0 <= i < k implies crc32_of(
        #[trigger] bytes.subrange(77 * i, 77 * i + 73),
    ) == be_value(bytes.subrange(77 * i + 73, 77 * i + 77)) && be_value(
        bytes.subrange(77 * i, 77 * i + 8),
    ) == start + i by {
        assert(is_sound(bytes, i, start));
    }
}

/// A log that loads without a fault is exactly the log of what it loaded.
pub proof fn law_sound_log_is_that_of_its_paths(
    bytes: Seq<u8>,
    map: Map<PointKey, Seq<Path>>,
    start: nat,
)
    requires
        load(bytes, load_start(map, start)).1 is None,
    ensures
        exists|paths: Seq<(PointKey, Path)>|
            bytes == #[trigger] log_bytes(paths, start) && load(
                bytes,
                load_start(map, start),
            ).0.map == with_paths(map, paths) && paths.len() == bytes.len() / 77,
{
    let k = load(bytes, load_start(map, start)).0.count;
    law_load_stops_at_the_first_fault(bytes, map, start);
    assert forall|i: int| 0 <= i < k implies #[trigger] is_sound(bytes, i, start) by {
        let body = bytes.subrange(77 * i, 77 * i + 73);
    }
    lemma_log_of_told(bytes, start, k);
    assert(bytes.take(77 * k as int) =~= bytes);
    assert(bytes == log_bytes(paths_told(bytes, k), start));
}

proof fn lemma_log_of_told(bytes: Seq<u8>, start: nat, k: nat)
    requires
        forall|i: int| 0 <= i < k ==> #[trigger] is_sound(bytes, i, start),
        77 * k <= bytes.len(),
    ensures
        log_bytes(paths_told(bytes, k), start) == bytes.take(77 * k as int),
    decreases k,
{
    if k == 0 {
        assert(bytes.take(0) =~= Seq::<u8>::empty());
    } else {
        let before = (k - 1) as nat;
        lemma_log_of_told(bytes, start, before);
        assert(is_sound(bytes, before as int, start));
        let r = record_at(bytes, before as int);
        assert(r.subrange(0, 73) =~= bytes.subrange(77 * before as int, 77 * before as int + 73));
        assert(r.subrange(73, 77) =~= bytes.subrange(77 * before as int + 73, 77 * before as int + 77));
        assert(r.subrange(0, 8) =~= bytes.subrange(77 * before as int, 77 * before as int + 8));
        law_record_is_what_it_tells(r);
        let paths = paths_told(bytes, k);
        assert(paths.drop_last() =~= paths_told(bytes, before));
        assert(paths.last() == (record_key(r), record_path(r)));
        assert(bytes.take(77 * k as int) =~= bytes.take(77 * before as int) + r);
    }
}

/// A table with paths added holds for each point what it held before, and then the added paths of
/// that point in their order.
pub proof fn law_added_paths_are_kept_in_order(
    map: Map<PointKey, Seq<Path>>,
    paths: Seq<(PointKey, Path)>,
    key: PointKey,
)
    ensures
        ({
            let added = paths.filter(|p: (PointKey, Path)| p.0 == key).map_values(
                |p: (PointKey, Path)| p.1,
            );
            let before = if map.contains_key(key) {
                map[key]
            } else {
                Seq::empty()
            };
            let after = with_paths(map, paths);
            &&& after.contains_key(key) <==> map.contains_key(key) || added.len() > 0
            &&& after.contains_key(key) ==> after[key] == before + added
        }),
    decreases paths.len(),
{
    let mine = |p: (PointKey, Path)| p.0 == key;
    let path_of = |p: (PointKey, Path)| p.1;
    let before = if map.contains_key(key) {
        map[key]
    } else {
        Seq::empty()
    };
    reveal(Seq::filter);
    if paths.len() == 0 {
        if map.contains_key(key) {
            assert(before + paths.filter(mine).map_values(path_of) =~= before);
        }
    } else {
        let fewer = paths.drop_last();
        law_added_paths_are_kept_in_order(map, fewer, key);
        let added = fewer.filter(mine).map_values(path_of);
        if paths.last().0 == key {
            let more = fewer.filter(mine).push(paths.last()).map_values(path_of);
            assert(more =~= added.push(paths.last().1));
            assert(before + more =~= (before + added).push(paths.last().1));
            if !with_paths(map, fewer).contains_key(key) {
                assert(before + added =~= Seq::<Path>::empty());
            }
        }
    }
}

/// The texts of the faults name their numbers in decimal digits.
pub proof fn law_fault_texts_name_their_numbers(a: u64, b: u64, n: usize)
    ensures
        fault_text(DbError::Truncated { bytes: n }) == "File bị cụt tại byte thứ "@
            + decimal_text(n as nat),
        fault_text(DbError::BadChecksum { record: a }) == "CRC32 hỏng tại record "@
            + decimal_text(a as nat),
        fault_text(DbError::SequenceGap { expected: a, found: b }) == "SEQ nhảy cóc (Mong đợi "@
            + decimal_text(a as nat) + ", Nhận "@ + decimal_text(b as nat) + "). Corrupted!"@,
{
}

/// A record is taken exactly if it ends with the given checksum and starts with the number that is
/// due; a wrong checksum is told before a wrong number.
pub proof fn law_record_is_taken_if_it_fits(r: Seq<u8>, checksum: u32, expected: u64, count: u64)
    requires
        r.len() == 77,
    ensures
        ({
            let sum = be_value(r.subrange(73, 77));
            let number = be_value(r.subrange(0, 8));
            let fault = record_fault(r, checksum, expected as nat, count as nat);
            &&& fault is None <==> checksum == sum && number == expected
            &&& checksum != sum ==> fault == Some(DbError::BadChecksum { record: count })
            &&& checksum == sum && number != expected ==> fault == Some(
                DbError::SequenceGap { expected, found: number as u64 },
            )
        }),
{
}

/// The sound records of a log are counted up to the first that is not whole, has not the checksum
/// of its first 73 bytes, or has not the number that is due.
pub proof fn law_sound_records_are_counted(bytes: Seq<u8>, start: nat, i: int)
    ensures
        ({
            let k = sound_records(bytes, start);
            let sound = 77 * i + 77 <= bytes.len() && crc32_of(
                bytes.subrange(77 * i, 77 * i + 73),
            ) == be_value(bytes.subrange(77 * i + 73, 77 * i + 77)) && be_value(
                bytes.subrange(77 * i, 77 * i + 8),
            ) == start + i;
            &&& 0 <= i < k ==> sound
            &&& i == k ==> !sound
        }),
{
    lemma_sound_records(bytes, start);
    assert(0 <= i < sound_records(bytes, start) ==> is_sound(bytes, i, start));
}

/// What comes of reading a log: its number of records and the last of their numbers, with the next
/// one due, or the fault with the number that was due before. The table holds what it held and
/// what the records tell up to there.
pub proof fn law_what_loading_comes_to(
    bytes: Seq<u8>,
    before: Map<PointKey, Seq<Path>>,
    start: u64,
    r: Result<(u64, u64), DbError>,
    map: Map<PointKey, Seq<Path>>,
    expected: u64,
)
    requires
        loaded(load(bytes, load_start(before, start as nat)), start, r, map, expected),
    ensures
        map == with_paths(
            before,
            paths_told(bytes, load(bytes, load_start(before, start as nat)).0.count),
        ),
        match r {
            Ok((count, last)) => {
                &&& load(bytes, load_start(before, start as nat)).1 is None
                &&& 77 * count == bytes.len()
                &&& expected == start + count
                &&& count > 0 ==> last + 1 == expected
                &&& count == 0 ==> last == 0
            },
            Err(e) => {
                &&& load(bytes, load_start(before, start as nat)).1 == Some(e)
                &&& expected == start
            },
        },
{
    law_load_stops_at_the_first_fault(bytes, before, start as nat);
}

/// A message names its point by the four limbs in their order, and its path by the coefficient and
/// the limbs of the scalar.
pub proof fn law_message_tells(msg: DpMessage)
    ensures
        msg.key.limbs() == (msg.key.x_0, msg.key.x_1, msg.key.x_2, msg.key.x_3),
        msg.path() == (msg.target_coeff, msg.scalar_limbs),
{
}

} // verus!
