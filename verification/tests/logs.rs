use kangputus::checkpoint::{
    checkpoint_manifest, restore_checkpoint, Rejection, Resume,
};
use kangputus::collect::{candidate, candidates, Collector};
use kangputus::disk::{DiskAction, DiskEvent, DiskState};
use kangputus::dp_map::DpMap;
use kangputus::record::{
    db_error_text, encode_body, encode_record, load_db_if_numbered, numbers_suffice, read_record,
    seal_record, validate_and_load_db, DbError, DpKey, DpMessage, RECORD_SIZE,
};
use kangputus::scalar::Fr;

fn message(x: u64, coeff: i8, scalar: u64) -> DpMessage {
    DpMessage {
        target_coeff: coeff,
        key: DpKey { x_0: x, x_1: 1, x_2: 2, x_3: 3 },
        scalar_limbs: [scalar, 0, 0, 0],
    }
}

fn log_of(messages: &[DpMessage]) -> Vec<u8> {
    let mut log = Vec::new();
    for (i, m) in messages.iter().enumerate() {
        log.extend(encode_record(i as u64, m));
    }
    log
}

fn collector() -> Collector {
    Collector { map: DpMap::with_capacity(16), ram_seq: 0, points: 0 }
}

#[test]
fn record_layout() {
    let m = DpMessage {
        target_coeff: -1,
        key: DpKey { x_0: 0x11, x_1: 0x22, x_2: 0x33, x_3: 0x44 },
        scalar_limbs: [1, 2, 3, 4],
    };
    let r = encode_record(7, &m);
    assert_eq!(r.len(), RECORD_SIZE);
    assert_eq!(r[7], 7);
    assert_eq!((r[15], r[23], r[31], r[39]), (0x44, 0x33, 0x22, 0x11));
    assert_eq!(r[40], 0xff);
    assert_eq!((r[48], r[56], r[64], r[72]), (4, 3, 2, 1));
    assert_eq!(&r[73..77], &[0x19, 0x2e, 0xc3, 0x60]);
}

/// The checksum, one binary digit at a time.
fn slow_crc(data: &[u8]) -> u32 {
    let mut register = 0xffff_ffffu32;
    for byte in data {
        register ^= *byte as u32;
        for _ in 0..8 {
            register = if register & 1 == 1 {
                (register >> 1) ^ 0xedb8_8320
            } else {
                register >> 1
            };
        }
    }
    !register
}

#[test]
fn records_end_with_the_checksum_of_their_body() {
    assert_eq!(slow_crc(b"123456789"), 0xcbf4_3926);
    for i in 0..200u64 {
        let m = message(i.wrapping_mul(0x9e37_79b9_7f4a_7c15), (i % 3) as i8 - 1, i * i);
        let r = encode_record(i << 40, &m);
        assert_eq!(r[..73], encode_body(i << 40, &m));
        assert_eq!(r[73..], slow_crc(&r[..73]).to_be_bytes());
    }
}

#[test]
fn records_with_a_given_checksum() {
    let m = message(5, -2, 10);
    let r = seal_record(encode_body(7, &m), 0x01020304);
    assert_eq!(&r[73..77], &[1, 2, 3, 4]);
    assert_eq!(
        read_record(&r, 0x01020304, 7, 0),
        Ok(((5, 1, 2, 3), (-2, [10, 0, 0, 0])))
    );
    assert_eq!(read_record(&r, 0x01020305, 7, 9), Err(DbError::BadChecksum { record: 9 }));
    assert_eq!(
        read_record(&r, 0x01020304, 8, 0),
        Err(DbError::SequenceGap { expected: 8, found: 7 })
    );
}

#[test]
fn table_of_points() {
    let mut map = DpMap::with_capacity(4);
    assert!(map.get(&(1, 2, 3, 4)).is_none());
    map.push((1, 2, 3, 4), (0, [5, 0, 0, 0]));
    map.push((1, 2, 3, 4), (1, [6, 0, 0, 0]));
    map.push((9, 2, 3, 4), (1, [7, 0, 0, 0]));
    assert_eq!(map.get(&(1, 2, 3, 4)).unwrap(), &vec![(0, [5, 0, 0, 0]), (1, [6, 0, 0, 0])]);
    assert_eq!(map.get(&(9, 2, 3, 4)).unwrap().len(), 1);
    map.clear();
    assert!(map.get(&(1, 2, 3, 4)).is_none());
}

#[test]
fn a_log_gives_back_what_was_written() {
    let log = log_of(&[message(5, 0, 10), message(6, 1, 11), message(5, -3, 12)]);
    let mut map = DpMap::with_capacity(4);
    let mut seq = 0;
    assert_eq!(validate_and_load_db(&log, &mut map, &mut seq), Ok((3, 2)));
    assert_eq!(seq, 3);
    assert_eq!(map.get(&(5, 1, 2, 3)).unwrap(), &vec![(0, [10, 0, 0, 0]), (-3, [12, 0, 0, 0])]);
    assert_eq!(map.get(&(6, 1, 2, 3)).unwrap(), &vec![(1, [11, 0, 0, 0])]);
}

#[test]
fn an_empty_log() {
    let mut map = DpMap::with_capacity(4);
    let mut seq = 9;
    assert_eq!(validate_and_load_db(&[], &mut map, &mut seq), Ok((0, 0)));
    assert_eq!(seq, 9);
}

#[test]
fn a_log_that_ends_within_a_record() {
    let mut log = log_of(&[message(5, 0, 10), message(6, 1, 11)]);
    log.truncate(77 + 20);
    let mut map = DpMap::with_capacity(4);
    let mut seq = 0;
    assert_eq!(
        validate_and_load_db(&log, &mut map, &mut seq),
        Err(DbError::Truncated { bytes: 20 })
    );
    assert_eq!(seq, 0);
    assert!(map.get(&(5, 1, 2, 3)).is_some());
    assert!(map.get(&(6, 1, 2, 3)).is_none());
}

#[test]
fn a_log_with_a_damaged_record() {
    let mut log = log_of(&[message(5, 0, 10), message(6, 1, 11)]);
    log[77 + 50] ^= 1;
    let mut map = DpMap::with_capacity(4);
    let mut seq = 0;
    assert_eq!(
        validate_and_load_db(&log, &mut map, &mut seq),
        Err(DbError::BadChecksum { record: 1 })
    );
}

#[test]
fn a_log_with_a_gap() {
    let mut log = log_of(&[message(5, 0, 10)]);
    log.extend(encode_record(4, &message(6, 1, 11)));
    let mut map = DpMap::with_capacity(4);
    let mut seq = 0;
    assert_eq!(
        validate_and_load_db(&log, &mut map, &mut seq),
        Err(DbError::SequenceGap { expected: 1, found: 4 })
    );
}

#[test]
fn texts_of_faults() {
    assert_eq!(db_error_text(&DbError::Truncated { bytes: 20 }), "File bị cụt tại byte thứ 20");
    assert_eq!(db_error_text(&DbError::BadChecksum { record: 7 }), "CRC32 hỏng tại record 7");
    assert_eq!(
        db_error_text(&DbError::SequenceGap { expected: 1, found: 4 }),
        "SEQ nhảy cóc (Mong đợi 1, Nhận 4). Corrupted!"
    );
}

#[test]
fn sequence_numbers_can_run_out() {
    let mut log = encode_record(u64::MAX - 1, &message(5, 0, 10));
    assert!(numbers_suffice(&log, u64::MAX - 1));
    log.extend(encode_record(u64::MAX, &message(6, 0, 10)));
    assert!(!numbers_suffice(&log, u64::MAX - 1));
    let mut map = DpMap::with_capacity(4);
    let mut seq = u64::MAX - 1;
    assert_eq!(load_db_if_numbered(&log, &mut map, &mut seq), None);
    assert_eq!(seq, u64::MAX - 1);
    assert!(map.get(&(5, 1, 2, 3)).is_none());
    // A fault before the numbers run out is told as ever.
    log[77] ^= 1;
    assert!(numbers_suffice(&log, u64::MAX - 1));
    assert_eq!(
        load_db_if_numbered(&log, &mut map, &mut seq),
        Some(Err(DbError::BadChecksum { record: 1 }))
    );
    assert!(map.get(&(5, 1, 2, 3)).is_some());
}

#[test]
fn a_log_can_be_read_on() {
    let mut log = log_of(&[message(5, 0, 10)]);
    log.extend(encode_record(1, &message(6, 1, 11)));
    let mut map = DpMap::with_capacity(4);
    let mut seq = 0;
    assert_eq!(validate_and_load_db(&log, &mut map, &mut seq), Ok((2, 1)));
    assert_eq!(seq, 2);
}

#[test]
fn two_ways_to_a_point_give_the_scalar() {
    // 1005 and 5 + 1000 are the same point, for a target of 1000.
    let t = candidate(0, &Fr::from_u64(1005), 1, &Fr::from_u64(5));
    assert_eq!(t.limbs, [1000, 0, 0, 0]);
    let u = candidate(1, &Fr::from_u64(5), 0, &Fr::from_u64(1005));
    assert_eq!(u.limbs, [1000, 0, 0, 0]);
}

#[test]
fn coefficients_far_apart() {
    // s1 + 127 t == s2 - 128 t for t == 1, with s2 - s1 == 255.
    let t = candidate(127, &Fr::from_u64(0), -128, &Fr::from_u64(255));
    assert_eq!(t.limbs, [1, 0, 0, 0]);
    let inverse = candidate(127, &Fr::from_u64(0), -128, &Fr::from_u64(1));
    assert_eq!(
        inverse.limbs,
        [0x88e877afcbd264c9, 0xce86d7e3e482240e, 0xb6b6b6b6b6b6b6b5, 0xb6b6b6b6b6b6b6b6]
    );
}

#[test]
fn only_other_coefficients_are_compared() {
    let paths = vec![(0i8, [5u64, 0, 0, 0]), (1, [5, 0, 0, 0]), (1, [7, 0, 0, 0])];
    let (found, intact) = candidates(0, [1005, 0, 0, 0], &paths);
    assert!(intact);
    let values: Vec<u64> = found.iter().map(|f| f.limbs[0]).collect();
    assert_eq!(values, vec![1000, 998]);
}

#[test]
fn comparing_ends_at_a_scalar_that_is_none() {
    let bad = [u64::MAX; 4];
    let paths = vec![(1i8, [5u64, 0, 0, 0]), (1, bad), (1, [7, 0, 0, 0])];
    let (found, intact) = candidates(0, [1005, 0, 0, 0], &paths);
    assert!(!intact);
    assert_eq!(found.len(), 1);
    let (none, intact) = candidates(0, bad, &paths);
    assert!(!intact);
    assert!(none.is_empty());
}

#[test]
fn collecting_points() {
    let mut c = collector();
    let first = match c.absorb(&message(5, 1, 5)) {
        Ok(a) => a,
        Err(_) => panic!("refused"),
    };
    assert_eq!(first.record, encode_record(0, &message(5, 1, 5)));
    assert!(first.candidates.is_empty());
    let second = match c.absorb(&message(5, 0, 1005)) {
        Ok(a) => a,
        Err(_) => panic!("refused"),
    };
    assert_eq!(second.record, encode_record(1, &message(5, 0, 1005)));
    assert_eq!(second.candidates.len(), 1);
    assert_eq!(second.candidates[0].limbs, [1000, 0, 0, 0]);
    assert_eq!((c.ram_seq, c.points), (2, 2));
    assert_eq!(c.map.get(&(5, 1, 2, 3)).unwrap().len(), 2);
}

#[test]
fn a_point_that_cannot_be_compared_is_refused() {
    let mut c = collector();
    let mut bad = message(5, 1, 5);
    bad.scalar_limbs = [u64::MAX; 4];
    // A new point is not looked into.
    assert!(c.absorb(&bad).is_ok());
    assert!(c.absorb(&message(5, 0, 1005)).is_err());
    assert_eq!((c.ram_seq, c.points), (1, 1));
    assert_eq!(c.map.get(&(5, 1, 2, 3)).unwrap().len(), 1);
}

#[test]
fn the_log_keeps_step_with_the_table() {
    let mut c = collector();
    let mut log = Vec::new();
    for m in [message(5, 1, 5), message(6, 0, 1), message(5, 0, 1005)] {
        match c.absorb(&m) {
            Ok(a) => log.extend(a.record),
            Err(_) => panic!("refused"),
        }
    }
    let mut map = DpMap::with_capacity(4);
    let mut seq = 0;
    assert_eq!(validate_and_load_db(&log, &mut map, &mut seq), Ok((3, 2)));
    assert_eq!(seq, c.ram_seq);
    for key in [(5, 1, 2, 3), (6, 1, 2, 3)] {
        assert_eq!(map.get(&key), c.map.get(&key));
    }
}

#[test]
fn a_checkpoint_restores() {
    let log = log_of(&[message(5, 0, 10), message(6, 1, 11)]);
    let m = checkpoint_manifest(4, 2, log.len() as u64);
    let mut map = DpMap::with_capacity(4);
    map.push((1, 1, 1, 1), (0, [0; 4]));
    assert_eq!(
        restore_checkpoint(4, &m, &log, &mut map),
        Ok(Resume { active_gen: 5, global_seq: 2, durable_records: 2 })
    );
    assert!(map.get(&(1, 1, 1, 1)).is_none());
    assert!(map.get(&(6, 1, 2, 3)).is_some());
}

#[test]
fn an_empty_checkpoint_restores() {
    let m = checkpoint_manifest(1, 0, 0);
    let mut map = DpMap::with_capacity(4);
    assert_eq!(
        restore_checkpoint(1, &m, &[], &mut map),
        Ok(Resume { active_gen: 2, global_seq: 0, durable_records: 0 })
    );
}

#[test]
fn a_checkpoint_with_a_manifest_that_does_not_fit() {
    let log = log_of(&[message(5, 0, 10)]);
    let m = checkpoint_manifest(4, 1, log.len() as u64);
    let mut map = DpMap::with_capacity(4);
    map.push((1, 1, 1, 1), (0, [0; 4]));
    assert_eq!(restore_checkpoint(5, &m, &log, &mut map), Err(Rejection::Manifest));
    assert_eq!(restore_checkpoint(4, &m, &log[1..], &mut map), Err(Rejection::Manifest));
    assert!(map.get(&(1, 1, 1, 1)).is_some());
}

#[test]
fn no_generation_follows_the_last() {
    let log = log_of(&[message(5, 0, 10)]);
    let mut map = DpMap::with_capacity(4);
    let m = checkpoint_manifest(u64::MAX, 1, log.len() as u64);
    assert_eq!(
        restore_checkpoint(u64::MAX, &m, &log, &mut map),
        Err(Rejection::LastGeneration)
    );
    let mut other = checkpoint_manifest(u64::MAX, 1, log.len() as u64);
    other.records_total = 2;
    assert_eq!(
        restore_checkpoint(u64::MAX, &other, &log, &mut map),
        Err(Rejection::Mismatch)
    );
}

#[test]
fn a_checkpoint_with_a_damaged_log() {
    let mut log = log_of(&[message(5, 0, 10)]);
    log[0] ^= 1;
    let m = checkpoint_manifest(4, 1, log.len() as u64);
    let mut map = DpMap::with_capacity(4);
    assert_eq!(
        restore_checkpoint(4, &m, &log, &mut map),
        Err(Rejection::Damaged(DbError::BadChecksum { record: 0 }))
    );
}

#[test]
fn a_checkpoint_with_another_log() {
    let log = log_of(&[message(5, 0, 10), message(6, 1, 11)]);
    let mut map = DpMap::with_capacity(4);
    let mut m = checkpoint_manifest(4, 2, log.len() as u64);
    m.records_total = 3;
    assert_eq!(restore_checkpoint(4, &m, &log, &mut map), Err(Rejection::Mismatch));
    let other = checkpoint_manifest(4, 9, log.len() as u64);
    assert_eq!(restore_checkpoint(4, &other, &log, &mut map), Err(Rejection::Mismatch));
}

#[test]
fn the_writer_keeps_step_with_the_log() {
    let mut writer = DiskState::new(0);
    let mut c = collector();
    let mut log = Vec::new();
    for m in [message(5, 1, 5), message(6, 0, 1)] {
        let record = match c.absorb(&m) {
            Ok(a) => a.record,
            Err(_) => panic!("refused"),
        };
        assert_eq!(writer.step(DiskEvent::Record).action, DiskAction::Write);
        log.extend(record);
        writer.step(DiskEvent::Done(true));
    }
    let mut map = DpMap::with_capacity(4);
    let mut seq = 0;
    assert_eq!(validate_and_load_db(&log, &mut map, &mut seq), Ok((2, 1)));
    assert_eq!(seq, writer.seq);
    // What the writer commits is what a later run takes up.
    let m = checkpoint_manifest(9, writer.seq, log.len() as u64);
    assert_eq!(
        restore_checkpoint(9, &m, &log, &mut map),
        Ok(Resume { active_gen: 10, global_seq: 2, durable_records: 2 })
    );
}
