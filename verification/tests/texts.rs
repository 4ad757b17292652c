use kangputus::checkpoint::{
    checkpoint_generation, checkpoint_manifest, checkpoint_name, fresh_start, get_all_checkpoints,
    manifest_is_committed, newest_first, retired_generation, Restart, RestartStep, Resume,
    GENERATIONS_KEPT,
};
use kangputus::report::{
    checked_text, describe_key, found_message, hash160_to_address, private_key_to_wif_compressed,
    telegram_alert,
};
use kangputus::text::{
    parse_unsigned, push_decimal, same_text, skip_leading, text_at, text_contains, text_ends_with,
};

fn key_of(v: u8) -> [u8; 32] {
    let mut key = [0u8; 32];
    key[31] = v;
    key
}

const HASH_OF_ONE: [u8; 20] = [
    0x75, 0x1e, 0x76, 0xe8, 0x19, 0x91, 0x96, 0xd4, 0x54, 0x94, 0x1c, 0x45, 0xd1, 0xb3, 0xa3, 0x23,
    0xf1, 0x43, 0x3b, 0xd6,
];

#[test]
fn text_comparisons() {
    assert!(same_text("añb", "añb"));
    assert!(!same_text("ab", "abc"));
    assert!(!same_text("ab", "ac"));
    assert!(text_at("abcd", "cd", 2));
    assert!(!text_at("abcd", "cd", 3));
    assert!(text_ends_with("checkpoint_tmp", "_tmp"));
    assert!(!text_ends_with("tmp", "_tmp"));
    assert!(text_contains("xxCUA_BAN_DIENyy", "CUA_BAN_DIEN"));
    assert!(!text_contains("CUA_BAN_DIE", "CUA_BAN_DIEN"));
    assert!(text_contains("", ""));
    assert_eq!(skip_leading("000120", '0'), "120");
    assert_eq!(skip_leading("000", '0'), "");
}

#[test]
fn decimal_texts() {
    let mut s = String::from("n=");
    push_decimal(&mut s, 340282366920938463463374607431768211455);
    assert_eq!(s, "n=340282366920938463463374607431768211455");
    let mut z = String::new();
    push_decimal(&mut z, 0);
    assert_eq!(z, "0");
}

#[test]
fn unsigned_numbers_parse_as_in_std() {
    for s in [
        "0", "42", "+42", "-1", "", "+", "18446744073709551615", "18446744073709551616", "00007",
        "1_0", " 1", "1 ", "٣", "++1",
    ] {
        assert_eq!(parse_unsigned(s), s.parse::<u64>().ok(), "{}", s);
    }
}

#[test]
fn checkpoint_names_parse_back() {
    for gen in [0u64, 1, 9, 10, 12345, u64::MAX] {
        let name = checkpoint_name(gen);
        assert_eq!(name, format!("checkpoint_{}", gen));
        assert_eq!(checkpoint_generation(&name), Some(gen));
    }
}

#[test]
fn checkpoints_among_directory_entries() {
    let names: Vec<String> = [
        "checkpoint_10", "checkpoint_2", "checkpoint_tmp", "checkpoint_7_tmp", "other", "",
        "checkpoint_", "checkpoint_x", "checkpoint_+3", "checkpoint_2", "Checkpoint_5",
    ]
    .iter()
    .map(|s| s.to_string())
    .collect();
    assert_eq!(get_all_checkpoints(&names), vec![2, 2, 3, 10]);
    assert_eq!(newest_first(&get_all_checkpoints(&names)), vec![10, 3, 2, 2]);
    assert_eq!(get_all_checkpoints(&Vec::new()), Vec::<u64>::new());
    assert_eq!(newest_first(&Vec::new()), Vec::<u64>::new());
}

#[test]
fn a_restart_tries_the_newest_first() {
    let found = Resume { active_gen: 4, global_seq: 9, durable_records: 9 };
    let mut r = Restart::new(&vec![2, 3, 10]);
    assert_eq!(r.step(None), RestartStep::Try(10));
    assert_eq!(r.step(None), RestartStep::Try(3));
    assert_eq!(r.step(Some(found)), RestartStep::Resume(found));
    let mut none = Restart::new(&vec![2]);
    assert_eq!(none.step(None), RestartStep::Try(2));
    assert_eq!(none.step(None), RestartStep::Fresh);
    assert_eq!(Restart::new(&Vec::new()).step(None), RestartStep::Fresh);
}

#[test]
fn manifests() {
    let m = checkpoint_manifest(5, 3, 231);
    assert_eq!(m.version, 1);
    assert_eq!(m.checkpoint_gen, 5);
    assert_eq!(m.records_total, 3);
    assert_eq!(m.last_seq, 2);
    assert_eq!(m.size, 231);
    assert_eq!(m.status, "committed");
    assert!(manifest_is_committed(&m, 5));
    assert!(!manifest_is_committed(&m, 6));
    let empty = checkpoint_manifest(1, 0, 0);
    assert_eq!(empty.last_seq, 0);
    assert_eq!(empty.records_total, 0);
    let mut other = checkpoint_manifest(5, 3, 231);
    other.version = 2;
    assert!(!manifest_is_committed(&other, 5));
    let mut open = checkpoint_manifest(5, 3, 231);
    open.status = String::from("open");
    assert!(!manifest_is_committed(&open, 5));
}

#[test]
fn old_generations_are_given_up() {
    assert_eq!(GENERATIONS_KEPT, 3);
    assert_eq!(retired_generation(3), None);
    assert_eq!(retired_generation(4), Some(1));
    assert_eq!(retired_generation(10), Some(7));
    assert_eq!(retired_generation(0), None);
}

#[test]
fn a_fresh_run() {
    let r = fresh_start();
    assert_eq!((r.active_gen, r.global_seq, r.durable_records), (1, 0, 0));
}

#[test]
fn address_of_the_first_key() {
    assert_eq!(hash160_to_address(&HASH_OF_ONE), "1BgGZ9tcN4rm9KBzDn7KprQz87SZ26SAMH");
}

#[test]
fn import_format_of_the_first_key() {
    assert_eq!(
        private_key_to_wif_compressed(&key_of(1)),
        "KwDiBf89QgGbjEhKnhXJuH7LrciVrZi3qYjgd9M7rFU73sVHnoWn"
    );
}

#[test]
fn addresses_and_keys_decode_to_their_payload() {
    for v in [0u8, 1, 2, 255] {
        let hash = [v; 20];
        let address = hash160_to_address(&hash);
        assert!(address.starts_with('1'));
        let bytes = bs58::decode(&address).into_vec().unwrap();
        assert_eq!(bytes.len(), 25);
        assert_eq!(bytes[0], 0);
        assert_eq!(bytes[1..21], hash);
        let key = [v; 32];
        let wif = private_key_to_wif_compressed(&key);
        assert_eq!(wif.len(), 52);
        assert!(wif.starts_with('K') || wif.starts_with('L'));
        let bytes = bs58::decode(&wif).into_vec().unwrap();
        assert_eq!(bytes.len(), 38);
        assert_eq!((bytes[0], bytes[33]), (0x80, 1));
        assert_eq!(bytes[1..33], key);
    }
    assert_ne!(hash160_to_address(&[0; 20]), hash160_to_address(&[1; 20]));
    assert!(private_key_to_wif_compressed(&[0; 32]).starts_with('K'));
    assert!(private_key_to_wif_compressed(&[255; 32]).starts_with('L'));
}

#[test]
fn base58_with_a_given_digest() {
    let mut digest = [0u8; 32];
    digest[0] = 1;
    digest[1] = 2;
    digest[2] = 3;
    digest[3] = 4;
    digest[4] = 99;
    assert_eq!(checked_text(&[0, 0, 0x61, 0x62, 0x63], &digest), "114h3c4QqwDd");
}

#[test]
fn what_is_told_of_a_key() {
    let s = describe_key(&key_of(0x2a), &HASH_OF_ONE);
    assert_eq!(s.address, "1BgGZ9tcN4rm9KBzDn7KprQz87SZ26SAMH");
    assert_eq!(s.hex, "2a");
    assert_eq!(s.wif, private_key_to_wif_compressed(&key_of(0x2a)));
    assert_eq!(describe_key(&key_of(0), &HASH_OF_ONE).hex, "");
}

#[test]
fn announcement_of_a_solution() {
    assert_eq!(
        found_message("A", "W", "1f"),
        "\n======================================\n🚀 BINGO! PUZZLE SOLVED! 🚀\nAddress: A\nWIF: W\nHEX: 1f\n======================================\n"
    );
}

#[test]
fn alerts_need_a_token() {
    assert!(telegram_alert("BOT_TOKEN_CUA_BAN_DIEN_VAO_DAY", "c", "A", "W", "1f").is_none());
    let alert = telegram_alert("tok", "42", "A", "W", "1f").unwrap();
    assert_eq!(alert.url, "https://api.telegram.org/bottok/sendMessage");
    assert_eq!(
        alert.payload,
        "{\"chat_id\": \"42\", \"text\": \"✅ BINGO! MATCH FOUND (140-BIT)!\\n\\nAddress: A\\nWIF: W\\nHEX: 1f\"}"
    );
}
