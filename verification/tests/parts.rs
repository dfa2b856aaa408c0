use scram::crypto::KEY_LENGTH;
use scram::exchange::{Exchange, Exchanges};
use scram::store::same_key;
use scram::table::Table;
use scram::text::{decimal_text, part, same_bytes, same_text};
use scram::{
    make_room, AuthenticateError, ClientFinal, CredentialStore, Mechanism, Presented, Verifier,
    MOST_OPEN,
};

#[test]
fn text_parts_at_the_first_separator() {
    assert_eq!(part("a,b,c", ','), ("a", Some("b,c")));
    assert_eq!(part(",", ','), ("", Some("")));
    assert_eq!(part("abc", ','), ("abc", None));
    assert_eq!(part("", ','), ("", None));
    assert_eq!(part("\u{e9}\u{1f511},\u{fc}", ','), ("\u{e9}\u{1f511}", Some("\u{fc}")));
}

#[test]
fn numbers_are_written_in_decimal() {
    assert_eq!(decimal_text(0), "0");
    assert_eq!(decimal_text(9), "9");
    assert_eq!(decimal_text(10), "10");
    assert_eq!(decimal_text(4096), "4096");
    assert_eq!(decimal_text(u64::MAX), "18446744073709551615");
}

#[test]
fn texts_bytes_and_keys_are_compared_whole() {
    assert!(same_text("\u{e9}", "\u{e9}"));
    assert!(!same_text("\u{e9}", "e\u{301}"));
    assert!(!same_text("a", "ab"));
    assert!(same_bytes(b"", b""));
    assert!(!same_bytes(b"a", b"b"));
    let key = [7u8; KEY_LENGTH];
    let mut other = key;
    assert!(same_key(&key, &other));
    other[KEY_LENGTH - 1] = 6;
    assert!(!same_key(&key, &other));
    other = key;
    other[0] = 8;
    assert!(!same_key(&key, &other));
}

#[test]
fn a_table_holds_one_value_under_each_text() {
    let mut table: Table<u64> = Table::new();
    assert_eq!(table.len(), 0);
    table.insert("a".to_string(), 1);
    table.insert("b".to_string(), 2);
    table.insert("a".to_string(), 3);
    assert_eq!(table.len(), 2);
    assert_eq!(table.get("a"), Some(&3));
    assert!(table.contains_key("b"));
    assert_eq!(table.remove("b"), Some(2));
    assert_eq!(table.remove("b"), None);
    assert_eq!(table.get("b"), None);
    assert_eq!(table.len(), 1);
}

#[test]
fn room_is_made_by_age_and_only_where_it_is_needed() {
    let mut table: Table<u64> = Table::new();
    // The youngest were put in first.
    for count in 0..MOST_OPEN as u64 - 1 {
        table.insert(format!("{count}"), 10_000 - count);
    }
    make_room(&mut table, |age| *age);
    assert_eq!(table.len(), MOST_OPEN - 1);
    for count in 0..3 {
        table.insert(format!("more{count}"), 20_000 + count);
    }
    make_room(&mut table, |age| *age);
    assert_eq!(table.len(), MOST_OPEN - 1);
    let oldest = MOST_OPEN as u64 - 2;
    for gone in [oldest, oldest - 1, oldest - 2] {
        assert!(!table.contains_key(&format!("{gone}")));
    }
    assert!(table.contains_key(&format!("{}", oldest - 3)));
    assert!(table.contains_key("0"));
    assert!(table.contains_key("more0"));
}

#[test]
fn a_claim_carries_its_proofs_by_name() {
    let claim = Presented::passed(Mechanism::new("username"), "alice")
        .with_proof("one", "1")
        .with_proof("two", "2")
        .with_proof("one", "3");
    assert_eq!(claim.mechanism().name(), "username");
    assert_eq!(claim.value(), "alice");
    assert_eq!(claim.proof_named("one"), Some("3"));
    assert_eq!(claim.proof_named("two"), Some("2"));
    assert_eq!(claim.proof_named("three"), None);
    assert_eq!(AuthenticateError::new("so").message, "so");
}

#[test]
fn a_store_holds_the_latest_enrollment_of_a_name() {
    let mut store = CredentialStore::with_iterations(9);
    assert_eq!(store.iterations(), 9);
    assert!(!store.contains("a"));
    store.insert_verifier("a", Verifier::new(vec![1], 2, [3; 32], [4; 32]));
    store.insert_verifier("a", Verifier::new(vec![5, 6], 7, [8; 32], [9; 32]));
    let held = store.verifier_of("a").expect("enrolled");
    assert_eq!(held.salt(), [5, 6]);
    assert_eq!(held.iterations(), 7);
    assert_eq!(held.stored_key(), &[8; 32]);
    assert_eq!(held.server_key(), &[9; 32]);
    assert!(held.accepts(&[8; 32]));
    assert!(!held.accepts(&[9; 32]));
    assert!(!held.proves(&[8; 32]));
    assert!(store.verifier_of("b").is_none());
    let copy = held.clone();
    assert_eq!(copy.salt(), held.salt());
}

#[test]
fn a_key_proves_where_its_digest_is_stored() {
    // The SHA-256 digest of thirty-two zero bytes.
    let digest: [u8; 32] = [
        0x66, 0x68, 0x7a, 0xad, 0xf8, 0x62, 0xbd, 0x77, 0x6c, 0x8f, 0xc1, 0x8b, 0x8e, 0x9f, 0x8e,
        0x20, 0x08, 0x97, 0x14, 0x85, 0x6e, 0xe2, 0x33, 0xb3, 0x90, 0x2a, 0x59, 0x1d, 0x0d, 0x5f,
        0x29, 0x25,
    ];
    let held = Verifier::new(vec![], 1, digest, [0; 32]);
    assert!(held.proves(&[0; 32]));
    assert!(!held.proves(&[1; 32]));
}

#[test]
fn a_final_message_must_fit_its_exchange() {
    let exchange = Exchange {
        opened: 1,
        username: "user".to_string(),
        gs2_header: "n,,".to_string(),
        transcript: "n=user,r=a,r=ab,s=,i=1".to_string(),
        verifier: None,
    };
    let last = ClientFinal::parse("c=biws,r=ab,p=AQID").expect("read");
    assert!(exchange.fits("user", &last).is_ok());
    assert_eq!(
        exchange.fits("User", &last).expect_err("another").message,
        "the claim names 'User' and the SCRAM exchange was opened by 'user'"
    );
    assert_eq!(exchange.weigh("user", &last).expect("weighed"), None);
}

#[test]
fn numbers_are_given_out_from_one_on() {
    let mut exchanges = Exchanges::new();
    assert_eq!(exchanges.sequence(), 0);
    assert_eq!(exchanges.next(), 1);
    assert_eq!(exchanges.next(), 2);
    exchanges.sign("n".to_string(), "s".to_string());
    assert_eq!(exchanges.next(), 4);
    assert_eq!(exchanges.sequence(), 4);
    assert_eq!(exchanges.open_len(), 0);
    assert_eq!(exchanges.proven_len(), 1);
    assert_eq!(exchanges.collect("n").as_deref(), Some("s"));
}
