use base64::engine::general_purpose::STANDARD;
use base64::Engine;
use hmac::{Hmac, Mac};
use pbkdf2::pbkdf2_hmac;
use scram::authenticator::{decoy_salt, recover_key, server_first_message};
use scram::nonce::NonceSource;
use scram::{
    ClientFinal, CredentialStore, Mechanism, Presented, ScramAuthenticator, Verified, Verifier,
    MOST_OPEN, PROOF,
};
use sha2::{Digest, Sha256};

const ITERATIONS: u32 = 4096;

// RFC 7677 section 3: user "user", password "pencil".
const CLIENT_FIRST: &str = "n,,n=user,r=rOprNGfwEbeRWgbNEkqO";
const SERVER_NONCE: &str = "%hvYDpWUa2RaTCAfuxFIlj)hNlF$k0";
const SERVER_FIRST: &str = "r=rOprNGfwEbeRWgbNEkqO%hvYDpWUa2RaTCAfuxFIlj)hNlF$k0,\
                            s=W22ZaJ0SNY7soEsUEjb6gQ==,i=4096";
const CLIENT_FINAL: &str = "c=biws,r=rOprNGfwEbeRWgbNEkqO%hvYDpWUa2RaTCAfuxFIlj)hNlF$k0,\
                            p=dHzbZapWIk4jUhN+Ute9ytag9zjfMHgsqmmiz7AndVQ=";
const SERVER_FINAL: &str = "v=6rriTRBi23WpRR/wtup+mMhUZUn/dB5nLTJRsjl95G4=";
const NONCE: &str = "rOprNGfwEbeRWgbNEkqO%hvYDpWUa2RaTCAfuxFIlj)hNlF$k0";

fn sha256(data: &[u8]) -> [u8; 32] {
    Sha256::digest(data).into()
}

fn hmac_sha256(key: &[u8], message: &[u8]) -> [u8; 32] {
    let mut mac = Hmac::<Sha256>::new_from_slice(key).expect("any length");
    mac.update(message);
    mac.finalize().into_bytes().into()
}

fn pbkdf2_sha256(password: &[u8], salt: &[u8], iterations: u32) -> [u8; 32] {
    let mut salted = [0u8; 32];
    pbkdf2_hmac::<Sha256>(password, salt, iterations, &mut salted);
    salted
}

/// What is kept of a password, as RFC 5802 derives it.
fn derive(password: &str, salt: &[u8], iterations: u32) -> Verifier {
    let salted = pbkdf2_sha256(password.as_bytes(), salt, iterations);
    let stored_key = sha256(&hmac_sha256(&salted, b"Client Key"));
    let server_key = hmac_sha256(&salted, b"Server Key");
    Verifier::new(salt.to_vec(), iterations, stored_key, server_key)
}

fn enrolled(iterations: u32, name: &str, password: &str) -> CredentialStore {
    let mut store = CredentialStore::with_iterations(iterations);
    store.insert_verifier(name, derive(password, b"sixteen byte salt"[..16].as_ref(), iterations));
    store
}

fn published() -> ScramAuthenticator<impl NonceSource> {
    let salt = STANDARD.decode("W22ZaJ0SNY7soEsUEjb6gQ==").expect("base64");
    let mut store = CredentialStore::with_iterations(ITERATIONS);
    store.insert_verifier("user", derive("pencil", &salt, ITERATIONS));
    ScramAuthenticator::new(store).with_nonces(|| SERVER_NONCE.to_string())
}

fn claim(username: &str, client_final: &str) -> Presented {
    Presented::passed(Mechanism::new("scram"), username).with_proof(PROOF, client_final)
}

/// The client's half: answer a server-first-message with a password.
fn client_final(client_first_bare: &str, server_first: &str, password: &str) -> String {
    let field = |name: &str| {
        server_first
            .split(',')
            .find_map(|part| part.strip_prefix(name))
            .expect("present")
    };
    let salt = STANDARD.decode(field("s=")).expect("base64");
    let iterations: u32 = field("i=").parse().expect("a number");
    let without_proof = format!("c=biws,r={}", field("r="));
    let auth_message = format!("{client_first_bare},{server_first},{without_proof}");
    let salted = pbkdf2_sha256(password.as_bytes(), &salt, iterations);
    let client_key = hmac_sha256(&salted, b"Client Key");
    let signature = hmac_sha256(&sha256(&client_key), auth_message.as_bytes());
    let proof: Vec<u8> = client_key
        .iter()
        .zip(signature)
        .map(|(key, byte)| key ^ byte)
        .collect();
    format!("{without_proof},p={}", STANDARD.encode(proof))
}

#[test]
fn the_exchange_rfc_7677_publishes_is_proven_and_signed_as_published() {
    let mut verifier = published();
    assert_eq!(
        verifier.server_first(CLIENT_FIRST).expect("answered"),
        SERVER_FIRST
    );
    assert_eq!(
        verifier
            .verify(&claim("user", CLIENT_FINAL))
            .expect("verified"),
        Verified::Proven
    );
    assert_eq!(verifier.server_final(NONCE).as_deref(), Some(SERVER_FINAL));
    // Collected once.
    assert_eq!(verifier.server_final(NONCE), None);
    assert_eq!(verifier.mechanism().name(), "scram");
}

#[test]
fn an_enrolled_password_proves_a_username_claim_and_a_wrong_one_is_refused() {
    let store = enrolled(ITERATIONS, "alice", "pencil");
    let mut verifier = ScramAuthenticator::new(store);
    for (password, outcome) in [("pencil", Verified::Proven), ("pen", Verified::Refused)] {
        let server_first = verifier
            .server_first("n,,n=alice,r=fyko+d2lbbFgONRv9qkxdawL")
            .expect("answered");
        let last = client_final(
            "n=alice,r=fyko+d2lbbFgONRv9qkxdawL",
            &server_first,
            password,
        );
        let bare = Presented::passed(Mechanism::new("username"), "alice").with_proof(PROOF, &last);
        assert_eq!(verifier.verify(&bare).expect("verified"), outcome);
        let nonce = ClientFinal::parse(&last).expect("read").nonce;
        assert_eq!(
            verifier.server_final(&nonce).is_some(),
            outcome == Verified::Proven
        );
    }
    assert!(verifier.store().contains("alice"));
}

#[test]
fn a_finished_exchange_cannot_be_replayed() {
    let mut verifier = published();
    verifier.server_first(CLIENT_FIRST).expect("answered");
    verifier
        .verify(&claim("user", CLIENT_FINAL))
        .expect("verified");
    let replay = verifier
        .verify(&claim("user", CLIENT_FINAL))
        .expect_err("replay");
    assert!(
        replay.message.contains("already finished"),
        "{}",
        replay.message
    );
}

#[test]
fn an_unknown_name_is_answered_like_a_known_one_and_refused_at_the_end() {
    let store = enrolled(ITERATIONS, "alice", "pencil");
    let mut verifier = ScramAuthenticator::new(store);
    let first = verifier
        .server_first("n,,n=mallory,r=abc")
        .expect("answered");
    let again = verifier
        .server_first("n,,n=mallory,r=abd")
        .expect("answered");
    let salt = |message: &str| {
        message
            .split(',')
            .find_map(|part| part.strip_prefix("s=").map(str::to_string))
            .expect("a salt")
    };
    assert_eq!(salt(&first), salt(&again));
    assert!(first.ends_with(",i=4096"));

    let last = client_final("n=mallory,r=abc", &first, "pencil");
    assert_eq!(
        verifier.verify(&claim("mallory", &last)).expect("verified"),
        Verified::Refused
    );
}

#[test]
fn a_claim_for_another_name_and_another_binding_are_refused_saying_so() {
    let mut verifier = published();
    verifier.server_first(CLIENT_FIRST).expect("answered");
    let failure = verifier
        .verify(&claim("admin", CLIENT_FINAL))
        .expect_err("refused");
    assert!(
        failure.message.contains("opened by 'user'"),
        "{}",
        failure.message
    );

    verifier.server_first(CLIENT_FIRST).expect("answered");
    // "eSws" is base64 of "y,,": not the header this exchange opened with.
    let rebound = CLIENT_FINAL.replace("c=biws", "c=eSws");
    let failure = verifier
        .verify(&claim("user", &rebound))
        .expect_err("refused");
    assert!(
        failure.message.contains("channel binding"),
        "{}",
        failure.message
    );
}

#[test]
fn a_missing_proof_and_another_mechanism_are_refused_by_name() {
    let bare = Presented::passed(Mechanism::new("scram"), "user");
    let failure = published().verify(&bare).expect_err("refused");
    assert!(
        failure.message.contains("'scram.client-final' proof"),
        "{}",
        failure.message
    );
    let key = Presented::passed(Mechanism::new("api-key"), "k-1").with_proof(PROOF, CLIENT_FINAL);
    let failure = published().verify(&key).expect_err("refused");
    assert!(failure.message.contains("'api-key'"), "{}", failure.message);
}

#[test]
fn the_oldest_open_exchange_makes_room_for_the_newest() {
    let mut verifier = published();
    let mut count = 0_usize;
    while count <= MOST_OPEN {
        verifier
            .server_first(&format!("n,,n=user,r=client{count}-"))
            .expect("answered");
        count += 1;
    }
    let exchanges = verifier.exchanges();
    assert_eq!(exchanges.open_len(), MOST_OPEN);
    assert!(!exchanges.is_open(&format!("client0-{SERVER_NONCE}")));
    assert!(exchanges.is_open(&format!("client1-{SERVER_NONCE}")));
}

#[test]
fn each_refusal_of_a_claim_is_told_in_full() {
    let mut verifier = published();
    let key = Presented::passed(Mechanism::new("api-key"), "k-1");
    assert_eq!(
        verifier.verify(&key).expect_err("told").message,
        "'api-key' is not a claim the SCRAM verifier reads: it takes a username"
    );
    let bare = Presented::passed(Mechanism::new("username"), "user").with_proof("other", "x");
    assert_eq!(
        verifier.verify(&bare).expect_err("told").message,
        "no 'scram.client-final' proof was presented with the username 'user'"
    );
    assert_eq!(
        verifier.verify(&claim("user", "c=biws")).expect_err("told").message,
        "the SCRAM client-final-message does not end with a proof"
    );
    assert_eq!(
        verifier.verify(&claim("user", CLIENT_FINAL)).expect_err("told").message,
        "no SCRAM exchange is open under that nonce: never opened, or already finished"
    );
    verifier.server_first(CLIENT_FIRST).expect("answered");
    assert_eq!(
        verifier.verify(&claim("admin", CLIENT_FINAL)).expect_err("told").message,
        "the claim names 'admin' and the SCRAM exchange was opened by 'user'"
    );
    verifier.server_first(CLIENT_FIRST).expect("answered");
    let rebound = CLIENT_FINAL.replace("c=biws", "c=eSws");
    assert_eq!(
        verifier.verify(&claim("user", &rebound)).expect_err("told").message,
        "the SCRAM channel binding is not the GS2 header the exchange opened with"
    );
    verifier.server_first(CLIENT_FIRST).expect("answered");
    let short = format!("c=biws,r={NONCE},p=AQID");
    assert_eq!(
        verifier.verify(&claim("user", &short)).expect_err("told").message,
        "the SCRAM proof is 3 bytes and SHA-256's is 32"
    );
    assert_eq!(verifier.exchanges().open_len(), 0);
    assert_eq!(verifier.exchanges().proven_len(), 0);
}

#[test]
fn an_unreadable_claim_leaves_the_exchange_open() {
    let mut verifier = published();
    verifier.server_first(CLIENT_FIRST).expect("answered");
    verifier.verify(&claim("user", "nothing")).expect_err("unreadable");
    assert!(verifier.exchanges().is_open(NONCE));
    assert_eq!(
        verifier.verify(&claim("user", CLIENT_FINAL)).expect("verified"),
        Verified::Proven
    );
    assert!(!verifier.exchanges().is_open(NONCE));
    assert_eq!(verifier.exchanges().proven_len(), 1);
}

#[test]
fn a_message_that_cannot_be_read_opens_nothing() {
    let mut verifier = published();
    let failure = verifier.server_first("p=x,,n=user,r=abc").expect_err("refused");
    assert_eq!(
        failure.message,
        "the SCRAM client requires channel binding and this node offers none"
    );
    assert_eq!(verifier.exchanges().open_len(), 0);
    assert_eq!(verifier.exchanges().sequence(), 0);
}

#[test]
fn an_unknown_name_is_refused_whatever_the_proof() {
    let mut verifier = published();
    verifier.server_first("n,,n=mallory,r=a").expect("answered");
    let last = format!("c=biws,r=a{SERVER_NONCE},p=AQID");
    assert_eq!(
        verifier.verify(&claim("mallory", &last)).expect("verified"),
        Verified::Refused
    );
}

#[test]
fn an_unknown_name_has_the_head_of_a_digest_for_a_salt() {
    let decoy = *b"0123456789abcdef";
    let store = CredentialStore::with_iterations(7);
    let mut verifier =
        ScramAuthenticator::with_decoy(store, decoy).with_nonces(|| "S".to_string());
    let digest = sha256(b"0123456789abcdefmallory");
    assert_eq!(decoy_salt(&digest), digest[..16]);
    assert_eq!(
        verifier.server_first("n,,n=mallory,r=C").expect("answered"),
        format!("r=CS,s={},i=7", STANDARD.encode(&digest[..16]))
    );
}

#[test]
fn fresh_nonces_are_the_base64_of_salts_and_differ() {
    let mut verifier = ScramAuthenticator::new(CredentialStore::with_iterations(1));
    let mut nonce = || {
        let answer = verifier.server_first("n,,n=u,r=C").expect("answered");
        let combined = answer.split(',').next().expect("a nonce").to_string();
        combined.strip_prefix("r=C").expect("the client's half").to_string()
    };
    let (one, other) = (nonce(), nonce());
    assert_eq!(STANDARD.decode(&one).expect("base64").len(), 16);
    assert_ne!(one, other);
    assert_ne!(one, STANDARD.encode([0u8; 16]));
}

#[test]
fn decoys_differ_between_authenticators() {
    let answer = || {
        ScramAuthenticator::new(CredentialStore::with_iterations(1))
            .with_nonces(|| "S".to_string())
            .server_first("n,,n=u,r=C")
            .expect("answered")
    };
    assert_ne!(answer(), answer());
}

#[test]
fn a_server_first_message_is_written_in_full() {
    assert_eq!(server_first_message("ab", "c2FsdA==", 4096), "r=ab,s=c2FsdA==,i=4096");
    assert_eq!(server_first_message("", "", 0), "r=,s=,i=0");
    assert_eq!(
        server_first_message("x", "y", u32::MAX),
        "r=x,s=y,i=4294967295"
    );
}

#[test]
fn a_key_is_recovered_from_the_proof_made_from_it() {
    let key: [u8; 32] = sha256(b"key");
    let signature: [u8; 32] = sha256(b"signature");
    let shown: Vec<u8> = key.iter().zip(signature).map(|(a, b)| a ^ b).collect();
    assert_eq!(recover_key(&signature, &shown), Some(key));
    assert_eq!(recover_key(&signature, &shown[..31]), None);
    assert_eq!(recover_key(&signature, b""), None);
    assert_eq!(recover_key(&[0x0f; 32], &[0x3c; 32]), Some([0x33; 32]));
}

#[test]
fn an_exchange_opened_again_under_its_nonce_starts_over() {
    let mut verifier = published();
    verifier.server_first(CLIENT_FIRST).expect("answered");
    verifier.server_first(CLIENT_FIRST).expect("answered");
    assert_eq!(verifier.exchanges().open_len(), 1);
    assert_eq!(verifier.exchanges().sequence(), 2);
    assert_eq!(
        verifier.verify(&claim("user", CLIENT_FINAL)).expect("verified"),
        Verified::Proven
    );
}

#[test]
fn the_oldest_signature_makes_room_for_the_newest() {
    let mut verifier = ScramAuthenticator::new(enrolled(1, "u", "pw"))
        .with_nonces(|| "S".to_string());
    for count in 0..=MOST_OPEN {
        let bare = format!("n=u,r={count}-");
        let answer = verifier.server_first(&format!("n,,{bare}")).expect("answered");
        let last = client_final(&bare, &answer, "pw");
        assert_eq!(
            verifier.verify(&claim("u", &last)).expect("verified"),
            Verified::Proven
        );
    }
    assert_eq!(verifier.exchanges().open_len(), 0);
    assert_eq!(verifier.exchanges().proven_len(), MOST_OPEN);
    assert_eq!(verifier.server_final("0-S"), None);
    assert!(verifier.server_final("1-S").is_some());
    assert_eq!(verifier.server_final("1-S"), None);
    assert_eq!(verifier.exchanges().proven_len(), MOST_OPEN - 1);
}

#[test]
fn a_final_message_that_was_read_finishes_its_exchange() {
    let mut verifier = published();
    let last = ClientFinal::parse(CLIENT_FINAL).expect("read");
    let never = verifier.finish("user", last.clone()).expect_err("never opened");
    assert!(never.message.contains("never opened"), "{}", never.message);
    verifier.server_first(CLIENT_FIRST).expect("answered");
    assert_eq!(
        verifier.finish("user", last.clone()).expect("weighed"),
        Verified::Proven
    );
    assert_eq!(verifier.server_final(NONCE).as_deref(), Some(SERVER_FINAL));
    verifier.finish("user", last).expect_err("finished");
}

#[test]
fn a_claim_leaves_the_exchanges_of_others_as_they_stand() {
    let mut verifier = ScramAuthenticator::new(enrolled(1, "u", "pw"))
        .with_nonces(|| "S".to_string());
    let one = verifier.server_first("n,,n=u,r=one-").expect("answered");
    let two = verifier.server_first("n,,n=u,r=two-").expect("answered");
    let wrong = client_final("n=u,r=one-", &one, "another");
    assert_eq!(
        verifier.verify(&claim("u", &wrong)).expect("verified"),
        Verified::Refused
    );
    assert!(!verifier.exchanges().is_open("one-S"));
    assert!(verifier.exchanges().is_open("two-S"));
    assert_eq!(verifier.exchanges().proven_len(), 0);
    let right = client_final("n=u,r=two-", &two, "pw");
    assert_eq!(
        verifier.verify(&claim("u", &right)).expect("verified"),
        Verified::Proven
    );
    assert_eq!(verifier.server_final("one-S"), None);
    assert!(verifier.server_final("two-S").is_some());
}

#[test]
fn an_exchange_outlives_as_many_others_as_there_are_places_beside_it() {
    let mut verifier = ScramAuthenticator::new(enrolled(1, "u", "pw"))
        .with_nonces(|| "S".to_string());
    for count in 0..MOST_OPEN {
        verifier.server_first(&format!("n,,n=u,r=before{count}-")).expect("answered");
    }
    verifier.server_first("n,,n=u,r=kept-").expect("answered");
    for count in 1..MOST_OPEN {
        verifier.server_first(&format!("n,,n=u,r={count}-")).expect("answered");
        assert_eq!(verifier.server_final("kept-S"), None);
        assert!(verifier.exchanges().is_open("kept-S"));
    }
    assert_eq!(verifier.exchanges().open_len(), MOST_OPEN);
    verifier.server_first("n,,n=u,r=last-").expect("answered");
    assert!(!verifier.exchanges().is_open("kept-S"));
    assert!(verifier.exchanges().is_open("1-S"));
}

#[test]
fn an_exchange_is_not_pushed_out_by_one_nonce_used_again() {
    let mut verifier = ScramAuthenticator::new(enrolled(1, "u", "pw"))
        .with_nonces(|| "S".to_string());
    verifier.server_first("n,,n=u,r=kept-").expect("answered");
    for _ in 0..2 * MOST_OPEN {
        verifier.server_first("n,,n=u,r=again-").expect("answered");
    }
    assert_eq!(verifier.exchanges().open_len(), 2);
    assert!(verifier.exchanges().is_open("kept-S"));
}

#[test]
fn a_signature_outlives_as_many_proven_claims_as_there_are_places_beside_it() {
    let mut verifier = ScramAuthenticator::new(enrolled(1, "u", "pw"))
        .with_nonces(|| "S".to_string());
    for (name, later) in [("stays", MOST_OPEN - 1), ("goes", MOST_OPEN)] {
        for count in 0..=later {
            let bare = format!("n=u,r={name}{count}-");
            let answer = verifier.server_first(&format!("n,,{bare}")).expect("answered");
            let last = client_final(&bare, &answer, "pw");
            assert_eq!(
                verifier.verify(&claim("u", &last)).expect("verified"),
                Verified::Proven
            );
        }
        assert_eq!(
            verifier.server_final(&format!("{name}0-S")).is_some(),
            later < MOST_OPEN
        );
    }
}

#[test]
fn a_fresh_answer_falls_apart_at_its_commas() {
    let mut verifier = ScramAuthenticator::new(enrolled(7, "u", "pw"));
    for name in ["u", "nobody"] {
        let answer = verifier.server_first(&format!("n,,n={name},r=abc")).expect("answered");
        let fields: Vec<&str> = answer.split(',').collect();
        assert_eq!(fields.len(), 3);
        assert!(fields[0].starts_with("r=abc"));
        assert_eq!(STANDARD.decode(&fields[0][5..]).expect("base64").len(), 16);
        assert_eq!(STANDARD.decode(&fields[1][2..]).expect("base64").len(), 16);
        assert_eq!(fields[2], "i=7");
    }
}

#[test]
fn an_unknown_name_has_one_salt_whatever_is_asked_in_between() {
    let mut verifier = ScramAuthenticator::new(enrolled(7, "u", "pw"));
    let asked = |answer: String| -> (String, String) {
        let fields: Vec<&str> = answer.split(',').collect();
        (fields[1].to_string(), fields[2].to_string())
    };
    let once = asked(verifier.server_first("n,,n=nobody,r=a").expect("answered"));
    let answer = verifier.server_first("n,,n=u,r=b").expect("answered");
    let last = client_final("n=u,r=b", &answer, "pw");
    assert_eq!(
        verifier.verify(&claim("u", &last)).expect("verified"),
        Verified::Proven
    );
    let nonce = ClientFinal::parse(&last).expect("read").nonce;
    assert!(verifier.server_final(&nonce).is_some());
    let again = asked(verifier.server_first("y,a=x,n=nobody,r=c,e=1").expect("answered"));
    assert_eq!(once, again);
    assert_eq!(once.0.len(), "s=".len() + 24);
    assert_eq!(STANDARD.decode(&once.0[2..]).expect("base64").len(), 16);
    assert_eq!(once.1, "i=7");
    assert_ne!(once, asked(verifier.server_first("n,,n=other,r=a").expect("answered")));
}
