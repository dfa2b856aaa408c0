//! What each step of an exchange does, told in characters, in bytes and in
//! what is remembered.

use crate::authenticator;
use crate::authenticator::{ScramAuthenticator, ScramView, PROOF};
use crate::claim::{AuthenticateError, PresentedView, Verified};
use crate::crypto;
use crate::crypto::{KEY_LENGTH, SALT_LENGTH};
use crate::exchange::{Exchange, ExchangeView, ExchangesView, Signature, SignatureView};
use crate::exchange;
use crate::message;
use crate::message::{ClientFinal, ClientFinalView, ClientFirst, ClientFirstView, FinalFields};
use crate::nonce::{FreshNonces, NonceSource, SuppliedNonces};
use crate::store;
use crate::store::{StoreView, Verifier};
use crate::table;
use crate::table::MOST_OPEN;
use crate::text;
use vstd::prelude::*;

verus! {

/// The number that a run of decimal digits stands for.
pub open spec fn value_of(digits: Seq<char>) -> nat
    decreases digits.len(),
{
    if digits.len() == 0 {
        0
    } else {
        (value_of(digits.drop_last()) * 10 + (digits.last() as int - '0' as int)) as nat
    }
}

/// Whether a text is the number `n` in decimal: digits that stand for it, the
/// first of them not zero unless it is the only one.
pub open spec fn is_number(s: Seq<char>, n: nat) -> bool {
    &&& s.len() > 0
    &&& forall|i: int| 0 <= i < s.len() ==> '0' <= #[trigger] s[i] && s[i] <= '9'
    &&& s.len() > 1 ==> s[0] != '0'
    &&& value_of(s) == n
}

/// What is written for a number is that number in decimal.
pub proof fn law_decimal_reads_back(n: nat)
    ensures
        is_number(text::decimal(n), n),
    decreases n,
{
    let s = text::decimal(n);
    reveal_with_fuel(value_of, 2);
    if n >= 10 {
        law_decimal_reads_back(n / 10);
        let head = text::decimal(n / 10);
        assert(s.drop_last() =~= head);
        assert forall|i: int| 0 <= i < s.len() implies '0' <= #[trigger] s[i] && s[i] <= '9' by {
            if i < head.len() {
                assert(s[i] == head[i]);
            }
        }
        assert(s[0] == head[0]);
        if head.len() == 1 && head[0] == '0' {
            assert(head.drop_last() =~= Seq::<char>::empty());
            assert(value_of(head) == 0);
        }
    } else {
        assert(s.drop_last() =~= Seq::<char>::empty());
    }
}

/// Digits of which the first is not zero stand for no number below 1.
proof fn lemma_positive(s: Seq<char>)
    requires
        s.len() > 0,
        forall|i: int| 0 <= i < s.len() ==> '0' <= #[trigger] s[i] && s[i] <= '9',
        s[0] != '0',
    ensures
        value_of(s) >= 1,
    decreases s.len(),
{
    reveal_with_fuel(value_of, 2);
    if s.len() > 1 {
        let head = s.drop_last();
        assert forall|i: int| 0 <= i < head.len() implies '0' <= #[trigger] head[i] && head[i]
            <= '9' by {
            assert(head[i] == s[i]);
        }
        assert(head[0] == s[0]);
        lemma_positive(head);
    } else {
        assert(s.drop_last() =~= Seq::<char>::empty());
    }
}

/// A number is written in decimal in one way only.
pub proof fn law_decimal_is_the_only_one(s: Seq<char>, n: nat)
    requires
        is_number(s, n),
    ensures
        s == text::decimal(n),
    decreases s.len(),
{
    reveal_with_fuel(value_of, 2);
    let head = s.drop_last();
    let d = s.last() as int - '0' as int;
    assert(s =~= head.push(s.last()));
    if s.len() == 1 {
        assert(head =~= Seq::<char>::empty());
        assert(s =~= seq![text::digit(n)]);
    } else {
        assert forall|i: int| 0 <= i < head.len() implies '0' <= #[trigger] head[i] && head[i]
            <= '9' by {
            assert(head[i] == s[i]);
        }
        assert(head[0] == s[0]);
        lemma_positive(head);
        law_decimal_is_the_only_one(head, value_of(head));
        assert(n == value_of(head) * 10 + d);
        assert(n / 10 == value_of(head) && n % 10 == d);
        assert(s.last() == text::digit(n % 10));
    }
}

/// The limits and the names that clients and carriers go by.
pub proof fn law_limits_and_names()
    ensures
        MOST_OPEN == 1024,
        KEY_LENGTH == 32,
        SALT_LENGTH == 16,
        PROOF@ == "scram.client-final"@,
        message::proof_mark() == seq![',', 'p', '='],
{
}

/// What is read of a value is what its fields hold.
pub proof fn law_views_hold_the_fields(
    error: AuthenticateError,
    first: ClientFirst,
    last: ClientFinal,
    fields: FinalFields<'_>,
    exchange: Exchange,
    signature: Signature,
    held: Option<Verifier>,
    bytes: Option<Vec<u8>>,
)
    ensures
        error@ == error.message@,
        first@.gs2_header == first.gs2_header@,
        first@.bare == first.bare@,
        first@.username == first.username@,
        first@.nonce == first.nonce@,
        last@.binding == last.binding@,
        last@.nonce == last.nonce@,
        last@.without_proof == last.without_proof@,
        last@.proof == last.proof@,
        fields@.binding == fields.binding@,
        fields@.nonce == fields.nonce@,
        fields@.without_proof == fields.without_proof@,
        fields@.proof == fields.proof@,
        exchange@.opened == exchange.opened,
        exchange@.username == exchange.username@,
        exchange@.gs2_header == exchange.gs2_header@,
        exchange@.transcript == exchange.transcript@,
        exchange@.verifier == store::verifier_in(exchange.verifier),
        signature@.proven == signature.proven,
        signature@.text == signature.text@,
        held matches Some(verifier) ==> store::verifier_in(held) == Some(verifier@),
        held is None ==> store::verifier_in(held) is None,
        bytes matches Some(run) ==> crypto::bytes_in(bytes) == Some(run@),
        bytes is None ==> crypto::bytes_in(bytes) is None,
{
}

/// Base64 takes four characters for every three bytes begun, and it reads back
/// where it has that length, holds no comma, and decodes to the bytes.
pub proof fn law_base64_lengths(len: nat, bytes: Seq<u8>)
    ensures
        crypto::encoded_len(len) % 4 == 0,
        4 * len <= 3 * crypto::encoded_len(len) < 4 * len + 12,
        crypto::encodable(len) <==> crypto::encoded_len(len) <= isize::MAX,
        crypto::reads_back(bytes) <==> {
            &&& crypto::base64_bytes(crypto::base64_text(bytes)) == Some(bytes)
            &&& !crypto::base64_text(bytes).contains(',')
            &&& crypto::base64_text(bytes).len() == crypto::encoded_len(bytes.len())
        },
{
}

/// A fresh nonce is 24 characters without a comma that stand for 16 bytes; a
/// supplied one is what the supply returns. Fresh ones can always be had, and
/// supplied ones where the supply can be called.
pub proof fn law_nonces_come_from_their_source<F: Fn() -> String>(
    fresh: FreshNonces,
    supplied: SuppliedNonces<F>,
    nonce: Seq<char>,
)
    ensures
        fresh.ready(),
        fresh.gives(nonce) ==> {
            &&& nonce.len() == 24
            &&& !nonce.contains(',')
            &&& crypto::base64_bytes(nonce) is Some
            &&& crypto::base64_bytes(nonce)->0.len() == 16
        },
        supplied.ready() <==> supplied.supply().requires(()),
        supplied.gives(nonce) <==> exists|given: String| #[trigger]
            supplied.supply().ensures((), given) && given@ == nonce,
{
}

/// An authenticator is sound where its exchanges are valid and nonces can be
/// had.
pub proof fn law_authenticator_is_sound<N: NonceSource>(scram: ScramAuthenticator<N>)
    ensures
        scram.wf() <==> scram@.exchanges.valid() && scram.source().ready(),
{
}

/// What is dropped to make room is no younger than what stays, by an age that
/// is always the same.
pub proof fn law_age_decides<V, F: Fn(&V) -> u64>(age: F, a: V, b: V, age_of: spec_fn(V) -> u64)
    requires
        forall|value: V, found: u64| #[trigger]
            age.ensures((&value,), found) ==> found == age_of(value),
        table::no_younger(age, a, b),
    ensures
        age_of(a) <= age_of(b),
{
}

/// When an exchange was opened.
pub open spec fn opening_time() -> spec_fn(ExchangeView) -> nat {
    |exchange: ExchangeView| exchange.opened
}

/// When a signature was made.
pub open spec fn signing_time() -> spec_fn(SignatureView) -> nat {
    |signature: SignatureView| signature.proven
}

/// Whether no more than 1024 values are held, each remembered at a time of
/// its own, none of them later than `now`.
pub open spec fn well_kept<V>(held: Map<Seq<char>, V>, at: spec_fn(V) -> nat, now: nat) -> bool {
    &&& held.dom().finite()
    &&& held.len() <= 1024
    &&& forall|nonce: Seq<char>| #[trigger] held.contains_key(nonce) ==> at(held[nonce]) <= now
    &&& forall|a: Seq<char>, b: Seq<char>| #[trigger]
        held.contains_key(a) && #[trigger] held.contains_key(b) && at(held[a]) == at(held[b])
            ==> a == b
}

/// Whether there is no place left, and nothing was remembered before what is
/// held under `nonce`.
pub open spec fn crowded_out<V>(
    held: Map<Seq<char>, V>,
    at: spec_fn(V) -> nat,
    nonce: Seq<char>,
) -> bool {
    &&& held.len() >= 1024
    &&& forall|other: Seq<char>| #[trigger]
        held.contains_key(other) ==> at(held[nonce]) <= at(held[other])
}

/// Whether `value` was remembered under `nonce`, with all that was held before
/// still there but for the one that was crowded out.
pub open spec fn remembered<V>(
    before: Map<Seq<char>, V>,
    after: Map<Seq<char>, V>,
    at: spec_fn(V) -> nat,
    nonce: Seq<char>,
    value: V,
) -> bool {
    &&& after.contains_key(nonce)
    &&& after[nonce] == value
    &&& forall|other: Seq<char>|
        other != nonce ==> (#[trigger] after.contains_key(other) <==> before.contains_key(other)
            && !crowded_out(before, at, other))
    &&& forall|other: Seq<char>|
        other != nonce && #[trigger] after.contains_key(other) ==> after[other] == before[other]
}

/// Whether `after` is `before` without what was held under `nonce`.
pub open spec fn forgotten<V>(
    before: Map<Seq<char>, V>,
    after: Map<Seq<char>, V>,
    nonce: Seq<char>,
) -> bool {
    &&& !after.contains_key(nonce)
    &&& forall|other: Seq<char>|
        other != nonce ==> #[trigger] after.contains_key(other) == before.contains_key(other)
    &&& forall|other: Seq<char>|
        other != nonce && #[trigger] after.contains_key(other) ==> after[other] == before[other]
}

/// Exchanges are valid where the open ones and the signatures are well kept.
pub proof fn law_valid_is_well_kept(exchanges: ExchangesView)
    ensures
        exchanges.valid() <==> well_kept(exchanges.open, opening_time(), exchanges.sequence)
            && well_kept(exchanges.proven, signing_time(), exchanges.sequence),
{
    assert(opening_time() =~= exchange::opened_at());
    assert(signing_time() =~= exchange::proven_at());
}

/// At first nothing is remembered, and the numbers start behind 0.
pub proof fn law_nothing_at_first(nonce: Seq<char>)
    ensures
        ExchangesView::empty().valid(),
        ExchangesView::empty().sequence == 0,
        !ExchangesView::empty().open.contains_key(nonce),
        !ExchangesView::empty().proven.contains_key(nonce),
{
    assert(ExchangesView::empty().open.dom() =~= Set::empty());
    assert(ExchangesView::empty().proven.dom() =~= Set::empty());
}

/// Making room and putting a value in remembers it.
proof fn lemma_remembers<V>(
    before: Map<Seq<char>, V>,
    at: spec_fn(V) -> nat,
    now: nat,
    nonce: Seq<char>,
    value: V,
)
    requires
        exchange::orderly(before, at, now),
    ensures
        remembered(before, exchange::with_room(before, at).insert(nonce, value), at, nonce, value),
{
    let after = exchange::with_room(before, at).insert(nonce, value);
    if before.len() >= MOST_OPEN {
        exchange::lemma_some_oldest(before, at);
        let oldest = choose|nonce: Seq<char>| exchange::is_oldest(before, at, nonce);
        assert(exchange::is_oldest(before, at, oldest));
        assert forall|other: Seq<char>| other != nonce implies (#[trigger] after.contains_key(other)
            <==> before.contains_key(other) && !crowded_out(before, at, other)) by {
            if before.contains_key(other) && crowded_out(before, at, other) {
                assert(exchange::is_oldest(before, at, other));
                exchange::lemma_one_oldest(before, at, now, other);
            }
        }
    }
}

/// Opening an exchange remembers it, with the next number, and touches no
/// signature; taking one up forgets it and touches nothing else; signing
/// remembers the signature, with the next number, and touches no exchange;
/// collecting forgets the signature and touches nothing else.
pub proof fn law_each_step_touches_its_own(
    before: ExchangesView,
    nonce: Seq<char>,
    exchange: ExchangeView,
    sent: Seq<char>,
)
    requires
        before.valid(),
    ensures
        ({
            let after = before.opening(nonce, exchange);
            &&& after.sequence == before.sequence + 1
            &&& after.proven == before.proven
            &&& remembered(
                before.open,
                after.open,
                opening_time(),
                nonce,
                ExchangeView {
                    opened: before.sequence + 1,
                    username: exchange.username,
                    gs2_header: exchange.gs2_header,
                    transcript: exchange.transcript,
                    verifier: exchange.verifier,
                },
            )
        }),
        ({
            let after = before.taking(nonce);
            &&& after.sequence == before.sequence
            &&& after.proven == before.proven
            &&& forgotten(before.open, after.open, nonce)
        }),
        ({
            let after = before.signing(nonce, sent);
            &&& after.sequence == before.sequence + 1
            &&& after.open == before.open
            &&& remembered(
                before.proven,
                after.proven,
                signing_time(),
                nonce,
                SignatureView { proven: before.sequence + 1, text: sent },
            )
        }),
        ({
            let after = before.collecting(nonce);
            &&& after.sequence == before.sequence
            &&& after.open == before.open
            &&& forgotten(before.proven, after.proven, nonce)
        }),
{
    assert(opening_time() =~= exchange::opened_at());
    assert(signing_time() =~= exchange::proven_at());
    lemma_remembers(
        before.open,
        opening_time(),
        before.sequence,
        nonce,
        ExchangeView { opened: before.sequence + 1, ..exchange },
    );
    lemma_remembers(
        before.proven,
        signing_time(),
        before.sequence,
        nonce,
        SignatureView { proven: before.sequence + 1, text: sent },
    );
}

/// A server-first-message, letter for letter.
pub open spec fn written_answer(nonce: Seq<char>, salt: Seq<char>, count: Seq<char>) -> Seq<char> {
    seq!['r', '='] + nonce + seq![',', 's', '='] + salt + seq![',', 'i', '='] + count
}

/// A server-first-message is written letter for letter, with the count in
/// decimal.
pub proof fn law_answer_is_written_in_full(nonce: Seq<char>, salt: Seq<char>, iterations: u32)
    ensures
        exists|count: Seq<char>|
            is_number(count, iterations as nat) && authenticator::first_answer(
                nonce,
                salt,
                iterations,
            ) == #[trigger] written_answer(nonce, salt, count),
{
    reveal_strlit("r=");
    reveal_strlit(",s=");
    reveal_strlit(",i=");
    let count = text::decimal(iterations as nat);
    law_decimal_reads_back(iterations as nat);
    assert(authenticator::first_answer(nonce, salt, iterations) =~= written_answer(
        nonce,
        salt,
        count,
    ));
}

/// Whether a salt is the first 16 bytes of a digest.
pub open spec fn heads(salt: Seq<u8>, digest: Seq<u8>) -> bool {
    salt.len() == 16 && forall|i: int| 0 <= i < 16 ==> #[trigger] salt[i] == digest[i]
}

/// The salt taken from a digest is its first 16 bytes.
pub proof fn law_salt_heads_the_digest(digest: Seq<u8>)
    ensures
        heads(authenticator::salt_in(digest), digest),
{
}

/// What a name is answered with, and what is remembered then, letter for
/// letter. The answer holds the client's nonce with the server's behind it,
/// and the salt and the count that the name is enrolled with; a name that is
/// not enrolled has the head of the digest of the decoy and the name for a
/// salt, and the store's own count. The exchange is remembered under both
/// nonces with the name, the header, the bare part and the answer behind it,
/// and the enrollment.
pub proof fn law_first_is_answered_and_remembered(
    scram: ScramView,
    first: ClientFirstView,
    server_nonce: Seq<char>,
)
    requires
        scram.exchanges.valid(),
    ensures
        ({
            let nonce = first.nonce + server_nonce;
            let answer = scram.answer(first, server_nonce);
            let after = scram.answering(first, server_nonce);
            let enrolled = scram.store.verifiers.contains_key(first.username);
            let held = scram.store.verifiers[first.username];
            &&& enrolled ==> exists|count: Seq<char>|
                is_number(count, held.iterations as nat) && answer == #[trigger] written_answer(
                    nonce,
                    crypto::base64_text(held.salt),
                    count,
                )
            &&& !enrolled ==> exists|salt: Seq<u8>, count: Seq<char>|
                {
                    &&& heads(
                        salt,
                        crypto::sha256_of(
                            scram.decoy + vstd::utf8::encode_utf8(first.username),
                        ),
                    )
                    &&& is_number(count, scram.store.iterations as nat)
                    &&& answer == #[trigger] written_answer(
                        nonce,
                        #[trigger] crypto::base64_text(salt),
                        count,
                    )
                }
            &&& after.store == scram.store
            &&& after.decoy == scram.decoy
            &&& after.exchanges.sequence == scram.exchanges.sequence + 1
            &&& after.exchanges.proven == scram.exchanges.proven
            &&& remembered(
                scram.exchanges.open,
                after.exchanges.open,
                opening_time(),
                nonce,
                ExchangeView {
                    opened: scram.exchanges.sequence + 1,
                    username: first.username,
                    gs2_header: first.gs2_header,
                    transcript: first.bare + seq![','] + answer,
                    verifier: if enrolled {
                        Some(held)
                    } else {
                        None
                    },
                },
            )
        }),
{
    let nonce = first.nonce + server_nonce;
    let answer = scram.answer(first, server_nonce);
    let salt = authenticator::salt_for(scram.store, scram.decoy, first.username);
    law_answer_is_written_in_full(
        nonce,
        crypto::base64_text(salt),
        authenticator::iterations_for(scram.store, first.username),
    );
    law_each_step_touches_its_own(
        scram.exchanges,
        nonce,
        scram.exchange(first, server_nonce),
        seq![],
    );
    assert(first.bare.push(',') + answer =~= first.bare + seq![','] + answer);
    if !scram.store.verifiers.contains_key(first.username) {
        law_salt_heads_the_digest(
            crypto::sha256_of(scram.decoy + vstd::utf8::encode_utf8(first.username)),
        );
    }
}

/// Whether `key` is, bit against bit, what two runs of bytes of the length of
/// a key come to.
pub open spec fn lies_between(key: Seq<u8>, signature: Seq<u8>, shown: Seq<u8>) -> bool {
    &&& key.len() == 32
    &&& shown.len() == 32
    &&& forall|i: int| 0 <= i < 32 ==> #[trigger] key[i] == signature[i] ^ shown[i]
}

/// The key in a proof is the exclusive or of the proof and the signature, and
/// a proof that is not 32 bytes long holds none.
pub proof fn law_key_lies_in_the_proof(signature: Seq<u8>, shown: Seq<u8>)
    ensures
        shown.len() != 32 ==> authenticator::recovered_key(signature, shown) is None,
        shown.len() == 32 ==> authenticator::recovered_key(signature, shown) is Some
            && lies_between(authenticator::recovered_key(signature, shown)->0, signature, shown),
        forall|key: Seq<u8>| #[trigger]
            lies_between(key, signature, shown) ==> authenticator::recovered_key(signature, shown)
                == Some(key),
{
    assert forall|key: Seq<u8>| #[trigger] lies_between(
        key,
        signature,
        shown,
    ) implies authenticator::recovered_key(signature, shown) == Some(key) by {
        assert(key =~= authenticator::xor(signature, shown));
    }
}

/// What the proof and the signature of an exchange are computed over.
pub open spec fn covered_by(exchange: ExchangeView, last: ClientFinalView) -> Seq<u8> {
    vstd::utf8::encode_utf8(exchange.transcript + seq![','] + last.without_proof)
}

/// Whether a final message is one of `exchange`: the claim names who opened
/// it, and the channel binding is the header that it was opened with.
pub open spec fn belongs(
    exchange: ExchangeView,
    claimed: Seq<char>,
    last: ClientFinalView,
) -> bool {
    &&& claimed == exchange.username
    &&& last.binding == vstd::utf8::encode_utf8(exchange.gs2_header)
}

/// A final message that is not one of its exchange is turned away saying why,
/// first for the name and then for the channel binding.
pub proof fn law_misfit_is_told(exchange: ExchangeView, claimed: Seq<char>, last: ClientFinalView)
    ensures
        belongs(exchange, claimed, last) <==> authenticator::mismatch(exchange, claimed, last)
            is None,
        claimed != exchange.username ==> authenticator::mismatch(exchange, claimed, last) == Some(
            "the claim names '"@ + claimed + "' and the SCRAM exchange was opened by '"@
                + exchange.username + "'"@,
        ),
        claimed == exchange.username && last.binding != vstd::utf8::encode_utf8(
            exchange.gs2_header,
        ) ==> authenticator::mismatch(exchange, claimed, last) == Some(
            "the SCRAM channel binding is not the GS2 header the exchange opened with"@,
        ),
        authenticator::mismatch(exchange, claimed, last) matches Some(wrong)
            ==> authenticator::weighed(exchange, claimed, last) == Err::<Option<Seq<u8>>, _>(wrong),
{
}

/// What is said of a proof of the wrong length, written out.
proof fn lemma_wrong_length(len: nat)
    ensures
        exists|count: Seq<char>| #[trigger]
            is_number(count, len) && authenticator::wrong_length(len) == "the SCRAM proof is "@
                + count + " bytes and SHA-256's is 32"@,
{
    let count = text::decimal(len);
    law_decimal_reads_back(len);
    reveal_strlit(" bytes and SHA-256's is ");
    reveal_strlit(" bytes and SHA-256's is 32");
    reveal_with_fuel(text::decimal, 2);
    assert(text::decimal(KEY_LENGTH as nat) =~= seq!['3', '2']);
    assert(authenticator::wrong_length(len) =~= "the SCRAM proof is "@ + count
        + " bytes and SHA-256's is 32"@);
}

/// A final message of its exchange is weighed by the enrollment that the
/// exchange was opened with. Without one it is refused. A proof that is not 32
/// bytes long is told by its length. Otherwise the key that lies between the
/// proof and HMAC(StoredKey, AuthMessage) decides: where it hashes to the
/// `StoredKey` the signature is HMAC(ServerKey, AuthMessage), and where it
/// does not there is none.
pub proof fn law_final_is_weighed(
    exchange: ExchangeView,
    claimed: Seq<char>,
    last: ClientFinalView,
    key: Seq<u8>,
)
    requires
        belongs(exchange, claimed, last),
    ensures
        exchange.verifier is None ==> authenticator::weighed(exchange, claimed, last) == Ok::<
            Option<Seq<u8>>,
            Seq<char>,
        >(None),
        exchange.verifier is Some && last.proof.len() != 32 ==> exists|count: Seq<char>| #[trigger]
            is_number(count, last.proof.len()) && authenticator::weighed(exchange, claimed, last)
                == Err::<Option<Seq<u8>>, _>(
                "the SCRAM proof is "@ + count + " bytes and SHA-256's is 32"@,
            ),
        exchange.verifier matches Some(held) ==> {
            let covered = covered_by(exchange, last);
            lies_between(key, crypto::hmac_of(held.stored_key, covered), last.proof)
                ==> authenticator::weighed(exchange, claimed, last) == if crypto::sha256_of(key)
                == held.stored_key {
                Ok::<_, Seq<char>>(Some(crypto::hmac_of(held.server_key, covered)))
            } else {
                Ok(None)
            }
        },
{
    assert(authenticator::auth_message(exchange, last) =~= exchange.transcript + seq![',']
        + last.without_proof);
    if let Some(held) = exchange.verifier {
        law_key_lies_in_the_proof(
            crypto::hmac_of(held.stored_key, covered_by(exchange, last)),
            last.proof,
        );
        if last.proof.len() != 32 {
            lemma_wrong_length(last.proof.len());
        }
    }
}

/// Whether a mechanism is one of the two that are read.
pub open spec fn is_read(mechanism: Seq<char>) -> bool {
    mechanism == "username"@ || mechanism == "scram"@
}

/// Whether a claim by a mechanism that is read carries `last` as its final
/// message.
pub open spec fn presents(presented: PresentedView, last: ClientFinalView) -> bool {
    &&& is_read(presented.mechanism)
    &&& presented.proofs.contains_key("scram.client-final"@)
    &&& message::read_final(presented.proofs["scram.client-final"@]) == Ok::<_, Seq<char>>(last)
}

/// A claim by any mechanism but `username` and `scram` is turned away saying
/// so, and has no effect.
pub proof fn law_other_mechanisms_are_turned_away(scram: ScramView, presented: PresentedView)
    requires
        presented.mechanism != "username"@,
        presented.mechanism != "scram"@,
    ensures
        scram.verifying(presented) == (
            Err::<Verified, _>(
                "'"@ + presented.mechanism
                    + "' is not a claim the SCRAM verifier reads: it takes a username"@,
            ),
            scram,
        ),
        authenticator::carried(presented) is Err,
{
}

/// A claim by `username` or `scram` that carries nothing under
/// `scram.client-final` is turned away saying so, one that carries a text
/// which cannot be read is turned away with what is wrong with it, and neither
/// has an effect.
pub proof fn law_claims_without_final_are_turned_away(scram: ScramView, presented: PresentedView)
    requires
        is_read(presented.mechanism),
    ensures
        !presented.proofs.contains_key("scram.client-final"@) ==> scram.verifying(presented) == (
            Err::<Verified, _>(
                "no 'scram.client-final' proof was presented with the username '"@
                    + presented.value + "'"@,
            ),
            scram,
        ),
        presented.proofs.contains_key("scram.client-final"@) ==> (message::read_final(
            presented.proofs["scram.client-final"@],
        ) matches Err(wrong) ==> scram.verifying(presented) == (Err::<Verified, _>(wrong), scram)),
{
    reveal_strlit("no '");
    reveal_strlit("scram.client-final");
    reveal_strlit("' proof was presented with the username '");
    reveal_strlit("no 'scram.client-final' proof was presented with the username '");
    assert("no '"@ + PROOF@ + "' proof was presented with the username '"@
        =~= "no 'scram.client-final' proof was presented with the username '"@);
}

/// A claim carries a final message where it presents one, and no other.
pub proof fn law_carried_is_presented(presented: PresentedView, last: ClientFinalView)
    ensures
        presents(presented, last) <==> authenticator::carried(presented) == Ok::<_, Seq<char>>(
            last,
        ),
{
}

/// A final message is weighed by the exchange that is open under its nonce,
/// whenever that was opened and whatever else is open. Where none is, that is
/// said and nothing changes. Where one is, it is taken up: it alone is
/// forgotten, whatever comes of it. An error is handed on, no signature is a
/// refusal, and a signature is proof: it is remembered in base64 under the
/// nonce, and nothing else changes.
pub proof fn law_final_meets_its_exchange(
    scram: ScramView,
    claimed: Seq<char>,
    last: ClientFinalView,
)
    requires
        scram.exchanges.valid(),
    ensures
        ({
            let (outcome, after) = scram.finishing(claimed, last);
            let opened = scram.exchanges.open[last.nonce];
            &&& !scram.exchanges.open.contains_key(last.nonce) ==> outcome == Err::<Verified, _>(
                "no SCRAM exchange is open under that nonce: never opened, or already finished"@,
            ) && after == scram
            &&& scram.exchanges.open.contains_key(last.nonce) ==> {
                &&& after.store == scram.store
                &&& after.decoy == scram.decoy
                &&& forgotten(scram.exchanges.open, after.exchanges.open, last.nonce)
                &&& match authenticator::weighed(opened, claimed, last) {
                    Err(wrong) => {
                        &&& outcome == Err::<Verified, _>(wrong)
                        &&& after.exchanges.sequence == scram.exchanges.sequence
                        &&& after.exchanges.proven == scram.exchanges.proven
                    },
                    Ok(None) => {
                        &&& outcome == Ok::<_, Seq<char>>(Verified::Refused)
                        &&& after.exchanges.sequence == scram.exchanges.sequence
                        &&& after.exchanges.proven == scram.exchanges.proven
                    },
                    Ok(Some(signature)) => {
                        &&& outcome == Ok::<_, Seq<char>>(Verified::Proven)
                        &&& after.exchanges.sequence == scram.exchanges.sequence + 1
                        &&& remembered(
                            scram.exchanges.proven,
                            after.exchanges.proven,
                            signing_time(),
                            last.nonce,
                            SignatureView {
                                proven: scram.exchanges.sequence + 1,
                                text: crypto::base64_text(signature),
                            },
                        )
                    },
                }
            }
        }),
{
    let taken = scram.exchanges.taking(last.nonce);
    exchange::lemma_stays_valid(scram.exchanges, last.nonce, arbitrary(), seq![]);
    let sent = crypto::base64_text(scram.signature(claimed, last));
    law_each_step_touches_its_own(scram.exchanges, last.nonce, arbitrary(), sent);
    law_each_step_touches_its_own(taken, last.nonce, arbitrary(), sent);
}

/// A claim that presents a final message comes to what the message comes to
/// for the name that is claimed.
pub proof fn law_claim_is_finished_as_read(
    scram: ScramView,
    presented: PresentedView,
    last: ClientFinalView,
)
    requires
        presents(presented, last),
    ensures
        scram.verifying(presented) == scram.finishing(presented.value, last),
{
}

/// The signature that a proven final message earns is the one that it was
/// weighed to.
pub proof fn law_signature_is_as_weighed(
    scram: ScramView,
    claimed: Seq<char>,
    last: ClientFinalView,
    signature: Seq<u8>,
)
    requires
        authenticator::weighed(scram.exchanges.open[last.nonce], claimed, last) == Ok::<
            _,
            Seq<char>,
        >(Some(signature)),
    ensures
        scram.signature(claimed, last) == signature,
{
}

/// The server-final-message is `v=` and the whole text that waits under the
/// nonce; there is none where nothing waits. Collecting it forgets that text
/// and touches nothing else.
pub proof fn law_signature_is_handed_out_whole(scram: ScramView, nonce: Seq<char>)
    ensures
        scram.exchanges.proven.contains_key(nonce) ==> scram.signed(nonce) == Some(
            seq!['v', '='] + scram.exchanges.proven[nonce].text,
        ),
        !scram.exchanges.proven.contains_key(nonce) ==> scram.signed(nonce) is None,
        ({
            let after = scram.collecting(nonce);
            &&& after.signed(nonce) is None
            &&& after.store == scram.store
            &&& after.decoy == scram.decoy
            &&& after.exchanges.sequence == scram.exchanges.sequence
            &&& after.exchanges.open == scram.exchanges.open
            &&& forgotten(scram.exchanges.proven, after.exchanges.proven, nonce)
        }),
{
    reveal_strlit("v=");
    if scram.exchanges.proven.contains_key(nonce) {
        assert("v="@ =~= seq!['v', '=']);
    }
}

/// A signature decodes again from what is handed out: behind `v=` stands its
/// base64, the whole of it.
pub proof fn law_handed_out_signature_decodes(
    scram: ScramView,
    presented: PresentedView,
    last: ClientFinalView,
    signature: Seq<u8>,
)
    requires
        scram.exchanges.valid(),
        presents(presented, last),
        scram.exchanges.open.contains_key(last.nonce),
        authenticator::weighed(scram.exchanges.open[last.nonce], presented.value, last) == Ok::<
            _,
            Seq<char>,
        >(Some(signature)),
    ensures
        ({
            let sent = scram.verifying(presented).1.signed(last.nonce);
            &&& sent == Some(seq!['v', '='] + crypto::base64_text(signature))
            &&& sent->0.len() == 2 + crypto::base64_text(signature).len()
            &&& sent->0.take(2) == seq!['v', '=']
            &&& crypto::reads_back(signature) ==> crypto::base64_bytes(sent->0.skip(2)) == Some(
                signature,
            )
        }),
{
    let after = scram.verifying(presented).1;
    law_final_meets_its_exchange(scram, presented.value, last);
    law_claim_is_finished_as_read(scram, presented, last);
    law_signature_is_handed_out_whole(after, last.nonce);
    let sent = seq!['v', '='] + crypto::base64_text(signature);
    assert(sent.take(2) =~= seq!['v', '=']);
    assert(sent.skip(2) =~= crypto::base64_text(signature));
}

/// The salt and the count of a name hang on nothing but the enrollments and
/// the decoy: an enrolled name has its own, any other the digest's head and
/// the store's count.
pub proof fn law_salt_and_count_of_a_name(held: StoreView, decoy: Seq<u8>, username: Seq<char>)
    ensures
        held.verifiers.contains_key(username) ==> {
            &&& authenticator::salt_for(held, decoy, username) == held.verifiers[username].salt
            &&& authenticator::iterations_for(held, username)
                == held.verifiers[username].iterations
        },
        !held.verifiers.contains_key(username) ==> {
            &&& heads(
                authenticator::salt_for(held, decoy, username),
                crypto::sha256_of(decoy + vstd::utf8::encode_utf8(username)),
            )
            &&& authenticator::iterations_for(held, username) == held.iterations
        },
{
}

} // verus!
