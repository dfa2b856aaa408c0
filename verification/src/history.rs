//! What holds over many calls.

use crate::authenticator;
use crate::authenticator::ScramView;
use crate::claim::{PresentedView, Verified};
use crate::crypto;
use crate::exchange;
use crate::exchange::{ExchangesView, SignatureView};
use crate::laws;
use crate::message;
use crate::message::{ClientFinalView, ClientFirstView};
use crate::protocol;
use crate::table::MOST_OPEN;
use vstd::prelude::*;

verus! {

/// Something that is asked of an authenticator.
pub enum Event {
    /// A client-first-message is answered.
    Answered { first: ClientFirstView, server_nonce: Seq<char> },
    /// A claim is weighed.
    Claimed { presented: PresentedView },
    /// A server-final-message is collected.
    Collected { nonce: Seq<char> },
}

/// What an authenticator knows after an event.
pub open spec fn after(scram: ScramView, event: Event) -> ScramView {
    match event {
        Event::Answered { first, server_nonce } => scram.answering(first, server_nonce),
        Event::Claimed { presented } => scram.verifying(presented).1,
        Event::Collected { nonce } => scram.collecting(nonce),
    }
}

/// What an authenticator knows after events, one by one.
pub open spec fn after_all(scram: ScramView, events: Seq<Event>) -> ScramView
    decreases events.len(),
{
    if events.len() == 0 {
        scram
    } else {
        after(after_all(scram, events.drop_last()), events.last())
    }
}

/// Whether an event is a claim under `nonce`.
pub open spec fn claims(event: Event, nonce: Seq<char>) -> bool {
    event matches Event::Claimed { presented } && authenticator::carried(presented) matches Ok(
        last,
    ) && last.nonce == nonce
}

/// Whether an event collects the signature under `nonce`.
pub open spec fn collects(event: Event, nonce: Seq<char>) -> bool {
    event == (Event::Collected { nonce })
}

/// Whether an event is a claim that `scram` finds proven.
pub open spec fn proves(scram: ScramView, event: Event) -> bool {
    event matches Event::Claimed { presented } && scram.verifying(presented).0 == Ok::<
        _,
        Seq<char>,
    >(Verified::Proven)
}

/// The nonce that a claim is made under.
pub open spec fn claimed_nonce(event: Event) -> Seq<char> {
    authenticator::carried(event->presented)->Ok_0.nonce
}

/// The nonces that exchanges are opened under, in order.
pub open spec fn opened_in(events: Seq<Event>) -> Seq<Seq<char>>
    decreases events.len(),
{
    if events.len() == 0 {
        seq![]
    } else {
        let before = opened_in(events.drop_last());
        match events.last() {
            Event::Answered { first, server_nonce } => before.push(first.nonce + server_nonce),
            _ => before,
        }
    }
}

/// The nonces of the claims that are proven, in order.
pub open spec fn proven_in(scram: ScramView, events: Seq<Event>) -> Seq<Seq<char>>
    decreases events.len(),
{
    if events.len() == 0 {
        seq![]
    } else {
        let before = proven_in(scram, events.drop_last());
        if proves(after_all(scram, events.drop_last()), events.last()) {
            before.push(claimed_nonce(events.last()))
        } else {
            before
        }
    }
}

/// Whatever is asked of an authenticator, and however often, its enrollments
/// and its decoy stay as they are, its exchanges stay valid, and never more
/// than [`MOST_OPEN`] of them stand open, nor more signatures wait.
pub proof fn law_bounds_are_always_kept(scram: ScramView, events: Seq<Event>)
    requires
        scram.exchanges.valid(),
    ensures
        laws::keeps_bounds(scram, after_all(scram, events)),
    decreases events.len(),
{
    if events.len() > 0 {
        law_bounds_are_always_kept(scram, events.drop_last());
        let before = after_all(scram, events.drop_last());
        match events.last() {
            Event::Answered { first, server_nonce } => {
                laws::law_bounds_are_kept(before, first, server_nonce, arbitrary(), seq![]);
            },
            Event::Claimed { presented } => {
                laws::law_bounds_are_kept(before, arbitrary(), seq![], presented, seq![]);
            },
            Event::Collected { nonce } => {
                laws::law_bounds_are_kept(before, arbitrary(), seq![], arbitrary(), nonce);
            },
        }
    }
}

/// A name that is not enrolled is answered with the same salt and the same
/// count whenever it asks, whatever was asked in between. The salt has the
/// length of a fresh one, and so, where its base64 reads back as `answer` has
/// it, 24 characters there.
pub proof fn law_unknown_name_is_always_answered_alike(
    scram: ScramView,
    events: Seq<Event>,
    first: ClientFirstView,
    again: ClientFirstView,
    server_nonce: Seq<char>,
    server_nonce_again: Seq<char>,
)
    requires
        scram.exchanges.valid(),
        first.username == again.username,
        !scram.store.verifiers.contains_key(first.username),
    ensures
        ({
            let salt = authenticator::salt_for(scram.store, scram.decoy, first.username);
            let sent = crypto::base64_text(salt);
            let later = after_all(scram.answering(first, server_nonce), events);
            &&& salt.len() == crypto::SALT_LENGTH
            &&& crypto::reads_back(salt) ==> sent.len() == 24
            &&& scram.answer(first, server_nonce) == authenticator::first_answer(
                first.nonce + server_nonce,
                sent,
                scram.store.iterations,
            )
            &&& later.answer(again, server_nonce_again) == authenticator::first_answer(
                again.nonce + server_nonce_again,
                sent,
                scram.store.iterations,
            )
        }),
{
    let start = scram.answering(first, server_nonce);
    laws::law_bounds_are_kept(scram, first, server_nonce, arbitrary(), seq![]);
    law_bounds_are_always_kept(start, events);
    laws::law_unknown_name_is_answered_alike(
        scram,
        after_all(start, events),
        first,
        again,
        server_nonce,
        server_nonce_again,
    );
}

/// Numbers are given out in order, from 1 on, and giving one out touches
/// nothing that is remembered.
pub proof fn law_numbers_count_up(exchanges: ExchangesView)
    ensures
        ExchangesView::empty().counted().sequence == 1,
        exchanges.counted().sequence == exchanges.sequence + 1,
        exchanges.counted().counted().sequence == exchanges.counted().sequence + 1,
        exchanges.counted().open == exchanges.open,
        exchanges.counted().proven == exchanges.proven,
{
}

/// An exchange that nothing is younger than stays open through what follows.
proof fn lemma_stays_open(start: ScramView, nonce: Seq<char>, events: Seq<Event>)
    requires
        start.exchanges.valid(),
        exchange::stays(
            start.exchanges.open,
            exchange::opened_at(),
            nonce,
            start.exchanges.open[nonce],
            0,
        ),
        !opened_in(events).contains(nonce),
        opened_in(events).len() < MOST_OPEN,
        forall|i: int| 0 <= i < events.len() ==> !claims(#[trigger] events[i], nonce),
    ensures
        exchange::stays(
            after_all(start, events).exchanges.open,
            exchange::opened_at(),
            nonce,
            start.exchanges.open[nonce],
            opened_in(events).len(),
        ),
    decreases events.len(),
{
    if events.len() > 0 {
        let earlier = events.drop_last();
        let event = events.last();
        let before = after_all(start, earlier);
        let at = exchange::opened_at();
        let now = before.exchanges.sequence;
        let count = opened_in(earlier).len();
        let kept = start.exchanges.open[nonce];
        assert(event == events[events.len() - 1]);
        assert forall|i: int| 0 <= i < earlier.len() implies !claims(
            #[trigger] earlier[i],
            nonce,
        ) by {
            assert(earlier[i] == events[i]);
        }
        if let Event::Answered { first, server_nonce } = event {
            vstd::seq_lib::lemma_seq_contains_after_push(
                opened_in(earlier),
                first.nonce + server_nonce,
                nonce,
            );
        }
        law_bounds_are_always_kept(start, earlier);
        lemma_stays_open(start, nonce, earlier);
        match event {
            Event::Answered { first, server_nonce } => {
                let other = first.nonce + server_nonce;
                exchange::lemma_stays_remembered(
                    before.exchanges.open,
                    at,
                    now,
                    nonce,
                    kept,
                    count,
                    other,
                    before.exchange(first, server_nonce),
                );
            },
            Event::Claimed { presented } => {
                if let Ok(last) = authenticator::carried(presented) {
                    exchange::lemma_stays_forgotten(
                        before.exchanges.open,
                        at,
                        now,
                        nonce,
                        kept,
                        count,
                        last.nonce,
                    );
                }
            },
            Event::Collected { nonce: other } => {},
        }
    }
}

/// An exchange outlives the opening of as many others as there are places
/// beside it, whatever else is asked in between, as long as it is not opened
/// anew and no claim is made under its nonce.
pub proof fn law_exchange_outlives_others(
    scram: ScramView,
    first: ClientFirstView,
    server_nonce: Seq<char>,
    events: Seq<Event>,
)
    requires
        scram.exchanges.valid(),
        !opened_in(events).contains(first.nonce + server_nonce),
        opened_in(events).len() <= MOST_OPEN - 1,
        forall|i: int|
            0 <= i < events.len() ==> !claims(
                #[trigger] events[i],
                first.nonce + server_nonce,
            ),
    ensures
        ({
            let open = after_all(scram.answering(first, server_nonce), events).exchanges.open;
            &&& open.contains_key(first.nonce + server_nonce)
            &&& open[first.nonce + server_nonce] == scram.exchange(first, server_nonce)
        }),
{
    let nonce = first.nonce + server_nonce;
    let start = scram.answering(first, server_nonce);
    laws::law_bounds_are_kept(scram, first, server_nonce, arbitrary(), seq![]);
    let later = exchange::younger(
        start.exchanges.open,
        exchange::opened_at(),
        start.exchanges.sequence,
    );
    assert forall|other: Seq<char>| !later.contains(other) by {
        if start.exchanges.open.contains_key(other) {
        }
    }
    assert(later =~= Set::empty());
    lemma_stays_open(start, nonce, events);
}

/// Whoever holds the `ClientKey` of an enrolled name is proven whoever else
/// comes and goes in between: however many others are answered, up to as many
/// as there are places beside it, weighed and signed since, a claim that
/// finishes the exchange with the proof `ClientKey XOR HMAC(StoredKey,
/// AuthMessage)` is proven, and behind `v=` the node's signature
/// `HMAC(ServerKey, AuthMessage)` is there to be collected.
pub proof fn law_the_key_proves_among_others(
    scram: ScramView,
    first: ClientFirstView,
    server_nonce: Seq<char>,
    events: Seq<Event>,
    presented: PresentedView,
    last: ClientFinalView,
    key: Seq<u8>,
)
    requires
        scram.exchanges.valid(),
        !opened_in(events).contains(first.nonce + server_nonce),
        opened_in(events).len() <= 1023,
        forall|i: int|
            0 <= i < events.len() ==> !claims(
                #[trigger] events[i],
                first.nonce + server_nonce,
            ),
        scram.store.verifiers.contains_key(first.username),
        laws::finishes(first, server_nonce, presented, last),
        key.len() == 32,
        crypto::sha256_of(key) == scram.store.verifiers[first.username].stored_key,
        protocol::lies_between(
            last.proof,
            crypto::hmac_of(
                scram.store.verifiers[first.username].stored_key,
                laws::covered(scram, first, server_nonce, last),
            ),
            key,
        ),
    ensures
        ({
            let before = after_all(scram.answering(first, server_nonce), events);
            let (outcome, done) = before.verifying(presented);
            let signature = crypto::hmac_of(
                scram.store.verifiers[first.username].server_key,
                laws::covered(scram, first, server_nonce, last),
            );
            let sent = done.signed(first.nonce + server_nonce);
            &&& outcome == Ok::<_, Seq<char>>(Verified::Proven)
            &&& sent == Some(seq!['v', '='] + crypto::base64_text(signature))
            &&& crypto::reads_back(signature) ==> crypto::base64_bytes(sent->0.skip(2)) == Some(
                signature,
            )
        }),
{
    let start = scram.answering(first, server_nonce);
    let before = after_all(start, events);
    let opened = scram.exchange(first, server_nonce);
    let held = scram.store.verifiers[first.username];
    let covered = laws::covered(scram, first, server_nonce, last);
    laws::law_bounds_are_kept(scram, first, server_nonce, arbitrary(), seq![]);
    law_bounds_are_always_kept(start, events);
    law_exchange_outlives_others(scram, first, server_nonce, events);
    assert(opened.transcript + seq![','] + last.without_proof =~= first.bare + seq![',']
        + scram.answer(first, server_nonce) + seq![','] + last.without_proof);
    assert(protocol::covered_by(opened, last) == covered);
    let client_signature = crypto::hmac_of(held.stored_key, covered);
    assert forall|i: int| 0 <= i < 32 implies #[trigger] key[i] == client_signature[i]
        ^ last.proof[i] by {
        let k: u8 = key[i];
        let s: u8 = client_signature[i];
        assert(last.proof[i] == s ^ k);
        assert(k == s ^ (s ^ k)) by (bit_vector);
    }
    assert(protocol::lies_between(key, client_signature, last.proof));
    protocol::law_final_is_weighed(opened, presented.value, last, key);
    protocol::law_handed_out_signature_decodes(
        before,
        presented,
        last,
        crypto::hmac_of(held.server_key, covered),
    );
    protocol::law_final_meets_its_exchange(before, presented.value, last);
    protocol::law_claim_is_finished_as_read(before, presented, last);
}

/// An honest client is proven, message for message, whoever else comes and
/// goes between its two messages: a first message that can be read, the node's
/// answer, anything that others ask, and a final message written as RFC 5802
/// has it, presented as a claim by `username` or `scram`.
pub proof fn law_honest_client_is_proven_among_others(
    scram: ScramView,
    sent: Seq<char>,
    server_nonce: Seq<char>,
    events: Seq<Event>,
    binding: Seq<char>,
    shown: Seq<char>,
    presented: PresentedView,
    key: Seq<u8>,
)
    requires
        scram.exchanges.valid(),
        message::read_first(sent) is Ok,
        !server_nonce.contains(','),
        ({
            let first = message::read_first(sent)->Ok_0;
            let nonce = first.nonce + server_nonce;
            let without_proof = laws::written_final(binding, nonce, seq![]);
            let held = scram.store.verifiers[first.username];
            let signed_over = vstd::utf8::encode_utf8(
                first.bare + seq![','] + scram.answer(first, server_nonce) + seq![',']
                    + without_proof,
            );
            &&& !opened_in(events).contains(nonce)
            &&& opened_in(events).len() <= 1023
            &&& forall|i: int| 0 <= i < events.len() ==> !claims(#[trigger] events[i], nonce)
            &&& scram.store.verifiers.contains_key(first.username)
            &&& key.len() == 32
            &&& crypto::sha256_of(key) == held.stored_key
            &&& !binding.contains(',')
            &&& crypto::base64_bytes(binding) == Some(
                vstd::utf8::encode_utf8(first.gs2_header),
            )
            &&& !shown.contains(',')
            &&& crypto::base64_bytes(shown) is Some
            &&& protocol::lies_between(
                crypto::base64_bytes(shown)->0,
                crypto::hmac_of(held.stored_key, signed_over),
                key,
            )
            &&& presented.mechanism == "username"@ || presented.mechanism == "scram"@
            &&& presented.value == first.username
            &&& presented.proofs.contains_key("scram.client-final"@)
            &&& presented.proofs["scram.client-final"@] == without_proof + seq![',', 'p', '=']
                + shown
        }),
    ensures
        ({
            let first = message::read_first(sent)->Ok_0;
            let nonce = first.nonce + server_nonce;
            let held = scram.store.verifiers[first.username];
            let signed_over = vstd::utf8::encode_utf8(
                first.bare + seq![','] + scram.answer(first, server_nonce) + seq![',']
                    + laws::written_final(binding, nonce, seq![]),
            );
            let before = after_all(scram.answering(first, server_nonce), events);
            let (outcome, done) = before.verifying(presented);
            &&& outcome == Ok::<_, Seq<char>>(Verified::Proven)
            &&& done.signed(nonce) == Some(
                seq!['v', '='] + crypto::base64_text(
                    crypto::hmac_of(held.server_key, signed_over),
                ),
            )
        }),
{
    let first = message::read_first(sent)->Ok_0;
    let nonce = first.nonce + server_nonce;
    laws::law_read_first_is_the_message(sent);
    assert forall|i: int| 0 <= i < nonce.len() implies nonce[i] != ',' by {
        if i < first.nonce.len() {
            assert(nonce[i] == first.nonce[i]);
        } else {
            assert(nonce[i] == server_nonce[i - first.nonce.len()]);
        }
    }
    laws::law_written_final_splits_back(binding, nonce, seq![], shown);
    let last = message::read_final(presented.proofs["scram.client-final"@])->Ok_0;
    law_the_key_proves_among_others(
        scram,
        first,
        server_nonce,
        events,
        presented,
        last,
        key,
    );
}

/// A name that is not enrolled is refused at the end, whatever the proof, and
/// so is an enrolled one whose proof is 32 bytes long and holds another key,
/// whoever else comes and goes in between; no signature is left.
pub proof fn law_others_are_refused_among_others(
    scram: ScramView,
    first: ClientFirstView,
    server_nonce: Seq<char>,
    events: Seq<Event>,
    presented: PresentedView,
    last: ClientFinalView,
)
    requires
        scram.exchanges.valid(),
        !opened_in(events).contains(first.nonce + server_nonce),
        opened_in(events).len() <= 1023,
        forall|i: int|
            0 <= i < events.len() ==> !claims(
                #[trigger] events[i],
                first.nonce + server_nonce,
            ),
        laws::finishes(first, server_nonce, presented, last),
        scram.store.verifiers.contains_key(first.username) ==> {
            let held = scram.store.verifiers[first.username];
            let signature = crypto::hmac_of(
                held.stored_key,
                laws::covered(scram, first, server_nonce, last),
            );
            &&& last.proof.len() == 32
            &&& forall|key: Seq<u8>| #[trigger]
                protocol::lies_between(key, signature, last.proof) ==> crypto::sha256_of(key)
                    != held.stored_key
        },
    ensures
        ({
            let before = after_all(scram.answering(first, server_nonce), events);
            let (outcome, done) = before.verifying(presented);
            &&& outcome == Ok::<_, Seq<char>>(Verified::Refused)
            &&& done.exchanges.proven == before.exchanges.proven
            &&& !done.exchanges.open.contains_key(first.nonce + server_nonce)
        }),
{
    let start = scram.answering(first, server_nonce);
    let before = after_all(start, events);
    let opened = scram.exchange(first, server_nonce);
    let covered = laws::covered(scram, first, server_nonce, last);
    laws::law_bounds_are_kept(scram, first, server_nonce, arbitrary(), seq![]);
    law_bounds_are_always_kept(start, events);
    law_exchange_outlives_others(scram, first, server_nonce, events);
    assert(opened.transcript + seq![','] + last.without_proof =~= first.bare + seq![',']
        + scram.answer(first, server_nonce) + seq![','] + last.without_proof);
    assert(protocol::covered_by(opened, last) == covered);
    let signature = crypto::hmac_of(
        scram.store.verifiers[first.username].stored_key,
        covered,
    );
    protocol::law_key_lies_in_the_proof(signature, last.proof);
    let key = authenticator::recovered_key(signature, last.proof)->0;
    if scram.store.verifiers.contains_key(first.username) {
        assert(protocol::lies_between(key, signature, last.proof));
    }
    protocol::law_final_is_weighed(opened, presented.value, last, key);
    protocol::law_final_meets_its_exchange(before, presented.value, last);
    protocol::law_claim_is_finished_as_read(before, presented, last);
}

/// An exchange fades as others are opened.
proof fn lemma_exchange_fades(
    start: ScramView,
    nonce: Seq<char>,
    than: nat,
    events: Seq<Event>,
    opened: Seq<Seq<char>>,
)
    requires
        start.exchanges.valid(),
        exchange::fades(start.exchanges.open, exchange::opened_at(), nonce, than, seq![]),
        forall|other: Seq<char>| #[trigger]
            opened_in(events).contains(other) ==> opened.contains(other),
        !opened.contains(nonce),
        forall|i: int, other: Seq<char>|
            0 <= i < events.len() && #[trigger] claims(events[i], other) ==> !opened.contains(
                other,
            ),
    ensures
        exchange::fades(
            after_all(start, events).exchanges.open,
            exchange::opened_at(),
            nonce,
            than,
            opened_in(events),
        ),
    decreases events.len(),
{
    if events.len() > 0 {
        let earlier = events.drop_last();
        let event = events.last();
        let before = after_all(start, earlier);
        let at = exchange::opened_at();
        let now = before.exchanges.sequence;
        assert(event == events[events.len() - 1]);
        assert forall|i: int, other: Seq<char>|
            0 <= i < earlier.len() && #[trigger] claims(
                earlier[i],
                other,
            ) implies !opened.contains(other) by {
            assert(claims(events[i], other));
        }
        assert forall|other: Seq<char>| #[trigger]
            opened_in(earlier).contains(other) implies opened.contains(other) by {
            if let Event::Answered { first, server_nonce } = event {
                vstd::seq_lib::lemma_seq_contains_after_push(
                    opened_in(earlier),
                    first.nonce + server_nonce,
                    other,
                );
            }
            assert(opened_in(events).contains(other));
        }
        law_bounds_are_always_kept(start, earlier);
        lemma_exchange_fades(start, nonce, than, earlier, opened);
        match event {
            Event::Answered { first, server_nonce } => {
                let one = first.nonce + server_nonce;
                vstd::seq_lib::lemma_seq_contains_after_push(opened_in(earlier), one, one);
                assert(opened_in(events).contains(one));
                exchange::lemma_fades_remembered(
                    before.exchanges.open,
                    at,
                    now,
                    nonce,
                    than,
                    opened_in(earlier),
                    one,
                    before.exchange(first, server_nonce),
                );
            },
            Event::Claimed { presented } => {
                if let Ok(last) = authenticator::carried(presented) {
                    assert(claims(events[events.len() - 1], last.nonce));
                    exchange::lemma_fades_forgotten(
                        before.exchanges.open,
                        at,
                        nonce,
                        than,
                        opened_in(events),
                        last.nonce,
                    );
                }
            },
            Event::Collected { nonce: other } => {},
        }
    }
}

/// An exchange is gone once as many others were opened as there are places,
/// each under a nonce of its own, where no claim was made under theirs.
pub proof fn law_exchange_gives_way(
    scram: ScramView,
    first: ClientFirstView,
    server_nonce: Seq<char>,
    events: Seq<Event>,
)
    requires
        scram.exchanges.valid(),
        opened_in(events).len() >= MOST_OPEN,
        opened_in(events).no_duplicates(),
        !opened_in(events).contains(first.nonce + server_nonce),
        forall|i: int, other: Seq<char>|
            0 <= i < events.len() && #[trigger] claims(events[i], other) ==> !opened_in(
                events,
            ).contains(other),
    ensures
        !after_all(scram.answering(first, server_nonce), events).exchanges.open.contains_key(
            first.nonce + server_nonce,
        ),
{
    let nonce = first.nonce + server_nonce;
    let start = scram.answering(first, server_nonce);
    let than = start.exchanges.sequence;
    let done = after_all(start, events);
    laws::law_bounds_are_kept(scram, first, server_nonce, arbitrary(), seq![]);
    law_bounds_are_always_kept(start, events);
    lemma_exchange_fades(start, nonce, than, events, opened_in(events));
    exchange::lemma_faded(
        done.exchanges.open,
        exchange::opened_at(),
        done.exchanges.sequence,
        nonce,
        than,
        opened_in(events),
    );
}

/// What a proven claim does to the waiting signatures.
proof fn lemma_proven_signs(scram: ScramView, event: Event)
    requires
        event is Claimed,
    ensures
        ({
            let done = after(scram, event).exchanges;
            let last = authenticator::carried(event->presented)->Ok_0;
            if proves(scram, event) {
                done.proven == exchange::with_room(
                    scram.exchanges.proven,
                    exchange::proven_at(),
                ).insert(
                    claimed_nonce(event),
                    SignatureView {
                        proven: scram.exchanges.sequence + 1,
                        text: crypto::base64_text(scram.signature(event->presented.value, last)),
                    },
                ) && done.sequence == scram.exchanges.sequence + 1
            } else {
                done.proven == scram.exchanges.proven
            }
        }),
{
}

/// A signature that nothing is younger than waits through what follows.
proof fn lemma_stays_signed(start: ScramView, nonce: Seq<char>, events: Seq<Event>)
    requires
        start.exchanges.valid(),
        exchange::stays(
            start.exchanges.proven,
            exchange::proven_at(),
            nonce,
            start.exchanges.proven[nonce],
            0,
        ),
        !proven_in(start, events).contains(nonce),
        proven_in(start, events).len() < MOST_OPEN,
        forall|i: int| 0 <= i < events.len() ==> !collects(#[trigger] events[i], nonce),
    ensures
        exchange::stays(
            after_all(start, events).exchanges.proven,
            exchange::proven_at(),
            nonce,
            start.exchanges.proven[nonce],
            proven_in(start, events).len(),
        ),
    decreases events.len(),
{
    if events.len() > 0 {
        let earlier = events.drop_last();
        let event = events.last();
        let before = after_all(start, earlier);
        let at = exchange::proven_at();
        let now = before.exchanges.sequence;
        let count = proven_in(start, earlier).len();
        let kept = start.exchanges.proven[nonce];
        assert(event == events[events.len() - 1]);
        assert forall|i: int| 0 <= i < earlier.len() implies !collects(
            #[trigger] earlier[i],
            nonce,
        ) by {
            assert(earlier[i] == events[i]);
        }
        law_bounds_are_always_kept(start, earlier);
        vstd::seq_lib::lemma_seq_contains_after_push(
            proven_in(start, earlier),
            claimed_nonce(event),
            nonce,
        );
        lemma_stays_signed(start, nonce, earlier);
        match event {
            Event::Answered { first, server_nonce } => {},
            Event::Claimed { presented } => {
                lemma_proven_signs(before, event);
                if proves(before, event) {
                    exchange::lemma_stays_remembered(
                        before.exchanges.proven,
                        at,
                        now,
                        nonce,
                        kept,
                        count,
                        claimed_nonce(event),
                        after(before, event).exchanges.proven[claimed_nonce(event)],
                    );
                }
            },
            Event::Collected { nonce: other } => {
                exchange::lemma_stays_forgotten(
                    before.exchanges.proven,
                    at,
                    now,
                    nonce,
                    kept,
                    count,
                    other,
                );
            },
        }
    }
}

/// A signature outlives as many later proven claims as there are places
/// beside it, whatever else is asked in between, as long as it is not
/// collected and no later claim is proven under its nonce.
pub proof fn law_signature_outlives_others(
    scram: ScramView,
    presented: PresentedView,
    events: Seq<Event>,
)
    requires
        scram.exchanges.valid(),
        scram.verifying(presented).0 == Ok::<_, Seq<char>>(Verified::Proven),
        ({
            let nonce = authenticator::carried(presented)->Ok_0.nonce;
            let start = scram.verifying(presented).1;
            &&& !proven_in(start, events).contains(nonce)
            &&& proven_in(start, events).len() <= MOST_OPEN - 1
            &&& forall|i: int| 0 <= i < events.len() ==> !collects(#[trigger] events[i], nonce)
        }),
    ensures
        ({
            let last = authenticator::carried(presented)->Ok_0;
            after_all(scram.verifying(presented).1, events).signed(last.nonce) == Some(
                seq!['v', '='] + crypto::base64_text(scram.signature(presented.value, last)),
            )
        }),
{
    let event = Event::Claimed { presented };
    let nonce = authenticator::carried(presented)->Ok_0.nonce;
    let start = scram.verifying(presented).1;
    lemma_proven_signs(scram, event);
    laws::law_bounds_are_kept(scram, arbitrary(), seq![], presented, seq![]);
    let later = exchange::younger(
        start.exchanges.proven,
        exchange::proven_at(),
        start.exchanges.sequence,
    );
    assert forall|other: Seq<char>| !later.contains(other) by {
        if start.exchanges.proven.contains_key(other) {
        }
    }
    assert(later =~= Set::empty());
    lemma_stays_signed(start, nonce, events);
    protocol::law_signature_is_handed_out_whole(after_all(start, events), nonce);
}

/// A signature fades as later claims are proven.
proof fn lemma_signature_fades(
    start: ScramView,
    nonce: Seq<char>,
    than: nat,
    events: Seq<Event>,
    proven: Seq<Seq<char>>,
)
    requires
        start.exchanges.valid(),
        exchange::fades(start.exchanges.proven, exchange::proven_at(), nonce, than, seq![]),
        forall|other: Seq<char>| #[trigger]
            proven_in(start, events).contains(other) ==> proven.contains(other),
        !proven.contains(nonce),
        forall|i: int, other: Seq<char>|
            0 <= i < events.len() && #[trigger] collects(events[i], other) ==> !proven.contains(
                other,
            ),
    ensures
        exchange::fades(
            after_all(start, events).exchanges.proven,
            exchange::proven_at(),
            nonce,
            than,
            proven_in(start, events),
        ),
    decreases events.len(),
{
    if events.len() > 0 {
        let earlier = events.drop_last();
        let event = events.last();
        let before = after_all(start, earlier);
        let at = exchange::proven_at();
        let now = before.exchanges.sequence;
        let one = claimed_nonce(event);
        assert(event == events[events.len() - 1]);
        assert forall|i: int, other: Seq<char>|
            0 <= i < earlier.len() && #[trigger] collects(
                earlier[i],
                other,
            ) implies !proven.contains(other) by {
            assert(collects(events[i], other));
        }
        assert forall|other: Seq<char>| #[trigger]
            proven_in(start, earlier).contains(other) implies proven.contains(other) by {
            vstd::seq_lib::lemma_seq_contains_after_push(proven_in(start, earlier), one, other);
            assert(proven_in(start, events).contains(other));
        }
        law_bounds_are_always_kept(start, earlier);
        lemma_signature_fades(start, nonce, than, earlier, proven);
        match event {
            Event::Answered { first, server_nonce } => {},
            Event::Claimed { presented } => {
                lemma_proven_signs(before, event);
                if proves(before, event) {
                    vstd::seq_lib::lemma_seq_contains_after_push(
                        proven_in(start, earlier),
                        one,
                        one,
                    );
                    assert(proven_in(start, events).contains(one));
                    exchange::lemma_fades_remembered(
                        before.exchanges.proven,
                        at,
                        now,
                        nonce,
                        than,
                        proven_in(start, earlier),
                        one,
                        after(before, event).exchanges.proven[one],
                    );
                }
            },
            Event::Collected { nonce: other } => {
                assert(collects(events[events.len() - 1], other));
                exchange::lemma_fades_forgotten(
                    before.exchanges.proven,
                    at,
                    nonce,
                    than,
                    proven_in(start, events),
                    other,
                );
            },
        }
    }
}

/// A signature is gone once as many later claims were proven as there are
/// places, each under a nonce of its own, where none of theirs was collected.
pub proof fn law_signature_gives_way(
    scram: ScramView,
    presented: PresentedView,
    events: Seq<Event>,
)
    requires
        scram.exchanges.valid(),
        scram.verifying(presented).0 == Ok::<_, Seq<char>>(Verified::Proven),
        ({
            let proven = proven_in(scram.verifying(presented).1, events);
            &&& proven.len() >= MOST_OPEN
            &&& proven.no_duplicates()
            &&& !proven.contains(authenticator::carried(presented)->Ok_0.nonce)
            &&& forall|i: int, other: Seq<char>|
                0 <= i < events.len() && #[trigger] collects(events[i], other)
                    ==> !proven.contains(other)
        }),
    ensures
        after_all(scram.verifying(presented).1, events).signed(
            authenticator::carried(presented)->Ok_0.nonce,
        ) is None,
{
    let event = Event::Claimed { presented };
    let nonce = authenticator::carried(presented)->Ok_0.nonce;
    let start = scram.verifying(presented).1;
    let than = start.exchanges.sequence;
    let done = after_all(start, events);
    let proven = proven_in(start, events);
    lemma_proven_signs(scram, event);
    laws::law_bounds_are_kept(scram, arbitrary(), seq![], presented, seq![]);
    law_bounds_are_always_kept(start, events);
    lemma_signature_fades(start, nonce, than, events, proven);
    exchange::lemma_faded(
        done.exchanges.proven,
        exchange::proven_at(),
        done.exchanges.sequence,
        nonce,
        than,
        proven,
    );
}

} // verus!
