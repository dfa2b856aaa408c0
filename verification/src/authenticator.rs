//! The server side of SCRAM-SHA-256, from the client's first message to the
//! server's signature.

use crate::claim::{AuthenticateError, Mechanism, Presented, PresentedView, Verified};
use crate::crypto;
use crate::crypto::{KEY_LENGTH, SALT_LENGTH};
use crate::exchange::{Exchange, ExchangeView, Exchanges, ExchangesView};
use crate::message;
use crate::message::{ClientFinal, ClientFinalView, ClientFirst, ClientFirstView};
use crate::nonce::{FreshNonces, NonceSource, SuppliedNonces};
use crate::store::{CredentialStore, StoreView, Verifier};
use crate::text;
use vstd::prelude::*;
use vstd::string::StringExecFns;

verus! {

/// The proof name this verifier reads off a claim: the whole
/// client-final-message.
pub const PROOF: &'static str = "scram.client-final";

/// The bytes of a text.
pub open spec fn bytes_of(s: Seq<char>) -> Seq<u8> {
    vstd::utf8::encode_utf8(s)
}

/// Two keys, bit against bit.
pub open spec fn xor(a: Seq<u8>, b: Seq<u8>) -> Seq<u8> {
    Seq::new(KEY_LENGTH as nat, |i: int| a[i] ^ b[i])
}

/// The `ClientKey` in a `ClientProof`, given the `ClientSignature`: none,
/// where the proof has another length than a key.
pub open spec fn recovered_key(signature: Seq<u8>, shown: Seq<u8>) -> Option<Seq<u8>> {
    if shown.len() == KEY_LENGTH {
        Some(xor(signature, shown))
    } else {
        None
    }
}

/// Whether a claim by that mechanism is one this verifier reads: a bare
/// `username`, or one the carrier already filed under `scram`.
pub open spec fn reads_mechanism(name: Seq<char>) -> bool {
    name == "username"@ || name == "scram"@
}

/// The final message that a claim carries, or why it carries none.
pub open spec fn carried(presented: PresentedView) -> Result<ClientFinalView, Seq<char>> {
    if !reads_mechanism(presented.mechanism) {
        Err(
            "'"@ + presented.mechanism
                + "' is not a claim the SCRAM verifier reads: it takes a username"@,
        )
    } else if !presented.proofs.contains_key(PROOF@) {
        Err(
            "no '"@ + PROOF@ + "' proof was presented with the username '"@ + presented.value
                + "'"@,
        )
    } else {
        message::read_final(presented.proofs[PROOF@])
    }
}

/// What the proof and the signature of an exchange are computed over.
pub open spec fn auth_message(exchange: ExchangeView, last: ClientFinalView) -> Seq<char> {
    exchange.transcript.push(',') + last.without_proof
}

/// What is said where the claim names someone else than the exchange.
pub open spec fn other_name(claimed: Seq<char>, username: Seq<char>) -> Seq<char> {
    "the claim names '"@ + claimed + "' and the SCRAM exchange was opened by '"@ + username + "'"@
}

/// What is said of a proof of the wrong length.
pub open spec fn wrong_length(len: nat) -> Seq<char> {
    "the SCRAM proof is "@ + text::decimal(len) + " bytes and SHA-256's is "@ + text::decimal(
        KEY_LENGTH as nat,
    )
}

/// Why a final message is not weighed as one of `exchange`, if it is not:
/// the claim names someone else, or the channel binding is not the header
/// that the exchange opened with.
pub open spec fn mismatch(
    exchange: ExchangeView,
    claimed: Seq<char>,
    last: ClientFinalView,
) -> Option<Seq<char>> {
    if exchange.username != claimed {
        Some(other_name(claimed, exchange.username))
    } else if last.binding != bytes_of(exchange.gs2_header) {
        Some("the SCRAM channel binding is not the GS2 header the exchange opened with"@)
    } else {
        None
    }
}

/// What a final message of `exchange` comes to: the `ServerSignature` where
/// the key in its proof hashes to the `StoredKey`, nothing where it does not
/// or nobody of that name is enrolled, and otherwise what is wrong with it.
pub open spec fn weighed(
    exchange: ExchangeView,
    claimed: Seq<char>,
    last: ClientFinalView,
) -> Result<Option<Seq<u8>>, Seq<char>> {
    match mismatch(exchange, claimed, last) {
        Some(wrong) => Err(wrong),
        None => match exchange.verifier {
            None => Ok(None),
            Some(held) => {
                let covered = bytes_of(auth_message(exchange, last));
                match recovered_key(crypto::hmac_of(held.stored_key, covered), last.proof) {
                    None => Err(wrong_length(last.proof.len())),
                    Some(key) => if crypto::sha256_of(key) == held.stored_key {
                        Ok(Some(crypto::hmac_of(held.server_key, covered)))
                    } else {
                        Ok(None)
                    },
                }
            },
        },
    }
}

/// The head of a digest, as long as a salt.
pub open spec fn salt_in(digest: Seq<u8>) -> Seq<u8> {
    Seq::new(SALT_LENGTH as nat, |i: int| digest[i])
}

/// The salt that a name is answered with: its own where it is enrolled, and
/// otherwise one that hangs on the name and on the node's decoy alone.
pub open spec fn salt_for(held: StoreView, decoy: Seq<u8>, username: Seq<char>) -> Seq<u8> {
    if held.verifiers.contains_key(username) {
        held.verifiers[username].salt
    } else {
        salt_in(crypto::sha256_of(decoy + bytes_of(username)))
    }
}

/// The iteration count that a name is answered with.
pub open spec fn iterations_for(held: StoreView, username: Seq<char>) -> u32 {
    if held.verifiers.contains_key(username) {
        held.verifiers[username].iterations
    } else {
        held.iterations
    }
}

/// A server-first-message, with the salt in base64.
pub open spec fn first_answer(nonce: Seq<char>, salt: Seq<char>, iterations: u32) -> Seq<char> {
    "r="@ + nonce + ",s="@ + salt + ",i="@ + text::decimal(iterations as nat)
}

/// A server-final-message, with the signature in base64.
pub open spec fn final_answer(signature: Seq<char>) -> Seq<char> {
    "v="@ + signature
}

/// What an authenticator knows.
#[verifier::ext_equal]
pub struct ScramView {
    pub store: StoreView,
    pub decoy: Seq<u8>,
    pub exchanges: ExchangesView,
}

impl ScramView {
    /// The server-first-message that answers `first`, where the server's half
    /// of the nonce is `server_nonce`.
    pub open spec fn answer(self, first: ClientFirstView, server_nonce: Seq<char>) -> Seq<char> {
        first_answer(
            first.nonce + server_nonce,
            crypto::base64_text(salt_for(self.store, self.decoy, first.username)),
            iterations_for(self.store, first.username),
        )
    }

    /// The exchange that `first` opens.
    pub open spec fn exchange(self, first: ClientFirstView, server_nonce: Seq<char>) -> ExchangeView {
        ExchangeView {
            opened: self.exchanges.sequence + 1,
            username: first.username,
            gs2_header: first.gs2_header,
            transcript: first.bare.push(',') + self.answer(first, server_nonce),
            verifier: if self.store.verifiers.contains_key(first.username) {
                Some(self.store.verifiers[first.username])
            } else {
                None
            },
        }
    }

    /// What is known once `first` was answered.
    pub open spec fn answering(self, first: ClientFirstView, server_nonce: Seq<char>) -> Self {
        ScramView {
            exchanges: self.exchanges.opening(
                first.nonce + server_nonce,
                self.exchange(first, server_nonce),
            ),
            ..self
        }
    }

    /// What becomes of a final message that is presented for `claimed`, and
    /// what is known then.
    pub open spec fn finishing(self, claimed: Seq<char>, last: ClientFinalView) -> (
        Result<Verified, Seq<char>>,
        Self,
    ) {
        if !self.exchanges.open.contains_key(last.nonce) {
            (
                Err(
                    "no SCRAM exchange is open under that nonce: never opened, or already finished"@,
                ),
                self,
            )
        } else {
            let taken = self.exchanges.taking(last.nonce);
            match weighed(self.exchanges.open[last.nonce], claimed, last) {
                Err(wrong) => (Err(wrong), ScramView { exchanges: taken, ..self }),
                Ok(None) => (Ok(Verified::Refused), ScramView { exchanges: taken, ..self }),
                Ok(Some(signature)) => (
                    Ok(Verified::Proven),
                    ScramView {
                        exchanges: taken.signing(last.nonce, crypto::base64_text(signature)),
                        ..self
                    },
                ),
            }
        }
    }

    /// What becomes of a claim, and what is known then.
    pub open spec fn verifying(self, presented: PresentedView) -> (
        Result<Verified, Seq<char>>,
        Self,
    ) {
        match carried(presented) {
            Err(wrong) => (Err(wrong), self),
            Ok(last) => self.finishing(presented.value, last),
        }
    }

    /// The `ServerSignature` that a final message earns, where it is proven.
    pub open spec fn signature(self, claimed: Seq<char>, last: ClientFinalView) -> Seq<u8> {
        weighed(self.exchanges.open[last.nonce], claimed, last)->Ok_0->Some_0
    }

    /// The server-final-message for the exchange that was proven under
    /// `nonce`.
    pub open spec fn signed(self, nonce: Seq<char>) -> Option<Seq<char>> {
        if self.exchanges.proven.contains_key(nonce) {
            Some(final_answer(self.exchanges.proven[nonce].text))
        } else {
            None
        }
    }

    /// What is known once that message was collected.
    pub open spec fn collecting(self, nonce: Seq<char>) -> Self {
        ScramView { exchanges: self.exchanges.collecting(nonce), ..self }
    }
}

/// Whether a claim is one this verifier reads: a bare `username`, or one
/// the carrier already filed under `scram`.
fn reads(mechanism: &Mechanism) -> (reads: bool)
    ensures
        reads == reads_mechanism(mechanism@),
{
    let name = mechanism.name();
    text::same_text(name, "username") || text::same_text(name, "scram")
}

/// Read the final message off a claim.
///
/// # Errors
///
/// The claim is not one this verifier reads, carries no final message, or
/// one that cannot be read.
fn read_claim(presented: &Presented) -> (last: Result<ClientFinal, AuthenticateError>)
    ensures
        last matches Ok(last) ==> carried(presented@) == Ok::<_, Seq<char>>(last@),
        last matches Err(error) ==> carried(presented@) == Err::<ClientFinalView, _>(
            error@,
        ),
{
    if !reads(presented.mechanism()) {
        let mut wrong = "'".to_owned();
        wrong.append(presented.mechanism().name());
        wrong.append("' is not a claim the SCRAM verifier reads: it takes a username");
        return Err(AuthenticateError { message: wrong });
    }
    match presented.proof_named(PROOF) {
        Some(message) => ClientFinal::parse(message),
        None => {
            let mut wrong = "no '".to_owned();
            wrong.append(PROOF);
            wrong.append("' proof was presented with the username '");
            wrong.append(presented.value());
            wrong.append("'");
            Err(AuthenticateError { message: wrong })
        },
    }
}

/// Recover the `ClientKey` from a `ClientProof`, given the
/// `ClientSignature`.
pub fn recover_key(signature: &[u8; KEY_LENGTH], shown: &[u8]) -> (key: Option<[u8; KEY_LENGTH]>)
    ensures
        match key {
            Some(key) => recovered_key(signature@, shown@) == Some(key@),
            None => recovered_key(signature@, shown@) is None,
        },
{
    if shown.len() != KEY_LENGTH {
        return None;
    }
    let mut key: [u8; KEY_LENGTH] = *signature;
    let mut i: usize = 0;
    while i < KEY_LENGTH
        invariant
            shown@.len() == KEY_LENGTH,
            i <= KEY_LENGTH,
            forall|j: int| 0 <= j < i ==> key@[j] == signature@[j] ^ shown@[j],
            forall|j: int| i <= j < KEY_LENGTH ==> key@[j] == signature@[j],
        decreases KEY_LENGTH - i,
    {
        key[i] = key[i] ^ shown[i];
        i = i + 1;
    }
    assert(key@ =~= xor(signature@, shown@));
    Some(key)
}

/// `ClientKey = ClientProof XOR HMAC(StoredKey, AuthMessage)`.
fn client_key(held: &Verifier, auth_message: &str, shown: &[u8]) -> (key: Option<
    [u8; KEY_LENGTH],
>)
    ensures
        ({
            let found = recovered_key(
                crypto::hmac_of(held@.stored_key, bytes_of(auth_message@)),
                shown@,
            );
            match key {
                Some(key) => found == Some(key@),
                None => found is None,
            }
        }),
{
    recover_key(&crypto::hmac_sha256(held.stored_key(), auth_message.as_bytes()), shown)
}

/// The salt for a name that is not enrolled, given the digest of the node's
/// decoy and the name.
pub fn decoy_salt(digest: &[u8; KEY_LENGTH]) -> (salt: Vec<u8>)
    ensures
        salt@ == salt_in(digest@),
{
    let mut salt: Vec<u8> = Vec::new();
    let mut i: usize = 0;
    while i < SALT_LENGTH
        invariant
            i <= SALT_LENGTH,
            salt@ == digest@.take(i as int),
        decreases SALT_LENGTH - i,
    {
        salt.push(digest[i]);
        i = i + 1;
        assert(salt@ =~= digest@.take(i as int));
    }
    assert(salt@ =~= salt_in(digest@));
    salt
}

/// Write a server-first-message, given the salt in base64.
pub fn server_first_message(nonce: &str, salt: &str, iterations: u32) -> (answer: String)
    ensures
        answer@ == first_answer(nonce@, salt@, iterations),
{
    let mut answer = "r=".to_owned();
    answer.append(nonce);
    answer.append(",s=");
    answer.append(salt);
    answer.append(",i=");
    answer.append(text::decimal_text(iterations as u64).as_str());
    answer
}

impl Exchange {
    /// Check that a final message is one of this exchange: the claim names
    /// who opened it, and the channel binding is the header it opened with.
    ///
    /// # Errors
    ///
    /// It is not.
    pub fn fits(&self, claimed: &str, last: &ClientFinal) -> (fitting: Result<
        (),
        AuthenticateError,
    >)
        ensures
            fitting is Ok ==> mismatch(self@, claimed@, last@) is None,
            fitting matches Err(error) ==> mismatch(self@, claimed@, last@) == Some(error@),
    {
        if !text::same_text(self.username.as_str(), claimed) {
            let mut wrong = "the claim names '".to_owned();
            wrong.append(claimed);
            wrong.append("' and the SCRAM exchange was opened by '");
            wrong.append(self.username.as_str());
            wrong.append("'");
            return Err(AuthenticateError { message: wrong });
        }
        if !text::same_bytes(last.binding.as_slice(), self.gs2_header.as_str().as_bytes()) {
            return Err(
                AuthenticateError::new(
                    "the SCRAM channel binding is not the GS2 header the exchange opened with",
                ),
            );
        }
        Ok(())
    }

    /// Weigh a final message: the `ServerSignature` where it is proven, and
    /// nothing where it is refused.
    ///
    /// # Errors
    ///
    /// The final message is not one of this exchange, or its proof is not as
    /// long as a key.
    pub fn weigh(&self, claimed: &str, last: &ClientFinal) -> (outcome: Result<
        Option<[u8; KEY_LENGTH]>,
        AuthenticateError,
    >)
        ensures
            match outcome {
                Ok(Some(signature)) => weighed(self@, claimed@, last@) == Ok::<_, Seq<char>>(
                    Some(signature@),
                ),
                Ok(None) => weighed(self@, claimed@, last@) == Ok::<Option<Seq<u8>>, Seq<char>>(
                    None,
                ),
                Err(error) => weighed(self@, claimed@, last@) == Err::<Option<Seq<u8>>, _>(error@),
            },
    {
        match self.fits(claimed, last) {
            Ok(()) => {},
            Err(error) => return Err(error),
        }
        let held = match &self.verifier {
            Some(held) => held,
            None => return Ok(None),
        };
        let mut covered = self.transcript.clone();
        covered.push(',');
        covered.append(last.without_proof.as_str());
        assert(covered@ == auth_message(self@, last@));
        let key = match client_key(held, covered.as_str(), last.proof.as_slice()) {
            Some(key) => key,
            None => {
                let mut wrong = "the SCRAM proof is ".to_owned();
                wrong.append(text::decimal_text(last.proof.len() as u64).as_str());
                wrong.append(" bytes and SHA-256's is ");
                wrong.append(text::decimal_text(KEY_LENGTH as u64).as_str());
                return Err(AuthenticateError { message: wrong });
            },
        };
        if !held.proves(&key) {
            return Ok(None);
        }
        Ok(Some(crypto::hmac_sha256(held.server_key(), covered.as_str().as_bytes())))
    }
}

/// Runs the server side of SCRAM-SHA-256 against a credential store.
pub struct ScramAuthenticator<N> {
    store: CredentialStore,
    nonces: N,
    decoy: [u8; SALT_LENGTH],
    exchanges: Exchanges,
}

impl<N> View for ScramAuthenticator<N> {
    type V = ScramView;

    closed spec fn view(&self) -> ScramView {
        ScramView { store: self.store@, decoy: self.decoy@, exchanges: self.exchanges@ }
    }
}

impl ScramAuthenticator<FreshNonces> {
    /// An authenticator with nothing open, whose nonces and decoy are drawn
    /// by chance.
    #[must_use]
    pub fn new(store: CredentialStore) -> (scram: Self)
        ensures
            scram.wf(),
            scram@.store == store@,
            scram@.decoy.len() == SALT_LENGTH,
            scram@.exchanges == ExchangesView::empty(),
    {
        Self::with_decoy(store, crypto::fresh_salt())
    }

    /// An authenticator with nothing open and that decoy.
    #[must_use]
    pub fn with_decoy(store: CredentialStore, decoy: [u8; SALT_LENGTH]) -> (scram: Self)
        ensures
            scram.wf(),
            scram@ == (ScramView {
                store: store@,
                decoy: decoy@,
                exchanges: ExchangesView::empty(),
            }),
    {
        ScramAuthenticator { store, nonces: FreshNonces, decoy, exchanges: Exchanges::new() }
    }
}

impl<N: NonceSource> ScramAuthenticator<N> {
    /// The exchanges are valid and nonces can be drawn.
    pub open spec fn wf(&self) -> bool {
        self@.exchanges.valid() && self.source().ready()
    }

    /// Where the server's half of the nonce comes from.
    pub closed spec fn source(&self) -> N {
        self.nonces
    }

    /// Have the server's half of the nonce from `nonces`.
    #[must_use]
    pub fn with_nonces<F: Fn() -> String>(self, nonces: F) -> (scram: ScramAuthenticator<
        SuppliedNonces<F>,
    >)
        requires
            self.wf(),
            nonces.requires(()),
        ensures
            scram.wf(),
            scram@ == self@,
            scram.source().supply() == nonces,
    {
        ScramAuthenticator {
            store: self.store,
            nonces: SuppliedNonces::new(nonces),
            decoy: self.decoy,
            exchanges: self.exchanges,
        }
    }

    /// The enrollments this verifies against.
    #[must_use]
    pub fn store(&self) -> (store: &CredentialStore)
        ensures
            store@ == self@.store,
    {
        &self.store
    }

    /// The exchanges that stand open and the signatures that wait.
    #[must_use]
    pub fn exchanges(&self) -> (exchanges: &Exchanges)
        ensures
            exchanges@ == self@.exchanges,
    {
        &self.exchanges
    }

    /// The mechanism this verifies.
    #[must_use]
    pub fn mechanism(&self) -> (mechanism: Mechanism)
        ensures
            mechanism@ == "scram"@,
    {
        Mechanism::new("scram")
    }

    /// Answer a client-first-message that was read, where the server's half
    /// of the nonce is `server_nonce`, and remember the exchange until its
    /// final message arrives.
    pub fn answer(&mut self, first: ClientFirst, server_nonce: &str) -> (answer: String)
        requires
            old(self).wf(),
            old(self)@.exchanges.sequence < u64::MAX,
        ensures
            final(self).wf(),
            final(self).source() == old(self).source(),
            answer@ == old(self)@.answer(first@, server_nonce@),
            final(self)@ == old(self)@.answering(first@, server_nonce@),
            ({
                let salt = salt_for(old(self)@.store, old(self)@.decoy, first@.username);
                &&& crypto::reads_back(salt)
                &&& !old(self)@.store.verifiers.contains_key(first@.username) ==> salt.len()
                    == SALT_LENGTH && crypto::base64_text(salt).len() == 24
            }),
    {
        let mut nonce = first.nonce.clone();
        nonce.append(server_nonce);
        let username = first.username;
        let (held, salt, iterations) = match self.store.verifier_of(username.as_str()) {
            Some(held) => {
                let salt = crypto::base64_encode(held.salt());
                (Some(held.clone()), salt, held.iterations())
            },
            None => {
                let mut seed: Vec<u8> = Vec::new();
                seed.extend_from_slice(&self.decoy);
                seed.extend_from_slice(username.as_str().as_bytes());
                assert(seed@ =~= self.decoy@ + bytes_of(username@));
                let salt = decoy_salt(&crypto::sha256(seed.as_slice()));
                (None, crypto::base64_encode(salt.as_slice()), self.store.iterations())
            },
        };
        let answer = server_first_message(nonce.as_str(), salt.as_str(), iterations);
        let mut transcript = first.bare;
        transcript.push(',');
        transcript.append(answer.as_str());
        let ghost before = self@;
        self.exchanges.begin(nonce, username, first.gs2_header, transcript, held);
        assert(self@ =~= before.answering(first@, server_nonce@));
        answer
    }

    /// Answer a client-first-message with the server-first-message, and
    /// remember the exchange until its final message arrives.
    ///
    /// # Errors
    ///
    /// The client-first-message cannot be read, or asks for what this node
    /// does not offer.
    pub fn server_first(&mut self, client_first: &str) -> (answer: Result<
        String,
        AuthenticateError,
    >)
        requires
            old(self).wf(),
            message::read_first(client_first@) is Ok ==> old(self)@.exchanges.sequence < u64::MAX,
        ensures
            final(self).wf(),
            final(self).source() == old(self).source(),
            match message::read_first(client_first@) {
                Err(wrong) => answer matches Err(error) && error@ == wrong && final(self)@ == old(
                    self,
                )@,
                Ok(first) => answer matches Ok(answer) && exists|server_nonce: Seq<char>| #[trigger]
                    old(self).source().gives(server_nonce) && answer@ == old(self)@.answer(
                        first,
                        server_nonce,
                    ) && final(self)@ == old(self)@.answering(first, server_nonce),
            },
            message::read_first(client_first@) matches Ok(first) ==> {
                let salt = salt_for(old(self)@.store, old(self)@.decoy, first.username);
                &&& crypto::reads_back(salt)
                &&& !old(self)@.store.verifiers.contains_key(first.username) ==> salt.len()
                    == SALT_LENGTH && crypto::base64_text(salt).len() == 24
            },
    {
        match ClientFirst::parse(client_first) {
            Ok(first) => {
                let server_nonce = self.nonces.nonce();
                Ok(self.answer(first, server_nonce.as_str()))
            },
            Err(error) => Err(error),
        }
    }

    /// Weigh a final message that was read, presented for `claimed`. The
    /// exchange that it belongs to is finished whatever comes of it; where it
    /// is proven, the `ServerSignature` waits to be collected.
    ///
    /// # Errors
    ///
    /// The message belongs to no open exchange, or does not fit the exchange
    /// that it belongs to.
    pub fn finish(&mut self, claimed: &str, last: ClientFinal) -> (outcome: Result<
        Verified,
        AuthenticateError,
    >)
        requires
            old(self).wf(),
            old(self)@.finishing(claimed@, last@).0 == Ok::<_, Seq<char>>(Verified::Proven) ==> old(
                self,
            )@.exchanges.sequence < u64::MAX,
        ensures
            final(self).wf(),
            final(self).source() == old(self).source(),
            final(self)@ == old(self)@.finishing(claimed@, last@).1,
            match outcome {
                Ok(verified) => old(self)@.finishing(claimed@, last@).0 == Ok::<_, Seq<char>>(
                    verified,
                ),
                Err(error) => old(self)@.finishing(claimed@, last@).0 == Err::<Verified, _>(error@),
            },
            outcome matches Ok(Verified::Proven) ==> {
                crypto::reads_back(old(self)@.signature(claimed@, last@))
            },
    {
        let ghost before = self@;
        let exchange = match self.exchanges.take(last.nonce.as_str()) {
            Some(exchange) => exchange,
            None => {
                assert(self@.exchanges.open =~= before.exchanges.open);
                assert(self@ =~= before);
                return Err(
                    AuthenticateError::new(
                        "no SCRAM exchange is open under that nonce: never opened, or already finished",
                    ),
                );
            },
        };
        match exchange.weigh(claimed, &last) {
            Ok(Some(signature)) => {
                self.exchanges.sign(last.nonce, crypto::base64_encode(&signature));
                Ok(Verified::Proven)
            },
            Ok(None) => Ok(Verified::Refused),
            Err(error) => Err(error),
        }
    }

    /// Weigh a claim by the final message that it carries.
    ///
    /// # Errors
    ///
    /// The claim is not one this verifier reads, or its final message is
    /// missing, cannot be read, belongs to no open exchange, or does not fit
    /// the exchange that it belongs to.
    pub fn verify(&mut self, presented: &Presented) -> (outcome: Result<
        Verified,
        AuthenticateError,
    >)
        requires
            old(self).wf(),
            old(self)@.verifying(presented@).0 == Ok::<_, Seq<char>>(Verified::Proven) ==> old(
                self,
            )@.exchanges.sequence < u64::MAX,
        ensures
            final(self).wf(),
            final(self).source() == old(self).source(),
            final(self)@ == old(self)@.verifying(presented@).1,
            match outcome {
                Ok(verified) => old(self)@.verifying(presented@).0 == Ok::<_, Seq<char>>(verified),
                Err(error) => old(self)@.verifying(presented@).0 == Err::<Verified, _>(error@),
            },
            outcome matches Ok(Verified::Proven) ==> {
                crypto::reads_back(
                    old(self)@.signature(presented@.value, carried(presented@)->Ok_0),
                )
            },
    {
        match read_claim(presented) {
            Ok(last) => self.finish(presented.value(), last),
            Err(error) => Err(error),
        }
    }

    /// The server-final-message, `v=<ServerSignature>`, for an exchange that
    /// was proven under `nonce`, the combined nonce of the client's final
    /// message. Collected once.
    #[must_use]
    pub fn server_final(&mut self, nonce: &str) -> (answer: Option<String>)
        requires
            old(self).wf(),
        ensures
            final(self).wf(),
            final(self).source() == old(self).source(),
            final(self)@ == old(self)@.collecting(nonce@),
            match answer {
                Some(answer) => old(self)@.signed(nonce@) == Some(answer@),
                None => old(self)@.signed(nonce@) is None,
            },
    {
        match self.exchanges.collect(nonce) {
            Some(signature) => {
                let mut answer = "v=".to_owned();
                answer.append(signature.as_str());
                Some(answer)
            },
            None => None,
        }
    }
}

} // verus!
