//! Authenticate by SCRAM-SHA-256: the server side of the exchange, against
//! stored verifiers.
//!
//! RFC 5802 with RFC 7677's hash, which is what Kafka, `PostgreSQL` and XMPP
//! speak. Four messages, and the password is in none of them. The client
//! opens with its name and a nonce; [`ScramAuthenticator::server_first`]
//! answers with both nonces, the user's salt and the iteration count, and
//! remembers the exchange under the combined nonce. The client's final
//! message carries a `ClientProof`; the carrier presents it as a `scram`
//! claim, or a bare `username`, with the message riding along under
//! `scram.client-final`. [`ScramAuthenticator::verify`] recovers the
//! `ClientKey` from the proof, checks that it hashes to the `StoredKey` the
//! [`CredentialStore`] keeps, and on success leaves the `ServerSignature` to
//! be collected with [`ScramAuthenticator::server_final`], so the client can
//! tell that the node knew the verifier too.
//!
//! An exchange is good for one final message. A name the store does not
//! hold is answered with a salt derived from the name, the same every time,
//! and is refused at the end like a wrong password. Channel binding is not
//! offered: a client that requires it is refused saying so. `SASLprep` is
//! not applied; a username and a password are compared as they were sent.
//!
//! What every text is read as is stated and proved in [`grammar`], what each
//! step does in [`protocol`], what holds of all this together in [`laws`], and
//! what holds over many calls in [`history`].

pub mod authenticator;
pub mod claim;
pub mod crypto;
pub mod exchange;
pub mod grammar;
pub mod history;
pub mod laws;
pub mod message;
pub mod nonce;
pub mod protocol;
pub mod store;
pub mod table;
pub mod text;

pub use authenticator::{ScramAuthenticator, PROOF};
pub use claim::{AuthenticateError, Mechanism, Presented, Verified};
pub use message::{ClientFinal, ClientFirst};
pub use store::{CredentialStore, Verifier};
pub use table::{make_room, MOST_OPEN};
