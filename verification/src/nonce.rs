//! Where the server's half of a nonce comes from.

use crate::crypto;
use vstd::prelude::*;

verus! {

/// A source of server nonces.
pub trait NonceSource {
    /// Whether the source can be asked.
    spec fn ready(&self) -> bool;

    /// Whether the source may give that nonce.
    spec fn gives(&self, nonce: Seq<char>) -> bool;

    /// A nonce.
    fn nonce(&self) -> (nonce: String)
        requires
            self.ready(),
        ensures
            self.gives(nonce@),
    ;
}

/// Nonces drawn by chance.
pub struct FreshNonces;

impl NonceSource for FreshNonces {
    open spec fn ready(&self) -> bool {
        true
    }

    /// The base64 of a fresh salt: 24 characters, no comma among them, that
    /// read back.
    open spec fn gives(&self, nonce: Seq<char>) -> bool {
        &&& nonce.len() == 24
        &&& !nonce.contains(',')
        &&& exists|salt: Seq<u8>|
            {
                &&& salt.len() == crypto::SALT_LENGTH
                &&& nonce == #[trigger] crypto::base64_text(salt)
                &&& crypto::reads_back(salt)
            }
    }

    fn nonce(&self) -> (nonce: String) {
        let salt = crypto::fresh_salt();
        crypto::base64_encode(&salt)
    }
}

/// Nonces that a function supplies.
pub struct SuppliedNonces<F> {
    supply: F,
}

impl<F: Fn() -> String> SuppliedNonces<F> {
    /// The function that supplies the nonces.
    pub closed spec fn supply(&self) -> F {
        self.supply
    }

    /// The nonces that `supply` gives.
    pub fn new(supply: F) -> (nonces: Self)
        ensures
            nonces.supply() == supply,
    {
        SuppliedNonces { supply }
    }
}

impl<F: Fn() -> String> NonceSource for SuppliedNonces<F> {
    open spec fn ready(&self) -> bool {
        self.supply().requires(())
    }

    /// What the function may return.
    open spec fn gives(&self, nonce: Seq<char>) -> bool {
        exists|text: String| #[trigger] self.supply().ensures((), text) && text@ == nonce
    }

    fn nonce(&self) -> (nonce: String) {
        (self.supply)()
    }
}

} // verus!
