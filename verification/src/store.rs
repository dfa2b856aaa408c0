//! The enrollments: what the node keeps of each user in place of a password.

use crate::crypto;
use crate::crypto::KEY_LENGTH;
use vstd::hash_map::StringHashMap;
use vstd::prelude::*;

verus! {

/// What is kept of a password: `StoredKey` is the digest of the `ClientKey`
/// that the password gives with the salt, so the key itself is not held.
pub struct Verifier {
    salt: Vec<u8>,
    iterations: u32,
    stored_key: [u8; KEY_LENGTH],
    server_key: [u8; KEY_LENGTH],
}

/// What a verifier holds.
#[verifier::ext_equal]
pub struct VerifierView {
    pub salt: Seq<u8>,
    pub iterations: u32,
    pub stored_key: Seq<u8>,
    pub server_key: Seq<u8>,
}

impl View for Verifier {
    type V = VerifierView;

    closed spec fn view(&self) -> VerifierView {
        VerifierView {
            salt: self.salt@,
            iterations: self.iterations,
            stored_key: self.stored_key@,
            server_key: self.server_key@,
        }
    }
}

/// The value behind an optional verifier.
pub open spec fn verifier_in(held: Option<Verifier>) -> Option<VerifierView> {
    match held {
        Some(held) => Some(held@),
        None => None,
    }
}

/// Two keys differ in no byte exactly where no bit of the differences, all
/// laid over each other, is set.
proof fn lemma_laid_over(differ: u8, a: u8, b: u8)
    ensures
        (differ | (a ^ b)) == 0 <==> differ == 0 && a == b,
{
    assert((differ | (a ^ b)) == 0 <==> differ == 0 && a == b) by (bit_vector);
}

/// Whether two keys are the same, in a time that does not depend on where
/// they differ.
pub fn same_key(a: &[u8; KEY_LENGTH], b: &[u8; KEY_LENGTH]) -> (same: bool)
    ensures
        same == (a@ == b@),
{
    let mut differ: u8 = 0;
    let mut i: usize = 0;
    while i < KEY_LENGTH
        invariant
            i <= KEY_LENGTH,
            differ == 0 <==> forall|j: int| 0 <= j < i ==> a@[j] == b@[j],
        decreases KEY_LENGTH - i,
    {
        proof {
            lemma_laid_over(differ, a@[i as int], b@[i as int]);
        }
        let next = differ | (a[i] ^ b[i]);
        assert(next == 0 <==> forall|j: int| 0 <= j < i + 1 ==> a@[j] == b@[j]);
        differ = next;
        i = i + 1;
    }
    assert(differ == 0 <==> a@ =~= b@);
    differ == 0
}

impl Clone for Verifier {
    fn clone(&self) -> (copy: Self)
        ensures
            copy@ == self@,
    {
        proof {
            use_type_invariant(self);
        }
        let salt = self.salt.clone();
        assert(salt@ =~= self.salt@);
        Verifier {
            salt,
            iterations: self.iterations,
            stored_key: self.stored_key,
            server_key: self.server_key,
        }
    }
}

impl Verifier {
    /// The salt can be sent.
    #[verifier::type_invariant]
    spec fn wf(&self) -> bool {
        crypto::encodable(self.salt@.len())
    }

    /// A verifier of those parts.
    pub fn new(
        salt: Vec<u8>,
        iterations: u32,
        stored_key: [u8; KEY_LENGTH],
        server_key: [u8; KEY_LENGTH],
    ) -> (verifier: Self)
        requires
            crypto::encodable(salt@.len()),
        ensures
            verifier@ == (VerifierView {
                salt: salt@,
                iterations,
                stored_key: stored_key@,
                server_key: server_key@,
            }),
    {
        Verifier { salt, iterations, stored_key, server_key }
    }

    /// The salt the password was derived with.
    pub fn salt(&self) -> (salt: &[u8])
        ensures
            salt@ == self@.salt,
            crypto::encodable(salt@.len()),
    {
        proof {
            use_type_invariant(self);
        }
        self.salt.as_slice()
    }

    /// How many iterations the password was derived with.
    pub fn iterations(&self) -> (iterations: u32)
        ensures
            iterations == self@.iterations,
    {
        self.iterations
    }

    /// The digest of the `ClientKey`.
    pub fn stored_key(&self) -> (key: &[u8; KEY_LENGTH])
        ensures
            key@ == self@.stored_key,
    {
        &self.stored_key
    }

    /// The key the node signs with.
    pub fn server_key(&self) -> (key: &[u8; KEY_LENGTH])
        ensures
            key@ == self@.server_key,
    {
        &self.server_key
    }

    /// Whether a key with that digest is the `ClientKey`.
    pub fn accepts(&self, digest: &[u8; KEY_LENGTH]) -> (accepts: bool)
        ensures
            accepts == (digest@ == self@.stored_key),
    {
        same_key(digest, &self.stored_key)
    }

    /// Whether `key` hashes to the `StoredKey`.
    pub fn proves(&self, key: &[u8; KEY_LENGTH]) -> (proves: bool)
        ensures
            proves == (crypto::sha256_of(key@) == self@.stored_key),
    {
        self.accepts(&crypto::sha256(key))
    }
}

/// The verifiers of the users who are enrolled, and the iteration count for
/// those who are not.
pub struct CredentialStore {
    iterations: u32,
    verifiers: StringHashMap<Verifier>,
}

/// What a credential store holds.
#[verifier::ext_equal]
pub struct StoreView {
    pub iterations: u32,
    pub verifiers: Map<Seq<char>, VerifierView>,
}

impl View for CredentialStore {
    type V = StoreView;

    closed spec fn view(&self) -> StoreView {
        StoreView {
            iterations: self.iterations,
            verifiers: self.verifiers@.map_values(|verifier: Verifier| verifier@),
        }
    }
}

impl CredentialStore {
    /// A store with nobody enrolled.
    pub fn with_iterations(iterations: u32) -> (store: Self)
        ensures
            store@ == (StoreView { iterations, verifiers: Map::empty() }),
    {
        let store = CredentialStore { iterations, verifiers: StringHashMap::new() };
        assert(store@.verifiers =~= Map::empty());
        store
    }

    /// Enroll `name`, in place of an earlier enrollment.
    pub fn insert_verifier(&mut self, name: &str, verifier: Verifier)
        ensures
            final(self)@ == (StoreView {
                verifiers: old(self)@.verifiers.insert(name@, verifier@),
                ..old(self)@
            }),
    {
        self.verifiers.insert(name.to_owned(), verifier);
        assert(self@.verifiers =~= old(self)@.verifiers.insert(name@, verifier@));
    }

    /// The verifier of `name`.
    pub fn verifier_of(&self, name: &str) -> (verifier: Option<&Verifier>)
        ensures
            match verifier {
                Some(verifier) => self@.verifiers.contains_key(name@) && self@.verifiers[name@]
                    == verifier@,
                None => !self@.verifiers.contains_key(name@),
            },
    {
        self.verifiers.get(name)
    }

    /// The iteration count for those who are not enrolled.
    pub fn iterations(&self) -> (iterations: u32)
        ensures
            iterations == self@.iterations,
    {
        self.iterations
    }

    /// Whether `name` is enrolled.
    pub fn contains(&self, name: &str) -> (contains: bool)
        ensures
            contains == self@.verifiers.contains_key(name@),
    {
        self.verifiers.contains_key(name)
    }
}

} // verus!
