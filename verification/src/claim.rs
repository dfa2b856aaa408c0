//! A claim as it is presented, and what becomes of it.

use crate::table::Table;
use vstd::prelude::*;

verus! {

/// Why a claim could not be weighed at all.
#[derive(Clone, Debug, Eq, PartialEq)]
pub struct AuthenticateError {
    pub message: String,
}

impl View for AuthenticateError {
    type V = Seq<char>;

    open spec fn view(&self) -> Seq<char> {
        self.message@
    }
}

impl AuthenticateError {
    /// An error that says `message`.
    pub fn new(message: &str) -> (error: Self)
        ensures
            error@ == message@,
    {
        AuthenticateError { message: message.to_owned() }
    }
}

/// What weighing a claim came to.
#[derive(Clone, Copy, Debug, Eq, PartialEq, Structural)]
pub enum Verified {
    /// The claim is true.
    Proven,
    /// The claim was weighed and is not believed.
    Refused,
}

/// By what means an identity is claimed.
#[derive(Debug, Eq, PartialEq)]
pub struct Mechanism {
    name: String,
}

impl View for Mechanism {
    type V = Seq<char>;

    closed spec fn view(&self) -> Seq<char> {
        self.name@
    }
}

impl Mechanism {
    /// The mechanism of that name.
    pub fn new(name: &str) -> (mechanism: Self)
        ensures
            mechanism@ == name@,
    {
        Mechanism { name: name.to_owned() }
    }

    /// The mechanism's name.
    pub fn name(&self) -> (name: &str)
        ensures
            name@ == self@,
    {
        self.name.as_str()
    }
}

/// A claim as a carrier presents it: who is claimed, by what means, and the
/// proofs that ride along under their names.
pub struct Presented {
    mechanism: Mechanism,
    value: String,
    proofs: Table<String>,
}

/// What a claim holds.
#[verifier::ext_equal]
pub struct PresentedView {
    pub mechanism: Seq<char>,
    pub value: Seq<char>,
    pub proofs: Map<Seq<char>, Seq<char>>,
}

impl View for Presented {
    type V = PresentedView;

    closed spec fn view(&self) -> PresentedView {
        PresentedView {
            mechanism: self.mechanism@,
            value: self.value@,
            proofs: self.proofs@.map_values(|shown: String| shown@),
        }
    }
}

impl Presented {
    /// A claim to be `value`, with no proof yet.
    pub fn passed(mechanism: Mechanism, value: &str) -> (presented: Self)
        ensures
            presented@ == (PresentedView {
                mechanism: mechanism@,
                value: value@,
                proofs: Map::empty(),
            }),
    {
        let presented = Presented { mechanism, value: value.to_owned(), proofs: Table::new() };
        assert(presented@.proofs =~= Map::empty());
        presented
    }

    /// The claim with a proof under `name`.
    pub fn with_proof(self, name: &str, shown: &str) -> (presented: Self)
        ensures
            presented@ == (PresentedView {
                proofs: self@.proofs.insert(name@, shown@),
                ..self@
            }),
    {
        let Presented { mechanism, value, mut proofs } = self;
        proofs.insert(name.to_owned(), shown.to_owned());
        let presented = Presented { mechanism, value, proofs };
        assert(presented@.proofs =~= self@.proofs.insert(name@, shown@));
        presented
    }

    /// By what means the identity is claimed.
    pub fn mechanism(&self) -> (mechanism: &Mechanism)
        ensures
            mechanism@ == self@.mechanism,
    {
        &self.mechanism
    }

    /// Who is claimed.
    pub fn value(&self) -> (value: &str)
        ensures
            value@ == self@.value,
    {
        self.value.as_str()
    }

    /// The proof under `name`.
    pub fn proof_named(&self, name: &str) -> (shown: Option<&str>)
        ensures
            match shown {
                Some(shown) => self@.proofs.contains_key(name@) && self@.proofs[name@] == shown@,
                None => !self@.proofs.contains_key(name@),
            },
    {
        match self.proofs.get(name) {
            Some(shown) => Some(shown.as_str()),
            None => None,
        }
    }
}

} // verus!
