//! The two messages a SCRAM client sends, read and not yet believed.
//!
//! RFC 5802 section 7. The client-first-message is a GS2 header (the
//! channel-binding flag, an optional authorization identity) and then the
//! bare message `n=<user>,r=<nonce>`. The client-final-message is
//! `c=<base64 of the GS2 header>,r=<both nonces>,p=<base64 ClientProof>`,
//! and everything before `,p=` is what the proof was computed over. A
//! username writes `,` as `=2C` and `=` as `=3D`.

use crate::claim::AuthenticateError;
use crate::crypto;
use crate::text;
use vstd::prelude::*;
use vstd::string::{StrSliceExecFns, StringExecFns};

verus! {

/// The client-first-message.
#[derive(Clone, Debug, Eq, PartialEq)]
pub struct ClientFirst {
    /// The GS2 header as sent, commas included: `n,,` for most clients.
    pub gs2_header: String,
    /// The message after the header, which the proof is computed over.
    pub bare: String,
    /// The username, unescaped.
    pub username: String,
    /// The client's nonce.
    pub nonce: String,
}

/// What a client-first-message holds.
#[verifier::ext_equal]
pub struct ClientFirstView {
    pub gs2_header: Seq<char>,
    pub bare: Seq<char>,
    pub username: Seq<char>,
    pub nonce: Seq<char>,
}

impl View for ClientFirst {
    type V = ClientFirstView;

    open spec fn view(&self) -> ClientFirstView {
        ClientFirstView {
            gs2_header: self.gs2_header@,
            bare: self.bare@,
            username: self.username@,
            nonce: self.nonce@,
        }
    }
}

/// RFC 5802's escaping of a username: `,` is `=2C` and `=` is `=3D`.
pub open spec fn escaped(name: Seq<char>) -> Seq<char>
    decreases name.len(),
{
    if name.len() == 0 {
        seq![]
    } else if name[0] == ',' {
        seq!['=', '2', 'C'] + escaped(name.skip(1))
    } else if name[0] == '=' {
        seq!['=', '3', 'D'] + escaped(name.skip(1))
    } else {
        seq![name[0]] + escaped(name.skip(1))
    }
}

/// `head` in front of a text, where there is a text.
pub open spec fn prefixed(head: Seq<char>, text: Option<Seq<char>>) -> Option<Seq<char>> {
    match text {
        Some(tail) => Some(head + tail),
        None => None,
    }
}

/// What an escaped username stands for: nothing, where an `=` in it is not
/// the head of `=2C` or `=3D`.
pub open spec fn unescaped(s: Seq<char>) -> Option<Seq<char>>
    decreases s.len(),
{
    if s.len() == 0 {
        Some(seq![])
    } else if s[0] != '=' {
        prefixed(seq![s[0]], unescaped(s.skip(1)))
    } else if s.len() >= 3 && s[1] == '2' && s[2] == 'C' {
        prefixed(seq![','], unescaped(s.skip(3)))
    } else if s.len() >= 3 && s[1] == '3' && s[2] == 'D' {
        prefixed(seq!['='], unescaped(s.skip(3)))
    } else {
        None
    }
}

/// Whether a field opens with `<name>=`.
pub open spec fn names(field: Seq<char>, name: char) -> bool {
    field.len() >= 2 && field[0] == name && field[1] == '='
}

/// The value of the attribute `name` at the head of a field.
pub open spec fn attribute_value(field: Option<Seq<char>>, name: char) -> Option<Seq<char>> {
    match field {
        Some(held) if names(held, name) => Some(held.skip(2)),
        _ => None,
    }
}

/// The second of the comma-separated fields of `s`.
pub open spec fn second_field(s: Seq<char>) -> Option<Seq<char>> {
    match text::after(s, ',') {
        Some(rest) => Some(text::before(rest, ',')),
        None => None,
    }
}

/// What is said where a message lacks an attribute.
pub open spec fn no_attribute(name: char, of: Seq<char>) -> Seq<char> {
    "the SCRAM "@ + of + " has no '"@ + seq![name] + "=' here"@
}

/// The name a client-first-message goes by in what is said of it.
pub open spec fn first_message() -> Seq<char> {
    "client-first-message"@
}

/// The name a client-final-message goes by in what is said of it.
pub open spec fn final_message() -> Seq<char> {
    "client-final-message"@
}

/// What the bare part of a client-first-message says behind the header
/// `gs2_header`, or what is wrong with it.
pub open spec fn read_bare(gs2_header: Seq<char>, bare: Seq<char>) -> Result<
    ClientFirstView,
    Seq<char>,
> {
    if names(bare, 'm') {
        Err("the SCRAM client makes an extension mandatory and this node reads none"@)
    } else {
        match attribute_value(Some(text::before(bare, ',')), 'n') {
            None => Err(no_attribute('n', first_message())),
            Some(name) => match unescaped(name) {
                None => Err("the SCRAM username has an '=' that escapes nothing"@),
                Some(username) => match attribute_value(second_field(bare), 'r') {
                    None => Err(no_attribute('r', first_message())),
                    Some(nonce) => if username.len() == 0 || nonce.len() == 0 {
                        Err("the SCRAM client-first-message has an empty username or nonce"@)
                    } else {
                        Ok(ClientFirstView { gs2_header, bare, username, nonce })
                    },
                },
            },
        }
    }
}

/// What a client-first-message says, or what is wrong with it.
pub open spec fn read_first(message: Seq<char>) -> Result<ClientFirstView, Seq<char>> {
    let flag = text::before(message, ',');
    if flag != seq!['n'] && flag != seq!['y'] {
        if names(flag, 'p') {
            Err("the SCRAM client requires channel binding and this node offers none"@)
        } else {
            Err("the SCRAM client-first-message does not open with a channel-binding flag"@)
        }
    } else {
        match text::after(message, ',') {
            None => Err("the SCRAM client-first-message has no GS2 header"@),
            Some(rest) => match text::after(rest, ',') {
                None => Err("the SCRAM client-first-message has no GS2 header"@),
                Some(bare) => read_bare(
                    flag.push(',') + text::before(rest, ',').push(','),
                    bare,
                ),
            },
        }
    }
}

/// The characters of a text.
fn chars_of(text: &str) -> (chars: Vec<char>)
    ensures
        chars@ == text@,
{
    let mut chars: Vec<char> = Vec::new();
    for c in it: text.chars()
        invariant
            it.seq() == text@,
            chars@ == text@.take(it.index() as int),
    {
        chars.push(c);
        assert(chars@ =~= text@.take(it.index() as int + 1));
    }
    assert(chars@ =~= text@);
    chars
}

/// Undo RFC 5802's escaping of a username.
///
/// # Errors
///
/// An `=` is not the head of `=2C` or `=3D`.
pub fn unescape(name: &str) -> (username: Result<String, AuthenticateError>)
    ensures
        username matches Ok(held) ==> unescaped(name@) == Some(held@),
        username matches Err(error) ==> unescaped(name@) is None && error@
            == "the SCRAM username has an '=' that escapes nothing"@,
{
    let chars = chars_of(name);
    let mut out = String::new();
    let mut at: usize = 0;
    assert(name@.skip(0) =~= name@);
    assert(prefixed(seq![], unescaped(name@)) =~= unescaped(name@)) by {
        if let Some(held) = unescaped(name@) {
            assert(Seq::<char>::empty() + held =~= held);
        }
    }
    while at < chars.len()
        invariant
            chars@ == name@,
            at <= chars.len(),
            unescaped(name@) == prefixed(out@, unescaped(name@.skip(at as int))),
        decreases chars.len() - at,
    {
        let ghost rest = name@.skip(at as int);
        let ghost before = out@;
        assert(rest.len() == chars.len() - at);
        if chars[at] != '=' {
            out.push(chars[at]);
            assert(rest.skip(1) =~= name@.skip(at + 1));
            at = at + 1;
        } else if chars.len() - at >= 3 && chars[at + 1] == '2' && chars[at + 2] == 'C' {
            out.push(',');
            assert(rest.skip(3) =~= name@.skip(at + 3));
            at = at + 3;
        } else if chars.len() - at >= 3 && chars[at + 1] == '3' && chars[at + 2] == 'D' {
            out.push('=');
            assert(rest.skip(3) =~= name@.skip(at + 3));
            at = at + 3;
        } else {
            return Err(
                AuthenticateError::new("the SCRAM username has an '=' that escapes nothing"),
            );
        }
        proof {
            if let Some(tail) = unescaped(name@.skip(at as int)) {
                let c = out@.last();
                assert(out@ + tail =~= before + (seq![c] + tail));
            }
        }
    }
    assert(name@.skip(at as int) =~= Seq::<char>::empty());
    assert(out@ + Seq::<char>::empty() =~= out@);
    Ok(out)
}

/// Whether a text opens with `<name>=`.
fn opens_with(text: &str, name: char) -> (opens: bool)
    ensures
        opens == names(text@, name),
{
    text.unicode_len() >= 2 && text.get_char(0) == name && text.get_char(1) == '='
}

/// The value of the attribute `name` at the head of `field`.
fn attribute<'a>(field: Option<&'a str>, name: char, of: &str) -> (value: Result<
    &'a str,
    AuthenticateError,
>)
    ensures
        match value {
            Ok(held) => field matches Some(given) && attribute_value(Some(given@), name) == Some(
                held@,
            ),
            Err(error) => (field matches Some(given) ==> attribute_value(Some(given@), name)
                is None) && error@ == no_attribute(name, of@),
        },
{
    if let Some(given) = field {
        if opens_with(given, name) {
            let count: usize = given.unicode_len();
            let value = given.substring_char(2, count);
            assert(value@ =~= given@.skip(2));
            return Ok(value);
        }
    }
    let mut message = "the SCRAM ".to_owned();
    message.append(of);
    message.append(" has no '");
    message.push(name);
    message.append("=' here");
    assert(message@ =~= no_attribute(name, of@));
    Err(AuthenticateError { message })
}

impl ClientFirst {
    /// Read a client-first-message.
    ///
    /// # Errors
    ///
    /// The client requires channel binding, which this node does not offer;
    /// an extension is mandatory; or the username or nonce is missing.
    pub fn parse(message: &str) -> (read: Result<Self, AuthenticateError>)
        ensures
            read matches Ok(first) ==> read_first(message@) == Ok::<_, Seq<char>>(first@),
            read matches Err(error) ==> read_first(message@) == Err::<ClientFirstView, _>(error@),
    {
        let of = "client-first-message";
        let (flag, rest) = text::part(message, ',');
        proof {
            reveal_strlit("n");
            reveal_strlit("y");
            assert("n"@ =~= seq!['n']);
            assert("y"@ =~= seq!['y']);
        }
        if !text::same_text(flag, "n") && !text::same_text(flag, "y") {
            if opens_with(flag, 'p') {
                return Err(
                    AuthenticateError::new(
                        "the SCRAM client requires channel binding and this node offers none",
                    ),
                );
            }
            return Err(
                AuthenticateError::new(
                    "the SCRAM client-first-message does not open with a channel-binding flag",
                ),
            );
        }
        let (authzid, bare) = match rest {
            Some(rest) => text::part(rest, ','),
            None => {
                return Err(
                    AuthenticateError::new("the SCRAM client-first-message has no GS2 header"),
                );
            },
        };
        let bare = match bare {
            Some(bare) => bare,
            None => {
                return Err(
                    AuthenticateError::new("the SCRAM client-first-message has no GS2 header"),
                );
            },
        };
        if opens_with(bare, 'm') {
            return Err(
                AuthenticateError::new(
                    "the SCRAM client makes an extension mandatory and this node reads none",
                ),
            );
        }
        let (named, others) = text::part(bare, ',');
        let name = match attribute(Some(named), 'n', of) {
            Ok(name) => name,
            Err(error) => return Err(error),
        };
        let username = match unescape(name) {
            Ok(username) => username,
            Err(error) => return Err(error),
        };
        let second = match others {
            Some(others) => Some(text::part(others, ',').0),
            None => None,
        };
        let nonce = match attribute(second, 'r', of) {
            Ok(nonce) => nonce,
            Err(error) => return Err(error),
        };
        if username.as_str().is_empty() || nonce.is_empty() {
            return Err(
                AuthenticateError::new(
                    "the SCRAM client-first-message has an empty username or nonce",
                ),
            );
        }
        let mut gs2_header = flag.to_owned();
        gs2_header.push(',');
        gs2_header.append(authzid);
        gs2_header.push(',');
        assert(gs2_header@ =~= flag@.push(',') + authzid@.push(','));
        Ok(ClientFirst { gs2_header, bare: bare.to_owned(), username, nonce: nonce.to_owned() })
    }
}

/// The client-final-message.
#[derive(Clone, Debug, Eq, PartialEq)]
pub struct ClientFinal {
    /// The channel binding the client echoes: the GS2 header, decoded.
    pub binding: Vec<u8>,
    /// The client's nonce with the server's after it.
    pub nonce: String,
    /// The message up to and not including `,p=`.
    pub without_proof: String,
    /// The `ClientProof`, decoded.
    pub proof: Vec<u8>,
}

/// What a client-final-message holds.
#[verifier::ext_equal]
pub struct ClientFinalView {
    pub binding: Seq<u8>,
    pub nonce: Seq<char>,
    pub without_proof: Seq<char>,
    pub proof: Seq<u8>,
}

impl View for ClientFinal {
    type V = ClientFinalView;

    open spec fn view(&self) -> ClientFinalView {
        ClientFinalView {
            binding: self.binding@,
            nonce: self.nonce@,
            without_proof: self.without_proof@,
            proof: self.proof@,
        }
    }
}

/// The fields of a client-final-message as they were sent: the channel
/// binding and the proof are still base64.
#[derive(Clone, Copy, Debug)]
pub struct FinalFields<'a> {
    pub binding: &'a str,
    pub nonce: &'a str,
    pub without_proof: &'a str,
    pub proof: &'a str,
}

/// What the fields of a client-final-message hold.
#[verifier::ext_equal]
pub struct FinalFieldsView {
    pub binding: Seq<char>,
    pub nonce: Seq<char>,
    pub without_proof: Seq<char>,
    pub proof: Seq<char>,
}

impl View for FinalFields<'_> {
    type V = FinalFieldsView;

    open spec fn view(&self) -> FinalFieldsView {
        FinalFieldsView {
            binding: self.binding@,
            nonce: self.nonce@,
            without_proof: self.without_proof@,
            proof: self.proof@,
        }
    }
}

/// What stands between a client-final-message without proof and its proof.
pub open spec fn proof_mark() -> Seq<char> {
    seq![',', 'p', '=']
}

/// The fields of a client-final-message, or what is wrong with them.
pub open spec fn split_final(message: Seq<char>) -> Result<FinalFieldsView, Seq<char>> {
    match text::find_last(message, proof_mark()) {
        None => Err("the SCRAM client-final-message does not end with a proof"@),
        Some(at) => {
            let without_proof = message.take(at);
            match attribute_value(Some(text::before(without_proof, ',')), 'c') {
                None => Err(no_attribute('c', final_message())),
                Some(binding) => match attribute_value(second_field(without_proof), 'r') {
                    None => Err(no_attribute('r', final_message())),
                    Some(nonce) => Ok(
                        FinalFieldsView {
                            binding,
                            nonce,
                            without_proof,
                            proof: message.skip(at + 3),
                        },
                    ),
                },
            }
        },
    }
}

/// A client-final-message from its fields, given what the channel binding
/// and the proof are base64 of.
pub open spec fn decoded_final(
    fields: FinalFieldsView,
    binding: Option<Seq<u8>>,
    shown: Option<Seq<u8>>,
) -> Result<ClientFinalView, Seq<char>> {
    match binding {
        None => Err("the SCRAM channel binding is not base64"@),
        Some(binding) => match shown {
            None => Err("the SCRAM proof is not base64"@),
            Some(shown) => Ok(
                ClientFinalView {
                    binding,
                    nonce: fields.nonce,
                    without_proof: fields.without_proof,
                    proof: shown,
                },
            ),
        },
    }
}

/// What a client-final-message says, or what is wrong with it.
pub open spec fn read_final(message: Seq<char>) -> Result<ClientFinalView, Seq<char>> {
    match split_final(message) {
        Err(wrong) => Err(wrong),
        Ok(fields) => decoded_final(
            fields,
            crypto::base64_bytes(fields.binding),
            crypto::base64_bytes(fields.proof),
        ),
    }
}

/// Where the last `,p=` of a message stands.
fn find_proof(chars: &Vec<char>) -> (at: Option<usize>)
    ensures
        match at {
            Some(at) => text::find_last(chars@, proof_mark()) == Some(at as int) && at + 3
                <= chars@.len(),
            None => text::find_last(chars@, proof_mark()) is None,
        },
{
    let mut end: usize = chars.len();
    assert(chars@.take(end as int) =~= chars@);
    while end >= 3
        invariant
            end <= chars@.len(),
            text::find_last(chars@, proof_mark()) == text::find_last(
                chars@.take(end as int),
                proof_mark(),
            ),
        decreases end,
    {
        let ghost head = chars@.take(end as int);
        let ghost tail = head.skip(end - 3);
        if chars[end - 3] == ',' && chars[end - 2] == 'p' && chars[end - 1] == '=' {
            assert(tail =~= proof_mark());
            return Some(end - 3);
        }
        assert(tail != proof_mark()) by {
            assert(tail[0] == chars@[end - 3]);
            assert(tail[1] == chars@[end - 2]);
            assert(tail[2] == chars@[end - 1]);
        }
        assert(head.drop_last() =~= chars@.take(end - 1));
        end = end - 1;
    }
    None
}

impl ClientFinal {
    /// Split a client-final-message into its fields.
    ///
    /// # Errors
    ///
    /// An attribute is missing or out of order.
    pub fn split<'a>(message: &'a str) -> (split: Result<FinalFields<'a>, AuthenticateError>)
        ensures
            split matches Ok(fields) ==> split_final(message@) == Ok::<_, Seq<char>>(fields@),
            split matches Err(error) ==> split_final(message@) == Err::<FinalFieldsView, _>(
                error@,
            ),
    {
        let of = "client-final-message";
        let count: usize = message.unicode_len();
        let at = match find_proof(&chars_of(message)) {
            Some(at) => at,
            None => {
                return Err(
                    AuthenticateError::new(
                        "the SCRAM client-final-message does not end with a proof",
                    ),
                );
            },
        };
        let without_proof = message.substring_char(0, at);
        let proof = message.substring_char(at + 3, count);
        assert(without_proof@ =~= message@.take(at as int));
        assert(proof@ =~= message@.skip(at + 3));
        let (bound, others) = text::part(without_proof, ',');
        let binding = match attribute(Some(bound), 'c', of) {
            Ok(binding) => binding,
            Err(error) => return Err(error),
        };
        let second = match others {
            Some(others) => Some(text::part(others, ',').0),
            None => None,
        };
        let nonce = match attribute(second, 'r', of) {
            Ok(nonce) => nonce,
            Err(error) => return Err(error),
        };
        Ok(FinalFields { binding, nonce, without_proof, proof })
    }

    /// Put a client-final-message together from its fields, the channel
    /// binding decoded and `shown`, the proof decoded, where they could be.
    ///
    /// # Errors
    ///
    /// The channel binding or the proof could not be decoded.
    pub fn decoded(
        fields: FinalFields<'_>,
        binding: Option<Vec<u8>>,
        shown: Option<Vec<u8>>,
    ) -> (read: Result<Self, AuthenticateError>)
        ensures
            ({
                let said = decoded_final(
                    fields@,
                    crypto::bytes_in(binding),
                    crypto::bytes_in(shown),
                );
                &&& read matches Ok(last) ==> said == Ok::<_, Seq<char>>(last@)
                &&& read matches Err(error) ==> said == Err::<ClientFinalView, _>(error@)
            }),
    {
        let binding = match binding {
            Some(binding) => binding,
            None => {
                return Err(AuthenticateError::new("the SCRAM channel binding is not base64"));
            },
        };
        let shown = match shown {
            Some(shown) => shown,
            None => return Err(AuthenticateError::new("the SCRAM proof is not base64")),
        };
        Ok(
            ClientFinal {
                binding,
                nonce: fields.nonce.to_owned(),
                without_proof: fields.without_proof.to_owned(),
                proof: shown,
            },
        )
    }

    /// Read a client-final-message.
    ///
    /// # Errors
    ///
    /// An attribute is missing or out of order, or is not base64.
    pub fn parse(message: &str) -> (read: Result<Self, AuthenticateError>)
        ensures
            read matches Ok(last) ==> read_final(message@) == Ok::<_, Seq<char>>(last@),
            read matches Err(error) ==> read_final(message@) == Err::<ClientFinalView, _>(error@),
    {
        match Self::split(message) {
            Ok(fields) => Self::decoded(
                fields,
                crypto::base64_decode(fields.binding),
                crypto::base64_decode(fields.proof),
            ),
            Err(error) => Err(error),
        }
    }
}

} // verus!
