//! What every text that a client can send is read as, told from the pieces
//! that the text is put together from.

use crate::crypto;
use crate::laws;
use crate::message;
use crate::message::{ClientFinalView, ClientFirstView, FinalFieldsView};
use crate::text;
use vstd::prelude::*;

verus! {

/// A field, and a comma and more behind it where there is more.
pub open spec fn joined(field: Seq<char>, more: Option<Seq<char>>) -> Seq<char> {
    match more {
        Some(tail) => field + seq![','] + tail,
        None => field,
    }
}

/// Whether a field is the attribute `name`, an equals sign, and anything.
pub open spec fn opens(field: Seq<char>, name: char) -> bool {
    field.len() >= 2 && field[0] == name && field[1] == '='
}

/// The attribute `name` with that value.
pub open spec fn written(name: char, value: Seq<char>) -> Seq<char> {
    seq![name, '='] + value
}

/// A field that holds no comma is found again in front of what was joined to
/// it, and so is what was joined.
pub proof fn law_joined_text_parts_again(field: Seq<char>, more: Option<Seq<char>>)
    requires
        !field.contains(','),
    ensures
        text::before(joined(field, more), ',') == field,
        text::after(joined(field, more), ',') == more,
{
    match more {
        Some(tail) => {
            assert(field + seq![','] + tail =~= field.push(',') + tail);
            text::lemma_parted(field, ',', tail);
        },
        None => {
            text::lemma_unparted(field, ',');
        },
    }
}

/// An attribute holds a character where its value does.
proof fn lemma_written(name: char, value: Seq<char>)
    requires
        name != ',',
        !value.contains(','),
    ensures
        !written(name, value).contains(','),
        opens(written(name, value), name),
        written(name, value).skip(2) == value,
{
    let field = written(name, value);
    assert forall|i: int| 0 <= i < field.len() implies field[i] != ',' by {
        if i >= 2 {
            assert(field[i] == value[i - 2]);
        }
    }
    assert(field.skip(2) =~= value);
}

/// Escaping goes character by character: a comma is written `=2C`, an equals
/// sign `=3D`, and any other character as it is.
pub proof fn law_escaping_goes_by_character(a: Seq<char>, b: Seq<char>, c: char)
    ensures
        message::escaped(a + b) == message::escaped(a) + message::escaped(b),
        message::escaped(seq![]) == Seq::<char>::empty(),
        message::escaped(seq![',']) == seq!['=', '2', 'C'],
        message::escaped(seq!['=']) == seq!['=', '3', 'D'],
        c != ',' && c != '=' ==> message::escaped(seq![c]) == seq![c],
    decreases a.len(),
{
    let nothing = Seq::<char>::empty();
    assert(message::escaped(nothing) =~= nothing);
    assert(seq![','].skip(1) =~= nothing);
    assert(seq!['='].skip(1) =~= nothing);
    assert(seq![c].skip(1) =~= nothing);
    assert(message::escaped(seq![',']) =~= seq!['=', '2', 'C']);
    assert(message::escaped(seq!['=']) =~= seq!['=', '3', 'D']);
    if a.len() == 0 {
        assert(a + b =~= b);
        assert(message::escaped(a) + message::escaped(b) =~= message::escaped(b));
    } else {
        law_escaping_goes_by_character(a.skip(1), b, c);
        assert((a + b).skip(1) =~= a.skip(1) + b);
        assert((a + b)[0] == a[0]);
        assert(message::escaped(a + b) =~= message::escaped(a) + message::escaped(b));
    }
}

/// What an escaped text stands for is told from its head: `=2C` stands for a
/// comma, `=3D` for an equals sign, any other `=` for nothing at all, and any
/// other character for itself.
pub proof fn law_unescaping_goes_from_the_head(c: char, s: Seq<char>)
    ensures
        message::unescaped(seq![]) == Some(Seq::<char>::empty()),
        c != '=' ==> match message::unescaped(s) {
            Some(name) => message::unescaped(seq![c] + s) == Some(seq![c] + name),
            None => message::unescaped(seq![c] + s) is None,
        },
        match message::unescaped(s) {
            Some(name) => message::unescaped(seq!['=', '2', 'C'] + s) == Some(seq![','] + name)
                && message::unescaped(seq!['=', '3', 'D'] + s) == Some(seq!['='] + name),
            None => message::unescaped(seq!['=', '2', 'C'] + s) is None && message::unescaped(
                seq!['=', '3', 'D'] + s,
            ) is None,
        },
        !(s.len() >= 2 && s[0] == '2' && s[1] == 'C') && !(s.len() >= 2 && s[0] == '3' && s[1]
            == 'D') ==> message::unescaped(seq!['='] + s) is None,
{
    assert((seq![c] + s).skip(1) =~= s);
    assert((seq!['=', '2', 'C'] + s).skip(3) =~= s);
    assert((seq!['=', '3', 'D'] + s).skip(3) =~= s);
    let wrong = seq!['='] + s;
    assert(wrong.len() >= 3 ==> wrong[1] == s[0] && wrong[2] == s[1]);
}

/// What is said of a missing attribute, written out.
proof fn lemma_no_attribute()
    ensures
        message::no_attribute('n', message::first_message())
            == "the SCRAM client-first-message has no 'n=' here"@,
        message::no_attribute('r', message::first_message())
            == "the SCRAM client-first-message has no 'r=' here"@,
        message::no_attribute('c', message::final_message())
            == "the SCRAM client-final-message has no 'c=' here"@,
        message::no_attribute('r', message::final_message())
            == "the SCRAM client-final-message has no 'r=' here"@,
{
    reveal_strlit("the SCRAM ");
    reveal_strlit(" has no '");
    reveal_strlit("=' here");
    reveal_strlit("client-first-message");
    reveal_strlit("client-final-message");
    reveal_strlit("the SCRAM client-first-message has no 'n=' here");
    reveal_strlit("the SCRAM client-first-message has no 'r=' here");
    reveal_strlit("the SCRAM client-final-message has no 'c=' here");
    reveal_strlit("the SCRAM client-final-message has no 'r=' here");
    assert(message::no_attribute('n', message::first_message())
        =~= "the SCRAM client-first-message has no 'n=' here"@);
    assert(message::no_attribute('r', message::first_message())
        =~= "the SCRAM client-first-message has no 'r=' here"@);
    assert(message::no_attribute('c', message::final_message())
        =~= "the SCRAM client-final-message has no 'c=' here"@);
    assert(message::no_attribute('r', message::final_message())
        =~= "the SCRAM client-final-message has no 'r=' here"@);
}

/// A first message whose first field is neither `n`, nor `y`, nor opens with
/// `p=`, is refused saying so.
pub proof fn law_flagless_first_is_refused(flag: Seq<char>, more: Option<Seq<char>>)
    requires
        !flag.contains(','),
        flag != seq!['n'],
        flag != seq!['y'],
        !opens(flag, 'p'),
    ensures
        message::read_first(joined(flag, more)) == Err::<ClientFirstView, _>(
            "the SCRAM client-first-message does not open with a channel-binding flag"@,
        ),
{
    law_joined_text_parts_again(flag, more);
}

/// A first message that opens with `p=` is refused saying that channel
/// binding is not offered, whatever follows.
pub proof fn law_binding_first_is_refused(value: Seq<char>)
    ensures
        message::read_first(written('p', value)) == Err::<ClientFirstView, _>(
            "the SCRAM client requires channel binding and this node offers none"@,
        ),
{
    laws::law_channel_binding_is_refused(written('p', value));
}

/// A first message with the flag `n` or `y` and fewer than two commas is
/// refused saying that it has no header.
pub proof fn law_headless_first_is_refused(flag: char, more: Option<Seq<char>>)
    requires
        flag == 'n' || flag == 'y',
        more matches Some(rest) ==> !rest.contains(','),
    ensures
        message::read_first(joined(seq![flag], more)) == Err::<ClientFirstView, _>(
            "the SCRAM client-first-message has no GS2 header"@,
        ),
{
    law_joined_text_parts_again(seq![flag], more);
    if let Some(rest) = more {
        text::lemma_unparted(rest, ',');
    }
    assert(seq![flag] == seq!['n'] || seq![flag] == seq!['y']);
}

/// Behind a header, the bare part is read.
proof fn lemma_bare_is_read(flag: char, authzid: Seq<char>, bare: Seq<char>)
    requires
        flag == 'n' || flag == 'y',
        !authzid.contains(','),
    ensures
        message::read_first(laws::written_header(flag, authzid) + bare) == message::read_bare(
            laws::written_header(flag, authzid),
            bare,
        ),
{
    let whole = laws::written_header(flag, authzid) + bare;
    let rest = authzid.push(',') + bare;
    assert(whole =~= seq![flag].push(',') + rest);
    text::lemma_parted(seq![flag], ',', rest);
    text::lemma_parted(authzid, ',', bare);
    assert(seq![flag] == seq!['n'] || seq![flag] == seq!['y']);
    assert(seq![flag].push(',') + authzid.push(',') =~= laws::written_header(flag, authzid));
}

/// A first message whose bare part opens with `m=` is refused saying that an
/// extension is mandatory, whatever follows.
pub proof fn law_extending_first_is_refused(flag: char, authzid: Seq<char>, value: Seq<char>)
    requires
        flag == 'n' || flag == 'y',
        !authzid.contains(','),
    ensures
        message::read_first(laws::written_header(flag, authzid) + written('m', value)) == Err::<
            ClientFirstView,
            _,
        >("the SCRAM client makes an extension mandatory and this node reads none"@),
{
    laws::law_mandatory_extension_is_refused(flag, authzid, written('m', value));
}

/// A first message whose bare part opens with neither `m=` nor `n=` is refused
/// saying that there is no name.
pub proof fn law_nameless_first_is_refused(
    flag: char,
    authzid: Seq<char>,
    field: Seq<char>,
    more: Option<Seq<char>>,
)
    requires
        flag == 'n' || flag == 'y',
        !authzid.contains(','),
        !field.contains(','),
        !opens(field, 'm'),
        !opens(field, 'n'),
    ensures
        message::read_first(laws::written_header(flag, authzid) + joined(field, more)) == Err::<
            ClientFirstView,
            _,
        >("the SCRAM client-first-message has no 'n=' here"@),
{
    let bare = joined(field, more);
    lemma_bare_is_read(flag, authzid, bare);
    law_joined_text_parts_again(field, more);
    lemma_no_attribute();
    assert(!message::names(bare, 'm')) by {
        if message::names(bare, 'm') {
            assert(field.len() == 0 ==> bare[0] == ',');
            assert(field.len() == 1 ==> bare[1] == ',');
            assert(field.len() >= 2 ==> bare[0] == field[0] && bare[1] == field[1]);
        }
    }
}

/// A first message whose name is not the escaped form of any text is refused
/// saying so.
pub proof fn law_misescaped_name_is_refused(
    flag: char,
    authzid: Seq<char>,
    name: Seq<char>,
    more: Option<Seq<char>>,
)
    requires
        flag == 'n' || flag == 'y',
        !authzid.contains(','),
        !name.contains(','),
        forall|username: Seq<char>| #[trigger] message::escaped(username) != name,
    ensures
        message::read_first(laws::written_header(flag, authzid) + joined(written('n', name), more))
            == Err::<ClientFirstView, _>("the SCRAM username has an '=' that escapes nothing"@),
{
    let bare = joined(written('n', name), more);
    lemma_bare_is_read(flag, authzid, bare);
    lemma_written('n', name);
    law_joined_text_parts_again(written('n', name), more);
    if message::unescaped(name) is Some {
        laws::law_read_name_escapes_back(name);
    }
    assert(bare[0] == 'n');
}

/// The name in a bare part is read, and the field behind it is next.
proof fn lemma_name_is_read(username: Seq<char>, more: Option<Seq<char>>)
    ensures
        ({
            let bare = joined(written('n', message::escaped(username)), more);
            &&& !message::names(bare, 'm')
            &&& message::attribute_value(Some(text::before(bare, ',')), 'n') == Some(
                message::escaped(username),
            )
            &&& message::unescaped(message::escaped(username)) == Some(username)
            &&& text::after(bare, ',') == more
        }),
{
    let bare = joined(written('n', message::escaped(username)), more);
    laws::law_escaped_name_reads_back(username);
    lemma_written('n', message::escaped(username));
    law_joined_text_parts_again(written('n', message::escaped(username)), more);
    assert(bare[0] == 'n');
}

/// A first message whose bare part ends behind the name, or goes on with
/// something else than `r=`, is refused saying that there is no nonce.
pub proof fn law_nonceless_first_is_refused(
    flag: char,
    authzid: Seq<char>,
    username: Seq<char>,
    second: Option<Seq<char>>,
    more: Option<Seq<char>>,
)
    requires
        flag == 'n' || flag == 'y',
        !authzid.contains(','),
        second matches Some(field) ==> !field.contains(',') && !opens(field, 'r'),
    ensures
        ({
            let rest = match second {
                Some(field) => Some(joined(field, more)),
                None => None,
            };
            message::read_first(
                laws::written_header(flag, authzid) + joined(
                    written('n', message::escaped(username)),
                    rest,
                ),
            ) == Err::<ClientFirstView, _>("the SCRAM client-first-message has no 'r=' here"@)
        }),
{
    let rest = match second {
        Some(field) => Some(joined(field, more)),
        None => None,
    };
    let bare = joined(written('n', message::escaped(username)), rest);
    lemma_bare_is_read(flag, authzid, bare);
    lemma_name_is_read(username, rest);
    lemma_no_attribute();
    if let Some(field) = second {
        law_joined_text_parts_again(field, more);
    }
}

/// A first message is read in full: behind the header `n` or `y` and anything
/// without a comma, the name and the nonce are what stands behind `n=`, with
/// its escapes undone, and behind `r=`; a message where either is empty is
/// refused saying so, and what follows the nonce is passed over.
pub proof fn law_first_is_read_in_full(
    flag: char,
    authzid: Seq<char>,
    username: Seq<char>,
    nonce: Seq<char>,
    more: Option<Seq<char>>,
)
    requires
        flag == 'n' || flag == 'y',
        !authzid.contains(','),
        !nonce.contains(','),
    ensures
        ({
            let gs2_header = seq![flag, ','] + authzid + seq![','];
            let bare = joined(
                written('n', message::escaped(username)),
                Some(joined(written('r', nonce), more)),
            );
            message::read_first(gs2_header + bare) == if username.len() == 0 || nonce.len() == 0 {
                Err::<ClientFirstView, _>(
                    "the SCRAM client-first-message has an empty username or nonce"@,
                )
            } else {
                Ok(ClientFirstView { gs2_header, bare, username, nonce })
            }
        }),
{
    let rest = joined(written('r', nonce), more);
    let bare = joined(written('n', message::escaped(username)), Some(rest));
    lemma_bare_is_read(flag, authzid, bare);
    lemma_name_is_read(username, Some(rest));
    lemma_written('r', nonce);
    law_joined_text_parts_again(written('r', nonce), more);
}

/// Every text is a first message of one of these shapes: its first field is
/// no flag, or it has no header, or it is a header with a bare part.
pub proof fn law_first_has_one_of_three_shapes(sent: Seq<char>)
    ensures
        ({
            ||| exists|flag: Seq<char>, more: Option<Seq<char>>|
                !flag.contains(',') && flag != seq!['n'] && flag != seq!['y'] && sent
                    == #[trigger] joined(flag, more)
            ||| exists|flag: char, more: Option<Seq<char>>|
                (flag == 'n' || flag == 'y') && (more matches Some(rest) ==> !rest.contains(','))
                    && sent == #[trigger] joined(seq![flag], more)
            ||| exists|flag: char, authzid: Seq<char>, bare: Seq<char>|
                (flag == 'n' || flag == 'y') && !authzid.contains(',') && sent
                    == #[trigger] (laws::written_header(flag, authzid) + bare)
        }),
{
    let flag = text::before(sent, ',');
    let more = text::after(sent, ',');
    text::lemma_rejoined(sent, ',');
    if let Some(tail) = more {
        assert(flag.push(',') + tail =~= flag + seq![','] + tail);
    }
    assert(sent == joined(flag, more));
    if flag == seq!['n'] || flag == seq!['y'] {
        assert(flag == seq![flag[0]]);
        if let Some(rest) = more {
            text::lemma_rejoined(rest, ',');
            let authzid = text::before(rest, ',');
            if let Some(bare) = text::after(rest, ',') {
                assert(sent =~= laws::written_header(flag[0], authzid) + bare);
            } else {
                assert(sent == joined(seq![flag[0]], more));
            }
        }
    }
}

/// Whether the three characters `,p=` stand at `at`.
pub open spec fn proof_at(s: Seq<char>, at: int) -> bool {
    0 <= at && at + 2 < s.len() && s[at] == ',' && s[at + 1] == 'p' && s[at + 2] == '='
}

/// Whether the three characters `,p=` stand nowhere in a text.
pub open spec fn no_proof_in(s: Seq<char>) -> bool {
    forall|at: int| !#[trigger] proof_at(s, at)
}

/// Where `,p=` does not stand, character by character, it does not stand.
proof fn lemma_no_proof_in(s: Seq<char>)
    requires
        no_proof_in(s),
    ensures
        forall|at: int| !#[trigger] text::stands(s, message::proof_mark(), at),
{
    let mark = message::proof_mark();
    assert forall|at: int| !#[trigger] text::stands(s, mark, at) by {
        if text::stands(s, mark, at) {
            let found = s.subrange(at, at + 3);
            assert(found[0] == s[at] && found[1] == s[at + 1] && found[2] == s[at + 2]);
            assert(proof_at(s, at));
        }
    }
}

/// Behind the `,p=` in front of a text that holds none there is no other.
proof fn lemma_none_behind(without_proof: Seq<char>, shown: Seq<char>, at: int)
    requires
        no_proof_in(shown),
        at > without_proof.len(),
    ensures
        !text::stands(without_proof + message::proof_mark() + shown, message::proof_mark(), at),
{
    let mark = message::proof_mark();
    let whole = without_proof + mark + shown;
    let here = without_proof.len() as int;
    if text::stands(whole, mark, at) {
        let found = whole.subrange(at, at + 3);
        assert(found[0] == ',' && found[1] == 'p' && found[2] == '=');
        assert(whole[at] == ',' && whole[at + 1] == 'p' && whole[at + 2] == '=');
        if at == here + 1 {
            assert(whole[at] == mark[1]);
        } else if at == here + 2 {
            assert(whole[at] == mark[2]);
        } else {
            assert(proof_at(shown, at - here - 3));
        }
    }
}

/// The last `,p=` of a message is the one that no other stands behind.
pub proof fn law_last_proof_is_found(without_proof: Seq<char>, shown: Seq<char>)
    requires
        no_proof_in(shown),
    ensures
        text::find_last(without_proof + seq![',', 'p', '='] + shown, seq![',', 'p', '=']) == Some(
            without_proof.len() as int,
        ),
{
    let mark = message::proof_mark();
    let whole = without_proof + mark + shown;
    let here = without_proof.len() as int;
    assert(text::stands(whole, mark, here)) by {
        assert(whole.subrange(here, here + mark.len()) =~= mark);
    }
    assert forall|later: int| here < later implies !#[trigger] text::stands(whole, mark, later) by {
        lemma_none_behind(without_proof, shown, later);
    }
    text::lemma_last_is(whole, mark, here);
}

/// A final message in which `,p=` stands nowhere is refused saying so.
pub proof fn law_proofless_final_is_refused(sent: Seq<char>)
    requires
        no_proof_in(sent),
    ensures
        message::split_final(sent) == Err::<FinalFieldsView, _>(
            "the SCRAM client-final-message does not end with a proof"@,
        ),
        message::read_final(sent) == Err::<ClientFinalView, _>(
            "the SCRAM client-final-message does not end with a proof"@,
        ),
{
    lemma_no_proof_in(sent);
    text::lemma_find_last(sent, message::proof_mark());
}

/// A message falls apart at its last `,p=`.
proof fn lemma_final_parts(without_proof: Seq<char>, shown: Seq<char>)
    requires
        no_proof_in(shown),
    ensures
        ({
            let sent = without_proof + seq![',', 'p', '='] + shown;
            let at = text::find_last(sent, message::proof_mark());
            &&& at == Some(without_proof.len() as int)
            &&& sent.take(without_proof.len() as int) == without_proof
            &&& sent.skip(without_proof.len() as int + 3) == shown
        }),
{
    let sent = without_proof + seq![',', 'p', '='] + shown;
    law_last_proof_is_found(without_proof, shown);
    assert(sent.take(without_proof.len() as int) =~= without_proof);
    assert(sent.skip(without_proof.len() as int + 3) =~= shown);
}

/// A final message that does not open with `c=` is refused saying so.
pub proof fn law_bindingless_final_is_refused(
    field: Seq<char>,
    more: Option<Seq<char>>,
    shown: Seq<char>,
)
    requires
        !field.contains(','),
        !opens(field, 'c'),
        no_proof_in(shown),
    ensures
        ({
            let sent = joined(field, more) + seq![',', 'p', '='] + shown;
            &&& message::split_final(sent) == Err::<FinalFieldsView, _>(
                "the SCRAM client-final-message has no 'c=' here"@,
            )
            &&& message::read_final(sent) == Err::<ClientFinalView, _>(
                "the SCRAM client-final-message has no 'c=' here"@,
            )
        }),
{
    lemma_final_parts(joined(field, more), shown);
    law_joined_text_parts_again(field, more);
    lemma_no_attribute();
}

/// A final message that ends behind the channel binding, or goes on with
/// something else than `r=`, is refused saying so.
pub proof fn law_nonceless_final_is_refused(
    binding: Seq<char>,
    second: Option<Seq<char>>,
    more: Option<Seq<char>>,
    shown: Seq<char>,
)
    requires
        !binding.contains(','),
        second matches Some(field) ==> !field.contains(',') && !opens(field, 'r'),
        no_proof_in(shown),
    ensures
        ({
            let rest = match second {
                Some(field) => Some(joined(field, more)),
                None => None,
            };
            let sent = joined(written('c', binding), rest) + seq![',', 'p', '='] + shown;
            &&& message::split_final(sent) == Err::<FinalFieldsView, _>(
                "the SCRAM client-final-message has no 'r=' here"@,
            )
            &&& message::read_final(sent) == Err::<ClientFinalView, _>(
                "the SCRAM client-final-message has no 'r=' here"@,
            )
        }),
{
    let rest = match second {
        Some(field) => Some(joined(field, more)),
        None => None,
    };
    let without_proof = joined(written('c', binding), rest);
    lemma_final_parts(without_proof, shown);
    lemma_written('c', binding);
    law_joined_text_parts_again(written('c', binding), rest);
    lemma_no_attribute();
    if let Some(field) = second {
        law_joined_text_parts_again(field, more);
    }
}

/// A final message is read in full: the channel binding and the nonce are
/// what stands behind `c=` and `r=`, the proof is what stands behind the last
/// `,p=`, and all in front of that is what the proof was computed over. Where
/// the channel binding is not base64 that is said, where only the proof is
/// not that is said, and otherwise both are decoded.
pub proof fn law_final_is_read_in_full(
    binding: Seq<char>,
    nonce: Seq<char>,
    more: Option<Seq<char>>,
    shown: Seq<char>,
)
    requires
        !binding.contains(','),
        !nonce.contains(','),
        no_proof_in(shown),
    ensures
        ({
            let without_proof = joined(
                written('c', binding),
                Some(joined(written('r', nonce), more)),
            );
            let sent = without_proof + seq![',', 'p', '='] + shown;
            &&& message::split_final(sent) == Ok::<_, Seq<char>>(
                FinalFieldsView { binding, nonce, without_proof, proof: shown },
            )
            &&& message::read_final(sent) == match (
                crypto::base64_bytes(binding),
                crypto::base64_bytes(shown),
            ) {
                (None, _) => Err::<ClientFinalView, _>(
                    "the SCRAM channel binding is not base64"@,
                ),
                (Some(_), None) => Err("the SCRAM proof is not base64"@),
                (Some(header), Some(proof_bytes)) => Ok(
                    ClientFinalView { binding: header, nonce, without_proof, proof: proof_bytes },
                ),
            }
        }),
{
    let rest = joined(written('r', nonce), more);
    let without_proof = joined(written('c', binding), Some(rest));
    lemma_final_parts(without_proof, shown);
    lemma_written('c', binding);
    lemma_written('r', nonce);
    law_joined_text_parts_again(written('c', binding), Some(rest));
    law_joined_text_parts_again(written('r', nonce), more);
}

/// The fields of a final message are put together with the bytes that they
/// were found to stand for, and where either stands for none that is said,
/// the channel binding first.
pub proof fn law_decoded_fields_are_put_together(
    fields: FinalFieldsView,
    binding: Seq<u8>,
    shown: Seq<u8>,
)
    ensures
        message::decoded_final(fields, Some(binding), Some(shown)) == Ok::<_, Seq<char>>(
            ClientFinalView {
                binding,
                nonce: fields.nonce,
                without_proof: fields.without_proof,
                proof: shown,
            },
        ),
        forall|any: Option<Seq<u8>>| #[trigger]
            message::decoded_final(fields, None, any) == Err::<ClientFinalView, _>(
                "the SCRAM channel binding is not base64"@,
            ),
        message::decoded_final(fields, Some(binding), None) == Err::<ClientFinalView, _>(
            "the SCRAM proof is not base64"@,
        ),
{
}

} // verus!
