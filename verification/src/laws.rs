//! What holds of the library as a whole.

use crate::authenticator;
use crate::authenticator::ScramView;
use crate::claim::{PresentedView, Verified};
use crate::crypto;
use crate::crypto::KEY_LENGTH;
use crate::exchange;
use crate::message;
use crate::message::{ClientFinalView, ClientFirstView, FinalFieldsView};
use crate::protocol;
use crate::table::MOST_OPEN;
use crate::text;
use vstd::prelude::*;

verus! {

/// Every name is read back from its escaped form, which holds no comma.
pub proof fn law_escaped_name_reads_back(name: Seq<char>)
    ensures
        message::unescaped(message::escaped(name)) == Some(name),
        !message::escaped(name).contains(','),
    decreases name.len(),
{
    let whole = message::escaped(name);
    if name.len() > 0 {
        let rest = message::escaped(name.skip(1));
        law_escaped_name_reads_back(name.skip(1));
        assert(seq![name[0]] + name.skip(1) =~= name);
        if name[0] == ',' || name[0] == '=' {
            assert(whole.skip(3) =~= rest);
        } else {
            assert(whole.skip(1) =~= rest);
        }
        assert forall|i: int| 0 <= i < whole.len() implies whole[i] != ',' by {
            let head = whole.len() - rest.len();
            if i >= head {
                assert(whole[i] == rest[i - head]);
            }
        }
    }
}

/// No two escaped forms stand for the same name: one that holds no comma and
/// can be read is the escaped form of what it is read as.
pub proof fn law_read_name_escapes_back(s: Seq<char>)
    requires
        !s.contains(','),
        message::unescaped(s) is Some,
    ensures
        message::escaped(message::unescaped(s)->0) == s,
    decreases s.len(),
{
    if s.len() > 0 {
        let name = message::unescaped(s)->0;
        let took: int = if s[0] != '=' {
            1
        } else {
            3
        };
        let rest = s.skip(took);
        assert forall|i: int| 0 <= i < rest.len() implies rest[i] != ',' by {
            assert(s[i + took] == rest[i]);
        }
        assert(s[0] != ',');
        law_read_name_escapes_back(rest);
        let tail = message::unescaped(rest)->0;
        assert(name.skip(1) =~= tail);
        if took == 1 {
            assert(s =~= seq![s[0]] + rest);
        } else {
            assert(s =~= seq!['=', s[1], s[2]] + rest);
        }
    }
}

/// The bare part of a client-first-message: a name, a nonce, and extensions
/// that are empty or open with a comma.
pub open spec fn written_bare(
    username: Seq<char>,
    nonce: Seq<char>,
    extensions: Seq<char>,
) -> Seq<char> {
    seq!['n', '='] + message::escaped(username) + seq![',', 'r', '='] + nonce + extensions
}

/// The GS2 header of a client-first-message.
pub open spec fn written_header(flag: char, authzid: Seq<char>) -> Seq<char> {
    seq![flag, ','] + authzid + seq![',']
}

/// A bare part that can be read is written from what it is read as.
proof fn lemma_read_bare(gs2_header: Seq<char>, bare: Seq<char>)
    requires
        message::read_bare(gs2_header, bare) is Ok,
    ensures
        ({
            let first = message::read_bare(gs2_header, bare)->Ok_0;
            &&& !first.nonce.contains(',')
            &&& exists|extensions: Seq<char>|
                {
                    &&& extensions.len() == 0 || extensions[0] == ','
                    &&& bare == #[trigger] written_bare(first.username, first.nonce, extensions)
                }
        }),
{
    let first = message::read_bare(gs2_header, bare)->Ok_0;
    let named = text::before(bare, ',');
    let name = named.skip(2);
    let others = text::after(bare, ',')->0;
    let second = text::before(others, ',');
    text::lemma_rejoined(bare, ',');
    lemma_tail_has_no(named, ',');
    law_read_name_escapes_back(name);
    lemma_first_field(others);
    let extensions = others.skip(second.len() as int);
    assert(named =~= seq!['n', '='] + message::escaped(first.username));
    assert(second =~= seq!['r', '='] + first.nonce);
    lemma_tail_has_no(second, ',');
    assert(bare =~= written_bare(first.username, first.nonce, extensions));
}

/// What `s` does not hold, `s` without its first two characters does not
/// hold.
proof fn lemma_tail_has_no(s: Seq<char>, c: char)
    requires
        s.len() >= 2,
        !s.contains(c),
    ensures
        !s.skip(2).contains(c),
{
    let tail = s.skip(2);
    assert forall|i: int| 0 <= i < tail.len() implies tail[i] != c by {
        assert(s.contains(s[i + 2]));
    }
}

/// A text is its first field and something that is empty or opens with a
/// comma.
proof fn lemma_first_field(s: Seq<char>)
    ensures
        ({
            let field = text::before(s, ',');
            let extensions = s.skip(field.len() as int);
            &&& !field.contains(',')
            &&& s == field + extensions
            &&& extensions.len() == 0 || extensions[0] == ','
        }),
{
    text::lemma_rejoined(s, ',');
    text::lemma_find(s, ',');
    let field = text::before(s, ',');
    assert(s =~= field + s.skip(field.len() as int));
}

/// What the bare part of a client-first-message was written from is what it
/// is read as.
proof fn lemma_bare_reads_back(
    gs2_header: Seq<char>,
    username: Seq<char>,
    nonce: Seq<char>,
    extensions: Seq<char>,
)
    requires
        username.len() > 0,
        nonce.len() > 0,
        !nonce.contains(','),
        extensions.len() == 0 || extensions[0] == ',',
    ensures
        ({
            let bare = written_bare(username, nonce, extensions);
            message::read_bare(gs2_header, bare) == Ok::<_, Seq<char>>(
                ClientFirstView { gs2_header, bare, username, nonce },
            )
        }),
{
    let bare = written_bare(username, nonce, extensions);
    let named = seq!['n', '='] + message::escaped(username);
    let others = seq!['r', '='] + nonce + extensions;
    law_escaped_name_reads_back(username);
    assert forall|i: int| 0 <= i < named.len() implies named[i] != ',' by {
        if i >= 2 {
            assert(named[i] == message::escaped(username)[i - 2]);
        }
    }
    assert(bare =~= named.push(',') + others);
    text::lemma_parted(named, ',', others);
    assert(named.skip(2) =~= message::escaped(username));
    let second = seq!['r', '='] + nonce;
    assert forall|i: int| 0 <= i < second.len() implies second[i] != ',' by {
        if i >= 2 {
            assert(second[i] == nonce[i - 2]);
        }
    }
    if extensions.len() == 0 {
        assert(others =~= second);
        text::lemma_unparted(second, ',');
    } else {
        assert(others =~= second.push(',') + extensions.skip(1));
        text::lemma_parted(second, ',', extensions.skip(1));
    }
    assert(second.skip(2) =~= nonce);
    assert(!message::names(bare, 'm')) by {
        assert(bare[0] == 'n');
    }
}

/// What a client-first-message was written from is what it is read as.
pub proof fn law_written_first_reads_back(
    flag: char,
    authzid: Seq<char>,
    username: Seq<char>,
    nonce: Seq<char>,
    extensions: Seq<char>,
)
    requires
        flag == 'n' || flag == 'y',
        !authzid.contains(','),
        username.len() > 0,
        nonce.len() > 0,
        !nonce.contains(','),
        extensions.len() == 0 || extensions[0] == ',',
    ensures
        ({
            let gs2_header = written_header(flag, authzid);
            let bare = written_bare(username, nonce, extensions);
            message::read_first(gs2_header + bare) == Ok::<_, Seq<char>>(
                ClientFirstView { gs2_header, bare, username, nonce },
            )
        }),
{
    let gs2_header = written_header(flag, authzid);
    let bare = written_bare(username, nonce, extensions);
    let whole = gs2_header + bare;
    let rest = authzid.push(',') + bare;
    assert(whole =~= seq![flag].push(',') + rest);
    text::lemma_parted(seq![flag], ',', rest);
    text::lemma_parted(authzid, ',', bare);
    assert(seq![flag].push(',') + authzid.push(',') =~= gs2_header);
    lemma_bare_reads_back(gs2_header, username, nonce, extensions);
    assert(seq![flag] == seq!['n'] || seq![flag] == seq!['y']);
}

/// A client-first-message that can be read falls apart into a header and a
/// bare part.
proof fn lemma_read_header(sent: Seq<char>) -> (parts: (char, Seq<char>, Seq<char>))
    requires
        message::read_first(sent) is Ok,
    ensures
        ({
            let (flag, authzid, bare) = parts;
            let header = written_header(flag, authzid);
            &&& flag == 'n' || flag == 'y'
            &&& !authzid.contains(',')
            &&& sent == header + bare
            &&& message::read_first(sent) == message::read_bare(header, bare)
        }),
{
    let flag = text::before(sent, ',');
    let rest = text::after(sent, ',')->0;
    let authzid = text::before(rest, ',');
    let bare = text::after(rest, ',')->0;
    text::lemma_rejoined(sent, ',');
    text::lemma_rejoined(rest, ',');
    assert(flag.push(',') + authzid.push(',') =~= written_header(flag[0], authzid));
    assert(sent =~= written_header(flag[0], authzid) + bare);
    (flag[0], authzid, bare)
}

/// A client-first-message that can be read is its header with its bare part
/// behind it. The header is `n` or `y`, a comma, what stands there for an
/// authorization identity, and a comma, and holds no other; the bare part is
/// written from the name and the nonce, neither of them empty, and from
/// extensions. There is no comma in the nonce.
pub proof fn law_read_first_is_the_message(sent: Seq<char>)
    requires
        message::read_first(sent) is Ok,
    ensures
        ({
            let first = message::read_first(sent)->Ok_0;
            &&& sent == first.gs2_header + first.bare
            &&& first.username.len() > 0
            &&& first.nonce.len() > 0
            &&& !first.nonce.contains(',')
            &&& exists|flag: char, authzid: Seq<char>|
                {
                    &&& flag == 'n' || flag == 'y'
                    &&& !authzid.contains(',')
                    &&& first.gs2_header == #[trigger] written_header(flag, authzid)
                }
            &&& exists|extensions: Seq<char>|
                {
                    &&& extensions.len() == 0 || extensions[0] == ','
                    &&& first.bare == #[trigger] written_bare(
                        first.username,
                        first.nonce,
                        extensions,
                    )
                }
        }),
{
    let (flag, authzid, bare) = lemma_read_header(sent);
    lemma_read_bare(written_header(flag, authzid), bare);
}

/// A client that requires channel binding is refused saying so, whatever
/// else it sends.
pub proof fn law_channel_binding_is_refused(sent: Seq<char>)
    requires
        sent.len() >= 2,
        sent[0] == 'p',
        sent[1] == '=',
    ensures
        message::read_first(sent) == Err::<ClientFirstView, _>(
            "the SCRAM client requires channel binding and this node offers none"@,
        ),
{
    text::lemma_find(sent, ',');
    let at = text::find(sent, ',');
    let flag = text::before(sent, ',');
    assert(at >= 2) by {
        if at < 2 {
            assert(sent[at as int] == ',');
        }
    }
    assert(flag[0] == 'p' && flag[1] == '=');
}

/// A client that makes an extension mandatory is refused saying so, whatever
/// else it sends behind the header.
pub proof fn law_mandatory_extension_is_refused(flag: char, authzid: Seq<char>, bare: Seq<char>)
    requires
        flag == 'n' || flag == 'y',
        !authzid.contains(','),
        bare.len() >= 2,
        bare[0] == 'm',
        bare[1] == '=',
    ensures
        message::read_first(written_header(flag, authzid) + bare) == Err::<
            ClientFirstView,
            _,
        >("the SCRAM client makes an extension mandatory and this node reads none"@),
{
    let whole = written_header(flag, authzid) + bare;
    let rest = authzid.push(',') + bare;
    assert(whole =~= seq![flag].push(',') + rest);
    text::lemma_parted(seq![flag], ',', rest);
    text::lemma_parted(authzid, ',', bare);
    assert(seq![flag] == seq!['n'] || seq![flag] == seq!['y']);
}

/// A client-final-message without its proof: a channel binding, a nonce, and
/// extensions that are empty or open with a comma.
pub open spec fn written_final(
    binding: Seq<char>,
    nonce: Seq<char>,
    extensions: Seq<char>,
) -> Seq<char> {
    seq!['c', '='] + binding + seq![',', 'r', '='] + nonce + extensions
}

/// What a client-final-message was written from is what it is split into.
pub proof fn law_written_final_splits_back(
    binding: Seq<char>,
    nonce: Seq<char>,
    extensions: Seq<char>,
    shown: Seq<char>,
)
    requires
        !binding.contains(','),
        !nonce.contains(','),
        extensions.len() == 0 || extensions[0] == ',',
        !shown.contains(','),
    ensures
        ({
            let without_proof = written_final(binding, nonce, extensions);
            message::split_final(without_proof + message::proof_mark() + shown) == Ok::<
                _,
                Seq<char>,
            >(FinalFieldsView { binding, nonce, without_proof, proof: shown })
        }),
{
    let without_proof = written_final(binding, nonce, extensions);
    let mark = message::proof_mark();
    let whole = without_proof + mark + shown;
    text::lemma_find_last_is(without_proof, mark, shown);
    assert(whole.take(without_proof.len() as int) =~= without_proof);
    assert(whole.skip(without_proof.len() as int + 3) =~= shown);
    let bound = seq!['c', '='] + binding;
    let others = seq!['r', '='] + nonce + extensions;
    assert forall|i: int| 0 <= i < bound.len() implies bound[i] != ',' by {
        if i >= 2 {
            assert(bound[i] == binding[i - 2]);
        }
    }
    assert(without_proof =~= bound.push(',') + others);
    text::lemma_parted(bound, ',', others);
    assert(bound.skip(2) =~= binding);
    let second = seq!['r', '='] + nonce;
    assert forall|i: int| 0 <= i < second.len() implies second[i] != ',' by {
        if i >= 2 {
            assert(second[i] == nonce[i - 2]);
        }
    }
    if extensions.len() == 0 {
        assert(others =~= second);
        text::lemma_unparted(second, ',');
    } else {
        assert(others =~= second.push(',') + extensions.skip(1));
        text::lemma_parted(second, ',', extensions.skip(1));
    }
    assert(second.skip(2) =~= nonce);
}

/// A client-final-message that can be read is what the proof was computed
/// over, the mark `,p=`, and text that decodes to the proof and in which the
/// mark does not stand. What the proof was computed over is written from the
/// channel binding and the nonce, without a comma in either, and from
/// extensions.
pub proof fn law_read_final_is_the_message(sent: Seq<char>)
    requires
        message::read_final(sent) is Ok,
    ensures
        ({
            let last = message::read_final(sent)->Ok_0;
            &&& !last.nonce.contains(',')
            &&& exists|binding: Seq<char>, extensions: Seq<char>|
                {
                    &&& !binding.contains(',')
                    &&& extensions.len() == 0 || extensions[0] == ','
                    &&& last.without_proof == #[trigger] written_final(
                        binding,
                        last.nonce,
                        extensions,
                    )
                    &&& crypto::base64_bytes(binding) == Some(last.binding)
                }
            &&& exists|shown: Seq<char>|
                {
                    &&& sent == last.without_proof + message::proof_mark() + shown
                    &&& forall|at: int| !#[trigger] text::stands(shown, message::proof_mark(), at)
                    &&& #[trigger] crypto::base64_bytes(shown) == Some(last.proof)
                }
        }),
{
    let last = message::read_final(sent)->Ok_0;
    let fields = message::split_final(sent)->Ok_0;
    let mark = message::proof_mark();
    let at = text::find_last(sent, mark)->0;
    let shown = fields.proof;
    text::lemma_find_last(sent, mark);
    assert(sent =~= sent.take(at) + sent.subrange(at, at + 3) + sent.skip(at + 3));
    assert forall|i: int| !#[trigger] text::stands(shown, mark, i) by {
        if text::stands(shown, mark, i) {
            assert(shown.subrange(i, i + 3) =~= sent.subrange(at + 3 + i, at + 6 + i));
            assert(text::stands(sent, mark, at + 3 + i));
        }
    }
    let whole = last.without_proof;
    let bound = text::before(whole, ',');
    let others = text::after(whole, ',')->0;
    let second = text::before(others, ',');
    text::lemma_rejoined(whole, ',');
    lemma_first_field(others);
    lemma_tail_has_no(bound, ',');
    lemma_tail_has_no(second, ',');
    let extensions = others.skip(second.len() as int);
    assert(bound =~= seq!['c', '='] + fields.binding);
    assert(second =~= seq!['r', '='] + fields.nonce);
    assert(whole =~= written_final(fields.binding, last.nonce, extensions));
}

/// Whether an authenticator still has its enrollments and its decoy, and no
/// more exchanges or signatures than it may have.
pub open spec fn keeps_bounds(before: ScramView, after: ScramView) -> bool {
    &&& after.exchanges.valid()
    &&& after.exchanges.open.len() <= 1024
    &&& after.exchanges.proven.len() <= 1024
    &&& after.store == before.store
    &&& after.decoy == before.decoy
}

/// Whatever is asked of an authenticator, its enrollments and its decoy stay
/// as they are, its exchanges stay valid, and never more than [`MOST_OPEN`]
/// of them stand open, nor more signatures wait.
pub proof fn law_bounds_are_kept(
    scram: ScramView,
    first: ClientFirstView,
    server_nonce: Seq<char>,
    presented: PresentedView,
    nonce: Seq<char>,
)
    requires
        scram.exchanges.valid(),
    ensures
        keeps_bounds(scram, scram.answering(first, server_nonce)),
        keeps_bounds(scram, scram.verifying(presented).1),
        keeps_bounds(scram, scram.collecting(nonce)),
{
    exchange::lemma_stays_valid(
        scram.exchanges,
        first.nonce + server_nonce,
        scram.exchange(first, server_nonce),
        seq![],
    );
    exchange::lemma_stays_valid(scram.exchanges, nonce, scram.exchange(first, server_nonce), seq![]);
    if let Ok(last) = authenticator::carried(presented) {
        let text = crypto::base64_text(scram.signature(presented.value, last));
        exchange::lemma_stays_valid(
            scram.exchanges,
            last.nonce,
            scram.exchange(first, server_nonce),
            text,
        );
        exchange::lemma_stays_valid(
            scram.exchanges.taking(last.nonce),
            last.nonce,
            scram.exchange(first, server_nonce),
            text,
        );
    }
}

/// An exchange is open once its first message was answered. Where all the
/// places were taken the oldest has gone; the rest stand as they stood, and
/// so do the signatures.
pub proof fn law_the_oldest_makes_room(
    scram: ScramView,
    first: ClientFirstView,
    server_nonce: Seq<char>,
    other: Seq<char>,
)
    requires
        scram.exchanges.valid(),
        other != first.nonce + server_nonce,
    ensures
        ({
            let before = scram.exchanges.open;
            let after = scram.answering(first, server_nonce).exchanges.open;
            let gone = before.len() == MOST_OPEN && exchange::is_oldest(
                before,
                exchange::opened_at(),
                other,
            );
            &&& after.contains_key(first.nonce + server_nonce)
            &&& after[first.nonce + server_nonce] == scram.exchange(first, server_nonce)
            &&& after.contains_key(other) <==> before.contains_key(other) && !gone
            &&& after.contains_key(other) ==> after[other] == before[other]
            &&& scram.answering(first, server_nonce).exchanges.proven == scram.exchanges.proven
        }),
{
    let before = scram.exchanges.open;
    let at = exchange::opened_at();
    if before.len() >= MOST_OPEN {
        exchange::lemma_some_oldest(before, at);
        let oldest = choose|nonce: Seq<char>| exchange::is_oldest(before, at, nonce);
        if exchange::is_oldest(before, at, other) {
            exchange::lemma_one_oldest(before, at, scram.exchanges.sequence, other);
        }
        assert(exchange::is_oldest(before, at, oldest));
    }
}

/// The signature waits once a claim was proven. Where all the places were
/// taken the oldest has gone; the rest wait as they waited.
pub proof fn law_the_oldest_signature_makes_room(
    scram: ScramView,
    presented: PresentedView,
    other: Seq<char>,
)
    requires
        scram.exchanges.valid(),
        scram.verifying(presented).0 == Ok::<_, Seq<char>>(Verified::Proven),
        other != authenticator::carried(presented)->Ok_0.nonce,
    ensures
        ({
            let before = scram.exchanges.proven;
            let after = scram.verifying(presented).1;
            let gone = before.len() == MOST_OPEN && exchange::is_oldest(
                before,
                exchange::proven_at(),
                other,
            );
            let last = authenticator::carried(presented)->Ok_0;
            &&& after.signed(last.nonce) == Some(
                seq!['v', '='] + crypto::base64_text(scram.signature(presented.value, last)),
            )
            &&& after.exchanges.proven.contains_key(other) <==> before.contains_key(other) && !gone
            &&& after.exchanges.proven.contains_key(other) ==> after.exchanges.proven[other]
                == before[other]
        }),
{
    reveal_strlit("v=");
    assert("v="@ =~= seq!['v', '=']);
    let before = scram.exchanges.proven;
    let at = exchange::proven_at();
    if before.len() >= MOST_OPEN {
        exchange::lemma_some_oldest(before, at);
        let oldest = choose|nonce: Seq<char>| exchange::is_oldest(before, at, nonce);
        if exchange::is_oldest(before, at, other) {
            exchange::lemma_one_oldest(before, at, scram.exchanges.sequence, other);
        }
        assert(exchange::is_oldest(before, at, oldest));
    }
}

/// An exchange is good for one final message: once one was read off a claim,
/// whatever came of it, nothing is open under its nonce, and every later
/// claim under that nonce is turned away without effect.
pub proof fn law_one_final_message(
    scram: ScramView,
    presented: PresentedView,
    again: PresentedView,
)
    requires
        authenticator::carried(presented) is Ok,
        authenticator::carried(again) is Ok,
        authenticator::carried(again)->Ok_0.nonce == authenticator::carried(presented)->Ok_0.nonce,
    ensures
        ({
            let after = scram.verifying(presented).1;
            after.verifying(again) == (
                Err::<Verified, _>(
                    "no SCRAM exchange is open under that nonce: never opened, or already finished"@,
                ),
                after,
            )
        }),
{
}

/// Weighing a claim leaves every exchange but its own as it stands, and a
/// claim that is not proven leaves every signature as it stands.
pub proof fn law_other_exchanges_are_untouched(
    scram: ScramView,
    presented: PresentedView,
    other: Seq<char>,
)
    requires
        authenticator::carried(presented) matches Ok(last) ==> last.nonce != other,
    ensures
        ({
            let (outcome, after) = scram.verifying(presented);
            &&& after.exchanges.open.contains_key(other) == scram.exchanges.open.contains_key(other)
            &&& after.exchanges.open[other] == scram.exchanges.open[other]
            &&& outcome != Ok::<_, Seq<char>>(Verified::Proven) ==> after.exchanges.proven
                == scram.exchanges.proven
        }),
{
}

/// A claim that carries no final message which can be read has no effect.
pub proof fn law_unreadable_claim_has_no_effect(scram: ScramView, presented: PresentedView)
    requires
        authenticator::carried(presented) is Err,
    ensures
        scram.verifying(presented).0 is Err,
        scram.verifying(presented).1 == scram,
{
}

/// A key is found again in the proof that was made from it.
proof fn lemma_key_recovered(key: Seq<u8>, signature: Seq<u8>)
    requires
        key.len() == KEY_LENGTH,
    ensures
        authenticator::recovered_key(signature, authenticator::xor(signature, key)) == Some(key),
{
    let shown = authenticator::xor(signature, key);
    let found = authenticator::xor(signature, shown);
    assert forall|i: int| 0 <= i < KEY_LENGTH implies found[i] == key[i] by {
        let k: u8 = key[i];
        let s: u8 = signature[i];
        assert(s ^ (s ^ k) == k) by (bit_vector);
    }
    assert(found =~= key);
}

/// What the proof and the signature are computed over, between an
/// authenticator that answers `first` and a client that ends with `last`.
pub open spec fn covered(
    scram: ScramView,
    first: ClientFirstView,
    server_nonce: Seq<char>,
    last: ClientFinalView,
) -> Seq<u8> {
    vstd::utf8::encode_utf8(
        first.bare + seq![','] + scram.answer(first, server_nonce) + seq![',']
            + last.without_proof,
    )
}

/// Whether a claim carries `last` as the final message of the exchange that
/// `first` opened, for the name that opened it and with the header that it
/// was opened with.
pub open spec fn finishes(
    first: ClientFirstView,
    server_nonce: Seq<char>,
    presented: PresentedView,
    last: ClientFinalView,
) -> bool {
    &&& protocol::presents(presented, last)
    &&& presented.value == first.username
    &&& last.nonce == first.nonce + server_nonce
    &&& last.binding == vstd::utf8::encode_utf8(first.gs2_header)
}

/// Whoever holds the `ClientKey` of an enrolled name is proven: a claim that
/// finishes the exchange, with the proof `ClientKey XOR HMAC(StoredKey,
/// AuthMessage)`, where the key hashes to the `StoredKey`. The node's
/// signature `HMAC(ServerKey, AuthMessage)` is then there to be collected.
pub proof fn law_the_key_proves(
    scram: ScramView,
    first: ClientFirstView,
    server_nonce: Seq<char>,
    presented: PresentedView,
    last: ClientFinalView,
    key: Seq<u8>,
)
    requires
        scram.store.verifiers.contains_key(first.username),
        finishes(first, server_nonce, presented, last),
        key.len() == KEY_LENGTH,
        crypto::sha256_of(key) == scram.store.verifiers[first.username].stored_key,
        protocol::lies_between(
            last.proof,
            crypto::hmac_of(
                scram.store.verifiers[first.username].stored_key,
                covered(scram, first, server_nonce, last),
            ),
            key,
        ),
    ensures
        ({
            let (outcome, after) = scram.answering(first, server_nonce).verifying(presented);
            let signature = crypto::hmac_of(
                scram.store.verifiers[first.username].server_key,
                covered(scram, first, server_nonce, last),
            );
            &&& outcome == Ok::<_, Seq<char>>(Verified::Proven)
            &&& after.signed(first.nonce + server_nonce) == Some(
                seq!['v', '='] + crypto::base64_text(signature),
            )
        }),
{
    let opened = scram.exchange(first, server_nonce);
    assert(authenticator::auth_message(opened, last) =~= first.bare + seq![','] + scram.answer(
        first,
        server_nonce,
    ) + seq![','] + last.without_proof);
    let signature = crypto::hmac_of(
        scram.store.verifiers[first.username].stored_key,
        covered(scram, first, server_nonce, last),
    );
    assert(last.proof =~= authenticator::xor(signature, key));
    lemma_key_recovered(key, signature);
    reveal_strlit("v=");
    assert("v="@ =~= seq!['v', '=']);
}

/// Nobody is proven otherwise: a claim is proven only where an exchange stands
/// open under its nonce that the claimed name opened, with the header that
/// the claim echoes, and the proof holds a key that hashes to the `StoredKey`
/// the exchange was opened with.
pub proof fn law_proven_only_by_the_key(scram: ScramView, presented: PresentedView)
    requires
        scram.verifying(presented).0 == Ok::<_, Seq<char>>(Verified::Proven),
    ensures
        ({
            let last = authenticator::carried(presented)->Ok_0;
            let opened = scram.exchanges.open[last.nonce];
            let held = opened.verifier->Some_0;
            let signature = crypto::hmac_of(
                held.stored_key,
                protocol::covered_by(opened, last),
            );
            &&& protocol::presents(presented, last)
            &&& scram.exchanges.open.contains_key(last.nonce)
            &&& opened.username == presented.value
            &&& last.binding == vstd::utf8::encode_utf8(opened.gs2_header)
            &&& opened.verifier is Some
            &&& exists|key: Seq<u8>| #[trigger]
                protocol::lies_between(key, signature, last.proof) && crypto::sha256_of(key)
                    == held.stored_key
        }),
{
    let last = authenticator::carried(presented)->Ok_0;
    let opened = scram.exchanges.open[last.nonce];
    let held = opened.verifier->Some_0;
    assert(authenticator::auth_message(opened, last) =~= opened.transcript + seq![',']
        + last.without_proof);
    let signature = crypto::hmac_of(held.stored_key, protocol::covered_by(opened, last));
    protocol::law_key_lies_in_the_proof(signature, last.proof);
    let key = authenticator::recovered_key(signature, last.proof)->0;
    assert(protocol::lies_between(key, signature, last.proof));
}

/// A name that is not enrolled is answered like one that is, with a salt that
/// is the same every time: any two authenticators with the same enrollments
/// and the same decoy, whatever they have done since, answer it with the
/// same salt and the same count. The salt has the length of a fresh one, and
/// so, where its base64 reads back as `answer` has it, 24 characters there.
pub proof fn law_unknown_name_is_answered_alike(
    scram: ScramView,
    later: ScramView,
    first: ClientFirstView,
    again: ClientFirstView,
    server_nonce: Seq<char>,
    server_nonce_again: Seq<char>,
)
    requires
        later.store == scram.store,
        later.decoy == scram.decoy,
        first.username == again.username,
        !scram.store.verifiers.contains_key(first.username),
    ensures
        ({
            let salt = authenticator::salt_for(scram.store, scram.decoy, first.username);
            let sent = crypto::base64_text(salt);
            let count = scram.store.iterations;
            &&& salt == authenticator::salt_in(
                crypto::sha256_of(scram.decoy + vstd::utf8::encode_utf8(first.username)),
            )
            &&& salt.len() == crypto::SALT_LENGTH
            &&& crypto::reads_back(salt) ==> sent.len() == 24
            &&& scram.answer(first, server_nonce) == authenticator::first_answer(
                first.nonce + server_nonce,
                sent,
                count,
            )
            &&& later.answer(again, server_nonce_again) == authenticator::first_answer(
                again.nonce + server_nonce_again,
                sent,
                count,
            )
        }),
{
}

/// A name that is not enrolled is refused at the end, whatever the proof, and
/// so is an enrolled one whose proof is as long as a key and holds another
/// key; neither leaves a signature.
pub proof fn law_unknown_name_and_wrong_key_are_refused(
    scram: ScramView,
    first: ClientFirstView,
    server_nonce: Seq<char>,
    presented: PresentedView,
    last: ClientFinalView,
)
    requires
        finishes(first, server_nonce, presented, last),
        scram.store.verifiers.contains_key(first.username) ==> {
            let held = scram.store.verifiers[first.username];
            let signature = crypto::hmac_of(
                held.stored_key,
                covered(scram, first, server_nonce, last),
            );
            &&& last.proof.len() == 32
            &&& forall|key: Seq<u8>| #[trigger]
                protocol::lies_between(key, signature, last.proof) ==> crypto::sha256_of(key)
                    != held.stored_key
        },
    ensures
        ({
            let answering = scram.answering(first, server_nonce);
            let (outcome, after) = answering.verifying(presented);
            &&& outcome == Ok::<_, Seq<char>>(Verified::Refused)
            &&& after.exchanges.proven == scram.exchanges.proven
            &&& !after.exchanges.open.contains_key(first.nonce + server_nonce)
        }),
{
    let opened = scram.exchange(first, server_nonce);
    assert(authenticator::auth_message(opened, last) =~= first.bare + seq![','] + scram.answer(
        first,
        server_nonce,
    ) + seq![','] + last.without_proof);
    if scram.store.verifiers.contains_key(first.username) {
        protocol::law_key_lies_in_the_proof(
            crypto::hmac_of(
                scram.store.verifiers[first.username].stored_key,
                covered(scram, first, server_nonce, last),
            ),
            last.proof,
        );
    }
}

/// A signature is collected once, and collecting it leaves the others.
pub proof fn law_signature_is_collected_once(scram: ScramView, nonce: Seq<char>, other: Seq<char>)
    ensures
        scram.collecting(nonce).signed(nonce) is None,
        other != nonce ==> scram.collecting(nonce).signed(other) == scram.signed(other),
        scram.collecting(nonce).exchanges.open == scram.exchanges.open,
{
}

/// A server-first-message falls apart at its commas into the nonce, the salt
/// and the count, as long as there is none in the nonce or in the salt.
pub proof fn law_answer_reads_back(nonce: Seq<char>, salt: Seq<char>, iterations: u32)
    requires
        !nonce.contains(','),
        !salt.contains(','),
    ensures
        ({
            let answer = authenticator::first_answer(nonce, salt, iterations);
            let rest = text::after(answer, ',');
            &&& text::before(answer, ',') == seq!['r', '='] + nonce
            &&& rest is Some
            &&& text::before(rest->0, ',') == seq!['s', '='] + salt
            &&& text::after(rest->0, ',') == Some(
                seq!['i', '='] + text::decimal(iterations as nat),
            )
        }),
{
    reveal_strlit("r=");
    reveal_strlit(",s=");
    reveal_strlit(",i=");
    let answer = authenticator::first_answer(nonce, salt, iterations);
    let head = seq!['r', '='] + nonce;
    let middle = seq!['s', '='] + salt;
    let tail = seq!['i', '='] + text::decimal(iterations as nat);
    let rest = middle.push(',') + tail;
    assert(answer =~= head.push(',') + rest);
    assert forall|i: int| 0 <= i < head.len() implies head[i] != ',' by {
        if i >= 2 {
            assert(head[i] == nonce[i - 2]);
        }
    }
    assert forall|i: int| 0 <= i < middle.len() implies middle[i] != ',' by {
        if i >= 2 {
            assert(middle[i] == salt[i - 2]);
        }
    }
    text::lemma_parted(head, ',', rest);
    text::lemma_parted(middle, ',', tail);
}

/// An honest client is proven, message for message: a first message that can
/// be read, the node's answer, and a final message written as RFC 5802 has it,
/// with the header in base64, both nonces, and the proof in base64, presented
/// as a claim that this verifier reads.
pub proof fn law_honest_client_is_proven(
    scram: ScramView,
    sent: Seq<char>,
    server_nonce: Seq<char>,
    binding: Seq<char>,
    shown: Seq<char>,
    presented: PresentedView,
    key: Seq<u8>,
)
    requires
        message::read_first(sent) is Ok,
        !server_nonce.contains(','),
        ({
            let first = message::read_first(sent)->Ok_0;
            let nonce = first.nonce + server_nonce;
            let without_proof = written_final(binding, nonce, seq![]);
            let held = scram.store.verifiers[first.username];
            let signed_over = vstd::utf8::encode_utf8(
                first.bare + seq![','] + scram.answer(first, server_nonce) + seq![',']
                    + without_proof,
            );
            &&& scram.store.verifiers.contains_key(first.username)
            &&& key.len() == KEY_LENGTH
            &&& crypto::sha256_of(key) == held.stored_key
            &&& !binding.contains(',')
            &&& crypto::base64_bytes(binding) == Some(vstd::utf8::encode_utf8(first.gs2_header))
            &&& !shown.contains(',')
            &&& crypto::base64_bytes(shown) is Some
            &&& protocol::lies_between(
                crypto::base64_bytes(shown)->0,
                crypto::hmac_of(held.stored_key, signed_over),
                key,
            )
            &&& presented.mechanism == "username"@ || presented.mechanism == "scram"@
            &&& presented.value == first.username
            &&& presented.proofs.contains_key("scram.client-final"@)
            &&& presented.proofs["scram.client-final"@] == without_proof + seq![',', 'p', '=']
                + shown
        }),
    ensures
        ({
            let first = message::read_first(sent)->Ok_0;
            let nonce = first.nonce + server_nonce;
            let held = scram.store.verifiers[first.username];
            let signed_over = vstd::utf8::encode_utf8(
                first.bare + seq![','] + scram.answer(first, server_nonce) + seq![',']
                    + written_final(binding, nonce, seq![]),
            );
            let (outcome, after) = scram.answering(first, server_nonce).verifying(presented);
            &&& outcome == Ok::<_, Seq<char>>(Verified::Proven)
            &&& after.signed(nonce) == Some(
                seq!['v', '='] + crypto::base64_text(
                    crypto::hmac_of(held.server_key, signed_over),
                ),
            )
        }),
{
    let first = message::read_first(sent)->Ok_0;
    let nonce = first.nonce + server_nonce;
    law_read_first_is_the_message(sent);
    assert forall|i: int| 0 <= i < nonce.len() implies nonce[i] != ',' by {
        if i < first.nonce.len() {
            assert(nonce[i] == first.nonce[i]);
        } else {
            assert(nonce[i] == server_nonce[i - first.nonce.len()]);
        }
    }
    law_written_final_splits_back(binding, nonce, seq![], shown);
    let last = message::read_final(presented.proofs["scram.client-final"@])->Ok_0;
    law_the_key_proves(scram, first, server_nonce, presented, last, key);
}

} // verus!
