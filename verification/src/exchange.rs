//! The exchanges that stand between a server-first-message and a
//! client-final-message, and the signatures that wait to be collected.

use crate::store;
use crate::store::{Verifier, VerifierView};
use crate::table::{make_room, Table, MOST_OPEN};
use vstd::prelude::*;

verus! {

/// What is remembered between the server-first and the client-final.
pub struct Exchange {
    /// When the exchange was opened, in the order of all that is remembered.
    pub opened: u64,
    /// Who opened it, as the client-first-message names them.
    pub username: String,
    /// The GS2 header it was opened with.
    pub gs2_header: String,
    /// `client-first-bare,server-first`: the head of the `AuthMessage`.
    pub transcript: String,
    /// `None` where the store does not hold the name.
    pub verifier: Option<Verifier>,
}

/// What an exchange holds.
#[verifier::ext_equal]
pub struct ExchangeView {
    pub opened: nat,
    pub username: Seq<char>,
    pub gs2_header: Seq<char>,
    pub transcript: Seq<char>,
    pub verifier: Option<VerifierView>,
}

impl View for Exchange {
    type V = ExchangeView;

    open spec fn view(&self) -> ExchangeView {
        ExchangeView {
            opened: self.opened as nat,
            username: self.username@,
            gs2_header: self.gs2_header@,
            transcript: self.transcript@,
            verifier: store::verifier_in(self.verifier),
        }
    }
}

/// A `ServerSignature` that waits to be collected.
pub struct Signature {
    /// When the exchange was proven, in the order of all that is remembered.
    pub proven: u64,
    /// The signature in base64.
    pub text: String,
}

/// What a waiting signature holds.
#[verifier::ext_equal]
pub struct SignatureView {
    pub proven: nat,
    pub text: Seq<char>,
}

impl View for Signature {
    type V = SignatureView;

    open spec fn view(&self) -> SignatureView {
        SignatureView { proven: self.proven as nat, text: self.text@ }
    }
}

/// The open exchanges and the waiting signatures, each under the combined
/// nonce of its exchange.
pub struct Exchanges {
    sequence: u64,
    open: Table<Exchange>,
    proven: Table<Signature>,
}

/// What is remembered of all exchanges.
#[verifier::ext_equal]
pub struct ExchangesView {
    /// How often something was remembered so far.
    pub sequence: nat,
    pub open: Map<Seq<char>, ExchangeView>,
    pub proven: Map<Seq<char>, SignatureView>,
}

impl View for Exchanges {
    type V = ExchangesView;

    closed spec fn view(&self) -> ExchangesView {
        ExchangesView {
            sequence: self.sequence as nat,
            open: self.open@.map_values(|exchange: Exchange| exchange@),
            proven: self.proven@.map_values(|signature: Signature| signature@),
        }
    }
}

/// When an exchange was opened.
pub open spec fn opened_at() -> spec_fn(ExchangeView) -> nat {
    |exchange: ExchangeView| exchange.opened
}

/// When an exchange was proven.
pub open spec fn proven_at() -> spec_fn(SignatureView) -> nat {
    |signature: SignatureView| signature.proven
}

/// Whether no more is held than may be, and each value of `held` has a time
/// of its own, none later than `now`.
pub open spec fn orderly<V>(held: Map<Seq<char>, V>, at: spec_fn(V) -> nat, now: nat) -> bool {
    &&& held.dom().finite()
    &&& held.len() <= MOST_OPEN
    &&& forall|nonce: Seq<char>| #[trigger] held.contains_key(nonce) ==> at(held[nonce]) <= now
    &&& forall|a: Seq<char>, b: Seq<char>| #[trigger]
        held.contains_key(a) && #[trigger] held.contains_key(b) && a != b ==> at(held[a]) != at(
            held[b],
        )
}

/// Whether nothing held has an earlier time than what is under `nonce`.
pub open spec fn is_oldest<V>(
    held: Map<Seq<char>, V>,
    at: spec_fn(V) -> nat,
    nonce: Seq<char>,
) -> bool {
    &&& held.contains_key(nonce)
    &&& forall|other: Seq<char>| #[trigger]
        held.contains_key(other) ==> at(held[nonce]) <= at(held[other])
}

/// What is held once there is room for one more: where there was none, the
/// oldest is gone.
pub open spec fn with_room<V>(held: Map<Seq<char>, V>, at: spec_fn(V) -> nat) -> Map<
    Seq<char>,
    V,
> {
    if held.len() < MOST_OPEN {
        held
    } else {
        held.remove(choose|nonce: Seq<char>| is_oldest(held, at, nonce))
    }
}

impl ExchangesView {
    /// Nothing is remembered.
    pub open spec fn empty() -> Self {
        ExchangesView { sequence: 0, open: Map::empty(), proven: Map::empty() }
    }

    /// At most [`MOST_OPEN`] exchanges stand open and at most as many
    /// signatures wait, and of each kind any two can be told apart by age.
    pub open spec fn valid(self) -> bool {
        &&& orderly(self.open, opened_at(), self.sequence)
        &&& orderly(self.proven, proven_at(), self.sequence)
    }

    /// What is remembered once a number was given out.
    pub open spec fn counted(self) -> Self {
        ExchangesView { sequence: self.sequence + 1, ..self }
    }

    /// What is remembered once `exchange` was opened under `nonce`.
    pub open spec fn opening(self, nonce: Seq<char>, exchange: ExchangeView) -> Self {
        ExchangesView {
            sequence: self.sequence + 1,
            open: with_room(self.open, opened_at()).insert(
                nonce,
                ExchangeView { opened: self.sequence + 1, ..exchange },
            ),
            proven: self.proven,
        }
    }

    /// What is remembered once the exchange under `nonce` was taken up.
    pub open spec fn taking(self, nonce: Seq<char>) -> Self {
        ExchangesView { open: self.open.remove(nonce), ..self }
    }

    /// What is remembered once the exchange under `nonce` was proven and
    /// signed.
    pub open spec fn signing(self, nonce: Seq<char>, text: Seq<char>) -> Self {
        ExchangesView {
            sequence: self.sequence + 1,
            open: self.open,
            proven: with_room(self.proven, proven_at()).insert(
                nonce,
                SignatureView { proven: self.sequence + 1, text },
            ),
        }
    }

    /// What is remembered once the signature under `nonce` was collected.
    pub open spec fn collecting(self, nonce: Seq<char>) -> Self {
        ExchangesView { proven: self.proven.remove(nonce), ..self }
    }
}

/// There is only one oldest.
pub proof fn lemma_one_oldest<V>(
    held: Map<Seq<char>, V>,
    at: spec_fn(V) -> nat,
    now: nat,
    nonce: Seq<char>,
)
    requires
        orderly(held, at, now),
        is_oldest(held, at, nonce),
    ensures
        nonce == (choose|nonce: Seq<char>| is_oldest(held, at, nonce)),
{
    let other = choose|nonce: Seq<char>| is_oldest(held, at, nonce);
    assert(is_oldest(held, at, other));
    assert(held.contains_key(nonce) && held.contains_key(other));
}

/// Where something is held, something held is the oldest.
pub proof fn lemma_some_oldest<V>(held: Map<Seq<char>, V>, at: spec_fn(V) -> nat)
    requires
        held.dom().finite(),
        held.len() > 0,
    ensures
        exists|nonce: Seq<char>| is_oldest(held, at, nonce),
    decreases held.len(),
{
    let some = held.dom().choose();
    assert(held.contains_key(some));
    let others = held.remove(some);
    if others.len() == 0 {
        assert forall|other: Seq<char>| #[trigger] held.contains_key(other) implies at(held[some])
            <= at(held[other]) by {
            if other != some {
                assert(others.dom().contains(other));
            }
        }
        assert(is_oldest(held, at, some));
    } else {
        lemma_some_oldest(others, at);
        let first = choose|nonce: Seq<char>| is_oldest(others, at, nonce);
        assert forall|other: Seq<char>| #[trigger] held.contains_key(other) && other
            != some implies at(held[first]) <= at(held[other]) by {
            assert(others.contains_key(other));
        }
        if at(held[some]) <= at(held[first]) {
            assert(is_oldest(held, at, some));
        } else {
            assert(is_oldest(held, at, first));
        }
    }
}

/// What is left under the bound, with nothing dropped that is younger than
/// what was kept, is what was held without the oldest.
proof fn lemma_left<V>(
    held: Map<Seq<char>, V>,
    left: Map<Seq<char>, V>,
    at: spec_fn(V) -> nat,
    now: nat,
)
    requires
        orderly(held, at, now),
        left.submap_of(held),
        held.len() < MOST_OPEN ==> left == held,
        held.len() >= MOST_OPEN ==> left.len() == MOST_OPEN - 1,
        forall|dropped: Seq<char>, kept: Seq<char>| #[trigger]
            held.contains_key(dropped) && !left.contains_key(dropped)
                && #[trigger] left.contains_key(kept) ==> at(held[dropped]) <= at(held[kept]),
    ensures
        left == with_room(held, at),
{
    if held.len() >= MOST_OPEN {
        assert(left.dom().subset_of(held.dom())) by {
            assert forall|nonce: Seq<char>| left.dom().contains(nonce) implies held.dom().contains(
                nonce,
            ) by {}
        }
        vstd::set_lib::lemma_len_subset(left.dom(), held.dom());
        let dropped = choose|dropped: Seq<char>|
            held.dom().contains(dropped) && !left.dom().contains(dropped);
        if forall|nonce: Seq<char>| held.dom().contains(nonce) ==> left.dom().contains(nonce) {
            assert(left.dom() =~= held.dom());
            assert(false);
        }
        assert(held.dom().contains(dropped) && !left.dom().contains(dropped));
        let rest = held.dom().remove(dropped);
        assert(left.dom().subset_of(rest));
        vstd::set_lib::lemma_subset_equality(left.dom(), rest);
        assert(held.contains_key(dropped));
        assert forall|other: Seq<char>| #[trigger] held.contains_key(other) implies at(
            held[dropped],
        ) <= at(held[other]) by {
            if other != dropped {
                assert(rest.contains(other));
                assert(left.contains_key(other));
            }
        }
        assert(is_oldest(held, at, dropped));
        lemma_one_oldest(held, at, now, dropped);
        assert(left =~= held.remove(dropped)) by {
            assert forall|nonce: Seq<char>| left.dom().contains(nonce) implies left[nonce]
                == held.remove(dropped)[nonce] by {
                assert(held.dom().contains(nonce));
            }
        }
    }
}

/// With room made, there is room, and it stays orderly.
pub proof fn lemma_with_room<V>(held: Map<Seq<char>, V>, at: spec_fn(V) -> nat, now: nat)
    requires
        orderly(held, at, now),
    ensures
        orderly(with_room(held, at), at, now),
        with_room(held, at).len() < MOST_OPEN,
        with_room(held, at).submap_of(held),
{
    if held.len() >= MOST_OPEN {
        lemma_some_oldest(held, at);
    }
}

/// Remembering one more thing, at a later time, keeps everything orderly.
pub proof fn lemma_remembered<V>(
    held: Map<Seq<char>, V>,
    at: spec_fn(V) -> nat,
    now: nat,
    nonce: Seq<char>,
    value: V,
)
    requires
        orderly(held, at, now),
        at(value) == now + 1,
    ensures
        orderly(with_room(held, at).insert(nonce, value), at, now + 1),
{
    lemma_with_room(held, at, now);
    let room = with_room(held, at);
    let after = room.insert(nonce, value);
    assert forall|a: Seq<char>, b: Seq<char>| #[trigger]
        after.contains_key(a) && #[trigger] after.contains_key(b) && a != b implies at(after[a])
        != at(after[b]) by {
        assert(a != nonce ==> room.contains_key(a));
        assert(b != nonce ==> room.contains_key(b));
    }
    assert forall|a: Seq<char>| #[trigger] after.contains_key(a) implies at(after[a]) <= now
        + 1 by {
        assert(a != nonce ==> room.contains_key(a));
    }
}

/// Forgetting something, or letting time pass, keeps everything orderly.
pub proof fn lemma_forgotten<V>(
    held: Map<Seq<char>, V>,
    at: spec_fn(V) -> nat,
    now: nat,
    later: nat,
    nonce: Seq<char>,
)
    requires
        orderly(held, at, now),
        now <= later,
    ensures
        orderly(held, at, later),
        orderly(held.remove(nonce), at, later),
{
    let after = held.remove(nonce);
    assert forall|a: Seq<char>| #[trigger] after.contains_key(a) implies held.contains_key(
        a,
    ) by {}
}

/// What is held that has a later time than `than`.
pub open spec fn younger<V>(held: Map<Seq<char>, V>, at: spec_fn(V) -> nat, than: nat) -> Set<
    Seq<char>,
> {
    held.dom().filter(|nonce: Seq<char>| at(held[nonce]) > than)
}

/// Whether `value` is held under `nonce` with no more than `count` younger
/// than it.
pub open spec fn stays<V>(
    held: Map<Seq<char>, V>,
    at: spec_fn(V) -> nat,
    nonce: Seq<char>,
    value: V,
    count: nat,
) -> bool {
    &&& held.contains_key(nonce)
    &&& held[nonce] == value
    &&& younger(held, at, at(value)).len() <= count
}

/// Whether what was remembered under `nonce` at `than` has gone, or stands
/// with all of `later` younger than it.
pub open spec fn fades<V>(
    held: Map<Seq<char>, V>,
    at: spec_fn(V) -> nat,
    nonce: Seq<char>,
    than: nat,
    later: Seq<Seq<char>>,
) -> bool {
    held.contains_key(nonce) ==> {
        &&& at(held[nonce]) == than
        &&& forall|other: Seq<char>| #[trigger]
            later.contains(other) ==> younger(held, at, than).contains(other)
    }
}

/// Where one more thing is remembered, what is already held stays as long as
/// the younger things leave a place free, and the new thing joins the younger
/// ones.
pub proof fn lemma_younger<V>(
    held: Map<Seq<char>, V>,
    at: spec_fn(V) -> nat,
    now: nat,
    nonce: Seq<char>,
    value: V,
    kept: Seq<char>,
)
    requires
        orderly(held, at, now),
        held.contains_key(kept),
        nonce != kept,
        at(value) == now + 1,
    ensures
        ({
            let before = younger(held, at, at(held[kept]));
            let after = with_room(held, at).insert(nonce, value);
            &&& before.len() < MOST_OPEN - 1 ==> after.contains_key(kept)
            &&& after.contains_key(kept) ==> after[kept] == held[kept] && younger(
                after,
                at,
                at(held[kept]),
            ) == before.insert(nonce)
        }),
{
    let than = at(held[kept]);
    let before = younger(held, at, than);
    let after = with_room(held, at).insert(nonce, value);
    if held.len() >= MOST_OPEN {
        lemma_some_oldest(held, at);
        let oldest = choose|nonce: Seq<char>| is_oldest(held, at, nonce);
        assert(is_oldest(held, at, oldest));
        if oldest == kept {
            assert forall|other: Seq<char>| held.dom().remove(kept).contains(
                other,
            ) implies before.contains(other) by {
                assert(held.contains_key(other) && held.contains_key(kept));
            }
            assert(before =~= held.dom().remove(kept));
        }
    }
    if after.contains_key(kept) {
        assert(younger(after, at, than) =~= before.insert(nonce));
    }
}

/// What stays, stays when another thing is remembered, as long as there are
/// places enough for all that is younger.
pub proof fn lemma_stays_remembered<V>(
    held: Map<Seq<char>, V>,
    at: spec_fn(V) -> nat,
    now: nat,
    nonce: Seq<char>,
    value: V,
    count: nat,
    other: Seq<char>,
    another: V,
)
    requires
        orderly(held, at, now),
        stays(held, at, nonce, value, count),
        count < MOST_OPEN - 1,
        other != nonce,
        at(another) == now + 1,
    ensures
        stays(with_room(held, at).insert(other, another), at, nonce, value, count + 1),
{
    lemma_younger(held, at, now, other, another, nonce);
}

/// What stays, stays when another thing is forgotten.
pub proof fn lemma_stays_forgotten<V>(
    held: Map<Seq<char>, V>,
    at: spec_fn(V) -> nat,
    now: nat,
    nonce: Seq<char>,
    value: V,
    count: nat,
    other: Seq<char>,
)
    requires
        orderly(held, at, now),
        stays(held, at, nonce, value, count),
        other != nonce,
    ensures
        stays(held.remove(other), at, nonce, value, count),
{
    let before = younger(held, at, at(value));
    let after = younger(held.remove(other), at, at(value));
    assert(after.subset_of(before));
    vstd::set_lib::lemma_len_subset(after, before);
}

/// What fades, fades further when another thing is remembered.
pub proof fn lemma_fades_remembered<V>(
    held: Map<Seq<char>, V>,
    at: spec_fn(V) -> nat,
    now: nat,
    nonce: Seq<char>,
    than: nat,
    later: Seq<Seq<char>>,
    other: Seq<char>,
    another: V,
)
    requires
        orderly(held, at, now),
        fades(held, at, nonce, than, later),
        other != nonce,
        at(another) == now + 1,
    ensures
        fades(with_room(held, at).insert(other, another), at, nonce, than, later.push(other)),
{
    let after = with_room(held, at).insert(other, another);
    lemma_with_room(held, at, now);
    if after.contains_key(nonce) {
        assert(with_room(held, at).dom().contains(nonce));
        assert(held.dom().contains(nonce));
        lemma_younger(held, at, now, other, another, nonce);
        assert forall|one: Seq<char>| #[trigger] later.push(other).contains(one) implies younger(
            after,
            at,
            than,
        ).contains(one) by {
            if one != other {
                let i: int = later.push(other).index_of(one);
                assert(later[i] == one);
                assert(later.contains(one));
            }
        }
    }
}

/// What fades, fades when something is forgotten that is not one of the later
/// things.
pub proof fn lemma_fades_forgotten<V>(
    held: Map<Seq<char>, V>,
    at: spec_fn(V) -> nat,
    nonce: Seq<char>,
    than: nat,
    later: Seq<Seq<char>>,
    other: Seq<char>,
)
    requires
        fades(held, at, nonce, than, later),
        !later.contains(other),
    ensures
        fades(held.remove(other), at, nonce, than, later),
{
    let after = held.remove(other);
    if after.contains_key(nonce) {
        assert(held.contains_key(nonce));
        assert forall|one: Seq<char>| #[trigger] later.contains(one) implies younger(
            after,
            at,
            than,
        ).contains(one) by {
            assert(younger(held, at, than).contains(one));
        }
    }
}

/// Once as many later things were remembered as there are places, what fades
/// has gone.
pub proof fn lemma_faded<V>(
    held: Map<Seq<char>, V>,
    at: spec_fn(V) -> nat,
    now: nat,
    nonce: Seq<char>,
    than: nat,
    later: Seq<Seq<char>>,
)
    requires
        orderly(held, at, now),
        fades(held, at, nonce, than, later),
        later.no_duplicates(),
        later.len() >= MOST_OPEN,
    ensures
        !held.contains_key(nonce),
{
    if held.contains_key(nonce) {
        let after = younger(held, at, than);
        later.unique_seq_to_set();
        assert forall|one: Seq<char>| later.to_set().contains(one) implies after.contains(one) by {
            assert(later.contains(one));
        }
        vstd::set_lib::lemma_len_subset(later.to_set(), after);
        assert(!after.contains(nonce));
        assert(after.insert(nonce).subset_of(held.dom()));
        vstd::set_lib::lemma_len_subset(after.insert(nonce), held.dom());
    }
}

/// Whatever happens to them, the exchanges stay valid.
pub proof fn lemma_stays_valid(
    before: ExchangesView,
    nonce: Seq<char>,
    exchange: ExchangeView,
    text: Seq<char>,
)
    requires
        before.valid(),
    ensures
        before.opening(nonce, exchange).valid(),
        before.taking(nonce).valid(),
        before.signing(nonce, text).valid(),
        before.collecting(nonce).valid(),
{
    let now = before.sequence;
    lemma_remembered(
        before.open,
        opened_at(),
        now,
        nonce,
        ExchangeView { opened: now + 1, ..exchange },
    );
    lemma_remembered(
        before.proven,
        proven_at(),
        now,
        nonce,
        SignatureView { proven: now + 1, text },
    );
    lemma_forgotten(before.open, opened_at(), now, now, nonce);
    lemma_forgotten(before.open, opened_at(), now, now + 1, nonce);
    lemma_forgotten(before.proven, proven_at(), now, now, nonce);
    lemma_forgotten(before.proven, proven_at(), now, now + 1, nonce);
}

impl Exchanges {
    /// Nothing is remembered yet.
    pub fn new() -> (exchanges: Self)
        ensures
            exchanges@ == ExchangesView::empty(),
            exchanges@.valid(),
    {
        let exchanges = Exchanges { sequence: 0, open: Table::new(), proven: Table::new() };
        assert(exchanges@ =~= ExchangesView::empty());
        exchanges
    }

    /// How often something was remembered so far.
    pub fn sequence(&self) -> (sequence: u64)
        ensures
            sequence == self@.sequence,
    {
        self.sequence
    }

    /// How many exchanges stand open.
    pub fn open_len(&self) -> (len: usize)
        ensures
            len == self@.open.len(),
    {
        let len = self.open.len();
        assert(self@.open.dom() =~= self.open@.dom());
        len
    }

    /// Whether an exchange stands open under `nonce`.
    pub fn is_open(&self, nonce: &str) -> (open: bool)
        ensures
            open == self@.open.contains_key(nonce@),
    {
        self.open.contains_key(nonce)
    }

    /// How many signatures wait to be collected.
    pub fn proven_len(&self) -> (len: usize)
        ensures
            len == self@.proven.len(),
    {
        let len = self.proven.len();
        assert(self@.proven.dom() =~= self.proven@.dom());
        len
    }

    /// The next time in the order of all that is remembered.
    pub fn next(&mut self) -> (now: u64)
        requires
            old(self)@.sequence < u64::MAX,
        ensures
            now == old(self)@.sequence + 1,
            final(self)@ == old(self)@.counted(),
            old(self)@.valid() ==> final(self)@.valid(),
    {
        let ghost before = self@;
        self.sequence = self.sequence + 1;
        proof {
            let now = before.sequence;
            if before.valid() {
                lemma_forgotten(before.open, opened_at(), now, now + 1, seq![]);
                lemma_forgotten(before.proven, proven_at(), now, now + 1, seq![]);
            }
        }
        self.sequence
    }

    /// Remember an exchange under `nonce`; where there is no room, the oldest
    /// goes.
    pub fn begin(
        &mut self,
        nonce: String,
        username: String,
        gs2_header: String,
        transcript: String,
        held: Option<Verifier>,
    )
        requires
            old(self)@.valid(),
            old(self)@.sequence < u64::MAX,
        ensures
            final(self)@.valid(),
            final(self)@ == old(self)@.opening(
                nonce@,
                ExchangeView {
                    opened: 0,
                    username: username@,
                    gs2_header: gs2_header@,
                    transcript: transcript@,
                    verifier: store::verifier_in(held),
                },
            ),
    {
        let ghost before = self@;
        let ghost whole = self.open@;
        let ghost exchange = ExchangeView {
            opened: 0,
            username: username@,
            gs2_header: gs2_header@,
            transcript: transcript@,
            verifier: store::verifier_in(held),
        };
        let age = |exchange: &Exchange| -> (at: u64)
            ensures
                at == exchange.opened,
            { exchange.opened };
        make_room(&mut self.open, age);
        proof {
            let left = self@.open;
            assert(left.dom() =~= self.open@.dom());
            assert(before.open.dom() =~= whole.dom());
            lemma_left(before.open, left, opened_at(), before.sequence);
        }
        let opened = self.next();
        self.open.insert(
            nonce,
            Exchange { opened, username, gs2_header, transcript, verifier: held },
        );
        proof {
            assert(self@ =~= before.opening(nonce@, exchange));
            lemma_stays_valid(before, nonce@, exchange, seq![]);
        }
    }

    /// Take up the exchange under `nonce`: it is remembered no longer.
    pub fn take(&mut self, nonce: &str) -> (exchange: Option<Exchange>)
        requires
            old(self)@.valid(),
        ensures
            final(self)@.valid(),
            final(self)@ == old(self)@.taking(nonce@),
            match exchange {
                Some(exchange) => old(self)@.open.contains_key(nonce@)
                    && old(self)@.open[nonce@] == exchange@,
                None => !old(self)@.open.contains_key(nonce@),
            },
    {
        let ghost before = self@;
        let exchange = self.open.remove(nonce);
        proof {
            assert(self@ =~= before.taking(nonce@));
            lemma_stays_valid(before, nonce@, arbitrary(), seq![]);
        }
        exchange
    }

    /// Remember the signature of the exchange under `nonce`; where there is
    /// no room, the oldest goes.
    pub fn sign(&mut self, nonce: String, text: String)
        requires
            old(self)@.valid(),
            old(self)@.sequence < u64::MAX,
        ensures
            final(self)@.valid(),
            final(self)@ == old(self)@.signing(nonce@, text@),
    {
        let ghost before = self@;
        let ghost whole = self.proven@;
        let age = |signature: &Signature| -> (at: u64)
            ensures
                at == signature.proven,
            { signature.proven };
        make_room(&mut self.proven, age);
        proof {
            let left = self@.proven;
            assert(left.dom() =~= self.proven@.dom());
            assert(before.proven.dom() =~= whole.dom());
            lemma_left(before.proven, left, proven_at(), before.sequence);
        }
        let proven = self.next();
        self.proven.insert(nonce, Signature { proven, text });
        proof {
            assert(self@ =~= before.signing(nonce@, text@));
            lemma_stays_valid(before, nonce@, arbitrary(), text@);
        }
    }

    /// Take the signature under `nonce`: it is remembered no longer.
    pub fn collect(&mut self, nonce: &str) -> (text: Option<String>)
        requires
            old(self)@.valid(),
        ensures
            final(self)@.valid(),
            final(self)@ == old(self)@.collecting(nonce@),
            match text {
                Some(text) => old(self)@.proven.contains_key(nonce@)
                    && old(self)@.proven[nonce@].text == text@,
                None => !old(self)@.proven.contains_key(nonce@),
            },
    {
        let ghost before = self@;
        let signature = self.proven.remove(nonce);
        proof {
            assert(self@ =~= before.collecting(nonce@));
            lemma_stays_valid(before, nonce@, arbitrary(), seq![]);
        }
        match signature {
            Some(signature) => Some(signature.text),
            None => None,
        }
    }
}

} // verus!
