//! Pieces of text: where a character stands, what lies before and after it,
//! and numbers written out.

use vstd::prelude::*;
use vstd::string::StrSliceExecFns;

verus! {

/// The position of the first `sep` in `s`, or the length of `s` where it
/// holds none.
pub open spec fn find(s: Seq<char>, sep: char) -> nat
    decreases s.len(),
{
    if s.len() == 0 || s[0] == sep {
        0
    } else {
        1 + find(s.skip(1), sep)
    }
}

/// The text up to the first `sep`: all of it where there is none.
pub open spec fn before(s: Seq<char>, sep: char) -> Seq<char> {
    s.take(find(s, sep) as int)
}

/// The text behind the first `sep`, where there is one.
pub open spec fn after(s: Seq<char>, sep: char) -> Option<Seq<char>> {
    if find(s, sep) < s.len() {
        Some(s.skip(find(s, sep) as int + 1))
    } else {
        None
    }
}

/// The position of the last place where `mark` stands in `s`.
pub open spec fn find_last(s: Seq<char>, mark: Seq<char>) -> Option<int>
    decreases s.len(),
{
    if s.len() < mark.len() {
        None
    } else if s.skip(s.len() - mark.len()) == mark {
        Some(s.len() - mark.len())
    } else if s.len() == 0 {
        None
    } else {
        find_last(s.drop_last(), mark)
    }
}

/// One decimal digit.
pub open spec fn digit(d: nat) -> char {
    (48 + d) as char
}

/// A number in decimal, without leading zeros.
pub open spec fn decimal(n: nat) -> Seq<char>
    decreases n,
{
    if n < 10 {
        seq![digit(n)]
    } else {
        decimal(n / 10).push(digit(n % 10))
    }
}

/// `String::push` puts the character behind the text.
pub assume_specification[ String::push ](string: &mut String, c: char)
    ensures
        final(string)@ == old(string)@.push(c),
;

/// What `find` finds is a `sep`, and no `sep` comes before it.
pub proof fn lemma_find(s: Seq<char>, sep: char)
    ensures
        find(s, sep) <= s.len(),
        forall|j: int| 0 <= j < find(s, sep) ==> s[j] != sep,
        find(s, sep) < s.len() ==> s[find(s, sep) as int] == sep,
    decreases s.len(),
{
    if s.len() != 0 && s[0] != sep {
        lemma_find(s.skip(1), sep);
        assert forall|j: int| 0 <= j < find(s, sep) implies s[j] != sep by {
            if j > 0 {
                assert(s.skip(1)[j - 1] == s[j]);
            }
        }
    }
}

/// The first `sep` is where one stands with none before it.
pub proof fn lemma_find_is(s: Seq<char>, sep: char, at: int)
    requires
        0 <= at <= s.len(),
        forall|j: int| 0 <= j < at ==> s[j] != sep,
        at < s.len() ==> s[at] == sep,
    ensures
        find(s, sep) == at,
{
    lemma_find(s, sep);
    let found = find(s, sep) as int;
    if found < at {
        assert(s[found] != sep);
    } else if at < found {
        assert(s[at] != sep);
    }
}

/// Text without the separator, then the separator, then anything: the parts
/// are found again.
pub proof fn lemma_parted(head: Seq<char>, sep: char, tail: Seq<char>)
    requires
        !head.contains(sep),
    ensures
        before(head.push(sep) + tail, sep) == head,
        after(head.push(sep) + tail, sep) == Some(tail),
{
    let s = head.push(sep) + tail;
    assert forall|j: int| 0 <= j < head.len() implies s[j] != sep by {
        assert(s[j] == head[j]);
    }
    lemma_find_is(s, sep, head.len() as int);
    assert(s.take(head.len() as int) =~= head);
    assert(s.skip(head.len() as int + 1) =~= tail);
}

/// Text without the separator is one part.
pub proof fn lemma_unparted(s: Seq<char>, sep: char)
    requires
        !s.contains(sep),
    ensures
        before(s, sep) == s,
        after(s, sep) is None,
{
    lemma_find_is(s, sep, s.len() as int);
    assert(s.take(s.len() as int) =~= s);
}

/// The parts around the first separator hold no other one in front of it,
/// and put back together they are the text.
pub proof fn lemma_rejoined(s: Seq<char>, sep: char)
    ensures
        !before(s, sep).contains(sep),
        after(s, sep) matches Some(tail) ==> s == before(s, sep).push(sep) + tail,
        after(s, sep) is None ==> s == before(s, sep),
{
    lemma_find(s, sep);
    let at = find(s, sep) as int;
    if at < s.len() {
        assert(s =~= s.take(at).push(sep) + s.skip(at + 1));
    } else {
        assert(s =~= s.take(at));
    }
}

/// Whether `mark` stands at `at` in `s`.
pub open spec fn stands(s: Seq<char>, mark: Seq<char>, at: int) -> bool {
    0 <= at <= s.len() - mark.len() && s.subrange(at, at + mark.len()) == mark
}

/// Where the last `mark` was found it stands, and it stands nowhere later;
/// where none was found it stands nowhere.
pub proof fn lemma_find_last(s: Seq<char>, mark: Seq<char>)
    ensures
        match find_last(s, mark) {
            Some(at) => stands(s, mark, at) && forall|later: int|
                at < later ==> !#[trigger] stands(s, mark, later),
            None => forall|at: int| !#[trigger] stands(s, mark, at),
        },
    decreases s.len(),
{
    if s.len() >= mark.len() {
        let end = s.len() - mark.len();
        assert(s.skip(end) =~= s.subrange(end, s.len() as int));
        if s.skip(end) != mark && s.len() > 0 {
            let shorter = s.drop_last();
            lemma_find_last(shorter, mark);
            assert forall|at: int| 0 <= at < end implies #[trigger] stands(s, mark, at) == stands(
                shorter,
                mark,
                at,
            ) by {
                assert(shorter.subrange(at, at + mark.len()) =~= s.subrange(at, at + mark.len()));
            }
            assert forall|at: int| #[trigger] stands(s, mark, at) implies stands(
                shorter,
                mark,
                at,
            ) by {
                if at == end {
                    assert(s.skip(end) == mark);
                }
            }
        }
    }
}

/// The last `mark` is where one stands with none behind it.
pub proof fn lemma_last_is(s: Seq<char>, mark: Seq<char>, at: int)
    requires
        stands(s, mark, at),
        forall|later: int| at < later ==> !#[trigger] stands(s, mark, later),
    ensures
        find_last(s, mark) == Some(at),
{
    lemma_find_last(s, mark);
    if let Some(found) = find_last(s, mark) {
        assert(stands(s, mark, found));
    }
}

/// A mark is the last one where what follows it holds none of its first
/// character.
pub proof fn lemma_find_last_is(head: Seq<char>, mark: Seq<char>, tail: Seq<char>)
    requires
        mark.len() > 0,
        !tail.contains(mark[0]),
        forall|j: int| 0 < j < mark.len() ==> #[trigger] mark[j] != mark[0],
    ensures
        find_last(head + mark + tail, mark) == Some(head.len() as int),
    decreases tail.len(),
{
    let s = head + mark + tail;
    let at = s.len() - mark.len();
    if tail.len() == 0 {
        assert(s.skip(at) =~= mark);
    } else {
        let shorter = tail.drop_last();
        assert(s.drop_last() =~= head + mark + shorter);
        assert(!shorter.contains(mark[0])) by {
            if shorter.contains(mark[0]) {
                let j = choose|j: int| 0 <= j < shorter.len() && shorter[j] == mark[0];
                assert(tail[j] == mark[0]);
            }
        }
        lemma_find_last_is(head, mark, shorter);
        if s.skip(at) == mark {
            assert(s.skip(at)[0] == mark[0]);
            assert(s[at] == mark[0]);
            if at >= head.len() + mark.len() {
                assert(tail[at - head.len() - mark.len()] == mark[0]);
            } else {
                assert(mark[at - head.len()] == mark[0]);
            }
        }
    }
}

/// Two texts with the same bytes are the same text.
pub proof fn lemma_same_encoding(a: Seq<char>, b: Seq<char>)
    ensures
        vstd::utf8::encode_utf8(a) == vstd::utf8::encode_utf8(b) <==> a == b,
{
    vstd::utf8::encode_utf8_decode_utf8(a);
    vstd::utf8::encode_utf8_decode_utf8(b);
}

/// Whether two runs of bytes are the same.
pub fn same_bytes(a: &[u8], b: &[u8]) -> (same: bool)
    ensures
        same == (a@ == b@),
{
    if a.len() != b.len() {
        return false;
    }
    let mut i: usize = 0;
    while i < a.len()
        invariant
            a@.len() == b@.len(),
            i <= a@.len(),
            forall|j: int| 0 <= j < i ==> a@[j] == b@[j],
        decreases a@.len() - i,
    {
        if a[i] != b[i] {
            return false;
        }
        i = i + 1;
    }
    assert(a@ =~= b@);
    true
}

/// Whether two texts are the same.
pub fn same_text(a: &str, b: &str) -> (same: bool)
    ensures
        same == (a@ == b@),
{
    proof {
        lemma_same_encoding(a@, b@);
    }
    same_bytes(a.as_bytes(), b.as_bytes())
}

/// Where the first `sep` stands, counted in characters.
fn find_char(text: &str, sep: char) -> (at: usize)
    ensures
        at == find(text@, sep),
        at <= text@.len(),
{
    let count: usize = text.unicode_len();
    let mut at: usize = 0;
    for c in it: text.chars()
        invariant
            count == text@.len(),
            it.seq() == text@,
            at == it.index(),
            forall|j: int| 0 <= j < at ==> text@[j] != sep,
    {
        if c == sep {
            proof {
                lemma_find_is(text@, sep, at as int);
            }
            return at;
        }
        at = at + 1;
    }
    proof {
        lemma_find_is(text@, sep, at as int);
    }
    at
}

/// The text before the first `sep`, and the text behind it.
pub fn part<'a>(text: &'a str, sep: char) -> (parts: (&'a str, Option<&'a str>))
    ensures
        parts.0@ == before(text@, sep),
        match parts.1 {
            Some(tail) => after(text@, sep) == Some(tail@),
            None => after(text@, sep) is None,
        },
{
    let count: usize = text.unicode_len();
    let at = find_char(text, sep);
    let head = text.substring_char(0, at);
    assert(head@ =~= before(text@, sep));
    if at < count {
        let tail = text.substring_char(at + 1, count);
        assert(tail@ =~= text@.skip(at + 1));
        (head, Some(tail))
    } else {
        (head, None)
    }
}

/// A number in decimal.
pub fn decimal_text(n: u64) -> (text: String)
    ensures
        text@ == decimal(n as nat),
    decreases n,
{
    if n < 10 {
        let mut text = String::new();
        text.push((48u8 + n as u8) as char);
        assert(text@ =~= seq![digit(n as nat)]);
        text
    } else {
        let mut text = decimal_text(n / 10);
        text.push((48u8 + (n % 10) as u8) as char);
        text
    }
}

} // verus!
