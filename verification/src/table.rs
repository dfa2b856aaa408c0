//! A small table from texts to values, and the rule that keeps one bounded.

use crate::text;
use vstd::prelude::*;

verus! {

/// How many exchanges may stand open, and how many signatures uncollected,
/// before the oldest is dropped.
pub const MOST_OPEN: usize = 1024;

/// Values under texts: at most one value under each.
pub struct Table<V> {
    entries: Vec<(String, V)>,
}

/// Whether the entry at `at` stands under `key`.
spec fn holds<V>(entries: Seq<(String, V)>, key: Seq<char>, at: int) -> bool {
    0 <= at < entries.len() && entries[at].0@ == key
}

/// The keys of a run of entries.
spec fn keys_of<V>(entries: Seq<(String, V)>) -> Seq<Seq<char>> {
    entries.map_values(|entry: (String, V)| entry.0@)
}

/// The map that a run of entries spells out.
spec fn map_of<V>(entries: Seq<(String, V)>) -> Map<Seq<char>, V> {
    Map::new(
        |key: Seq<char>| exists|at: int| holds(entries, key, at),
        |key: Seq<char>| entries[choose|at: int| holds(entries, key, at)].1,
    )
}

/// Whether no key occurs twice in a run of entries.
spec fn distinct<V>(entries: Seq<(String, V)>) -> bool {
    forall|i: int, j: int|
        0 <= i < j < entries.len() ==> (#[trigger] entries[i]).0@ != (#[trigger] entries[j]).0@
}

impl<V> View for Table<V> {
    type V = Map<Seq<char>, V>;

    closed spec fn view(&self) -> Map<Seq<char>, V> {
        map_of(self.entries@)
    }
}

/// Each entry is in the map, under its key, and nothing else is.
proof fn lemma_map_of<V>(entries: Seq<(String, V)>)
    requires
        distinct(entries),
    ensures
        forall|at: int|
            0 <= at < entries.len() ==> map_of(entries).contains_key(
                (#[trigger] entries[at]).0@,
            ) && map_of(entries)[entries[at].0@] == entries[at].1,
        forall|key: Seq<char>| #[trigger]
            map_of(entries).contains_key(key) ==> exists|at: int| holds(entries, key, at),
        map_of(entries).dom().finite(),
        map_of(entries).len() == entries.len(),
{
    assert forall|at: int| 0 <= at < entries.len() implies map_of(entries).contains_key(
        (#[trigger] entries[at]).0@,
    ) && map_of(entries)[entries[at].0@] == entries[at].1 by {
        let key = entries[at].0@;
        assert(holds(entries, key, at));
        let other = choose|other: int| holds(entries, key, other);
        assert(holds(entries, key, other));
        assert(other == at);
    }
    let keys = keys_of(entries);
    assert(keys.no_duplicates()) by {
        assert forall|i: int, j: int| 0 <= i < keys.len() && 0 <= j < keys.len() && i != j implies keys[i]
            != keys[j] by {
            assert(keys[i] == entries[i].0@);
            assert(keys[j] == entries[j].0@);
        }
    }
    keys.unique_seq_to_set();
    assert(map_of(entries).dom() =~= keys.to_set()) by {
        assert forall|key: Seq<char>| map_of(entries).dom().contains(key) == keys.to_set().contains(
            key,
        ) by {
            if map_of(entries).dom().contains(key) {
                let at = choose|at: int| holds(entries, key, at);
                assert(keys[at] == key);
            }
            if keys.contains(key) {
                let at = choose|at: int| 0 <= at < keys.len() && keys[at] == key;
                assert(holds(entries, key, at));
            }
        }
    }
    vstd::seq_lib::seq_to_set_is_finite(keys);
}

/// An entry behind the others is one more binding.
proof fn lemma_pushed<V>(entries: Seq<(String, V)>, key: String, value: V)
    requires
        distinct(entries),
        !map_of(entries).contains_key(key@),
    ensures
        distinct(entries.push((key, value))),
        map_of(entries.push((key, value))) == map_of(entries).insert(key@, value),
{
    let after = entries.push((key, value));
    lemma_map_of(entries);
    assert(distinct(after));
    lemma_map_of(after);
    assert forall|k: Seq<char>| map_of(after).contains_key(k) == map_of(entries).insert(
        key@,
        value,
    ).contains_key(k) by {
        if map_of(after).contains_key(k) {
            let at = choose|at: int| holds(after, k, at);
            if at < entries.len() {
                assert(entries[at] == after[at]);
            }
        }
        if map_of(entries).contains_key(k) {
            let at = choose|at: int| holds(entries, k, at);
            assert(after[at] == entries[at]);
        }
        assert(after[entries.len() as int].0@ == key@);
    }
    assert forall|k: Seq<char>| map_of(after).contains_key(k) implies map_of(after)[k] == map_of(
        entries,
    ).insert(key@, value)[k] by {
        let at = choose|at: int| holds(after, k, at);
        assert(map_of(after)[after[at].0@] == after[at].1);
        if at < entries.len() {
            assert(entries[at] == after[at]);
        }
    }
    assert(map_of(after) =~= map_of(entries).insert(key@, value));
}

/// Without one of the entries, its binding is gone and the others stand.
proof fn lemma_removed<V>(entries: Seq<(String, V)>, at: int)
    requires
        distinct(entries),
        0 <= at < entries.len(),
    ensures
        distinct(entries.remove(at)),
        map_of(entries.remove(at)) == map_of(entries).remove(entries[at].0@),
{
    let after = entries.remove(at);
    let key = entries[at].0@;
    lemma_map_of(entries);
    assert forall|i: int| 0 <= i < after.len() implies #[trigger] after[i] == entries[if i < at {
        i
    } else {
        i + 1
    }] by {}
    assert(distinct(after));
    lemma_map_of(after);
    assert forall|k: Seq<char>| map_of(after).contains_key(k) == map_of(entries).remove(
        key,
    ).contains_key(k) by {
        if map_of(after).contains_key(k) {
            let i = choose|i: int| holds(after, k, i);
            let j = if i < at {
                i
            } else {
                i + 1
            };
            assert(after[i] == entries[j]);
        }
        if map_of(entries).contains_key(k) && k != key {
            let j = choose|j: int| holds(entries, k, j);
            let i = if j < at {
                j
            } else {
                j - 1
            };
            assert(after[i] == entries[j]);
        }
    }
    assert forall|k: Seq<char>| map_of(after).contains_key(k) implies map_of(after)[k] == map_of(
        entries,
    ).remove(key)[k] by {
        let i = choose|i: int| holds(after, k, i);
        let j = if i < at {
            i
        } else {
            i + 1
        };
        assert(after[i] == entries[j]);
        assert(map_of(after)[after[i].0@] == after[i].1);
    }
    assert(map_of(after) =~= map_of(entries).remove(key));
}

impl<V> Table<V> {
    /// No text occurs twice in the table.
    #[verifier::type_invariant]
    spec fn wf(&self) -> bool {
        distinct(self.entries@)
    }

    /// A table with nothing in it.
    pub fn new() -> (table: Self)
        ensures
            table@ == Map::<Seq<char>, V>::empty(),
    {
        let table = Table { entries: Vec::new() };
        proof {
            lemma_map_of(table.entries@);
        }
        assert(table@ =~= Map::<Seq<char>, V>::empty());
        table
    }

    /// How many values the table holds.
    pub fn len(&self) -> (len: usize)
        ensures
            len == self@.len(),
            self@.dom().finite(),
    {
        proof {
            use_type_invariant(self);
            lemma_map_of(self.entries@);
        }
        self.entries.len()
    }

    /// Where the entry under `key` stands.
    fn position(&self, key: &str) -> (at: Option<usize>)
        ensures
            match at {
                Some(at) => holds(self.entries@, key@, at as int) && self@.contains_key(key@)
                    && self@[key@] == self.entries@[at as int].1,
                None => !self@.contains_key(key@),
            },
    {
        proof {
            use_type_invariant(self);
            lemma_map_of(self.entries@);
        }
        let mut at: usize = 0;
        while at < self.entries.len()
            invariant
                distinct(self.entries@),
                at <= self.entries@.len(),
                forall|i: int| 0 <= i < at ==> (#[trigger] self.entries@[i]).0@ != key@,
            decreases self.entries@.len() - at,
        {
            if text::same_text(self.entries[at].0.as_str(), key) {
                proof {
                    lemma_map_of(self.entries@);
                }
                return Some(at);
            }
            at = at + 1;
        }
        None
    }

    /// The value under `key`.
    pub fn get(&self, key: &str) -> (value: Option<&V>)
        ensures
            match value {
                Some(value) => self@.contains_key(key@) && self@[key@] == *value,
                None => !self@.contains_key(key@),
            },
    {
        match self.position(key) {
            Some(at) => Some(&self.entries[at].1),
            None => None,
        }
    }

    /// Whether a value stands under `key`.
    pub fn contains_key(&self, key: &str) -> (contains: bool)
        ensures
            contains == self@.contains_key(key@),
    {
        match self.position(key) {
            Some(_) => true,
            None => false,
        }
    }

    /// The entries of the table, which is left empty.
    fn take(&mut self) -> (entries: Vec<(String, V)>)
        ensures
            entries@ == old(self).entries@,
            distinct(entries@),
    {
        proof {
            use_type_invariant(&*self);
        }
        let mut entries: Vec<(String, V)> = Vec::new();
        std::mem::swap(&mut entries, &mut self.entries);
        entries
    }

    /// Take out the value under `key`.
    pub fn remove(&mut self, key: &str) -> (value: Option<V>)
        ensures
            final(self)@ == old(self)@.remove(key@),
            match value {
                Some(value) => old(self)@.contains_key(key@) && old(self)@[key@] == value,
                None => !old(self)@.contains_key(key@),
            },
    {
        match self.position(key) {
            Some(at) => {
                let mut entries = self.take();
                proof {
                    lemma_removed(entries@, at as int);
                }
                let (_, value) = entries.remove(at);
                self.entries = entries;
                Some(value)
            },
            None => {
                assert(self@.remove(key@) =~= self@);
                None
            },
        }
    }

    /// Put `value` under `key`, in place of what stood there.
    pub fn insert(&mut self, key: String, value: V)
        ensures
            final(self)@ == old(self)@.insert(key@, value),
    {
        let _ = self.remove(key.as_str());
        let mut entries = self.take();
        proof {
            lemma_pushed(entries@, key, value);
        }
        assert(old(self)@.remove(key@).insert(key@, value) =~= old(self)@.insert(key@, value));
        entries.push((key, value));
        self.entries = entries;
    }
}

/// Whether `age` counted `a` no younger than `b`.
pub open spec fn no_younger<V, F: Fn(&V) -> u64>(age: F, a: V, b: V) -> bool {
    exists|x: u64, y: u64|
        x <= y && #[trigger] age.ensures((&a,), x) && #[trigger] age.ensures((&b,), y)
}

/// Whether `age` counted `value` at `lowest` or more.
spec fn counted_from<V, F: Fn(&V) -> u64>(age: F, value: V, lowest: u64) -> bool {
    exists|y: u64| lowest <= y && #[trigger] age.ensures((&value,), y)
}

/// Where the oldest entry stands.
fn oldest<V, F: Fn(&V) -> u64>(entries: &Vec<(String, V)>, age: &F) -> (at: usize)
    requires
        entries@.len() > 0,
        forall|i: int| 0 <= i < entries@.len() ==> age.requires((&(#[trigger] entries@[i]).1,)),
    ensures
        at < entries@.len(),
        forall|i: int|
            0 <= i < entries@.len() ==> no_younger(
                *age,
                entries@[at as int].1,
                (#[trigger] entries@[i]).1,
            ),
{
    let mut at: usize = 0;
    let mut lowest: u64 = age(&entries[0].1);
    let mut i: usize = 1;
    assert(counted_from(*age, entries@[0].1, lowest));
    while i < entries.len()
        invariant
            at < i <= entries@.len(),
            forall|j: int| 0 <= j < entries@.len() ==> age.requires((&(#[trigger] entries@[j]).1,)),
            age.ensures((&entries@[at as int].1,), lowest),
            forall|j: int|
                0 <= j < i ==> counted_from(*age, (#[trigger] entries@[j]).1, lowest),
        decreases entries@.len() - i,
    {
        let other = age(&entries[i].1);
        let ghost passed = lowest;
        if other < lowest {
            at = i;
            lowest = other;
        }
        assert forall|j: int| 0 <= j < i + 1 implies counted_from(
            *age,
            (#[trigger] entries@[j]).1,
            lowest,
        ) by {
            if j < i {
                assert(counted_from(*age, entries@[j].1, passed));
            } else {
                assert(age.ensures((&entries@[j].1,), other));
            }
        }
        i = i + 1;
    }
    assert forall|j: int| 0 <= j < entries@.len() implies no_younger(
        *age,
        entries@[at as int].1,
        (#[trigger] entries@[j]).1,
    ) by {
        assert(counted_from(*age, entries@[j].1, lowest));
    }
    at
}

/// Drop the oldest entry of `map` while it holds [`MOST_OPEN`] or more.
///
/// What is left fits under the bound, is as it was, and none of it was
/// counted older by `age` than anything that was dropped; nothing is dropped
/// that need not be.
pub fn make_room<V, F: Fn(&V) -> u64>(map: &mut Table<V>, age: F)
    requires
        forall|key: Seq<char>| #[trigger]
            old(map)@.contains_key(key) ==> age.requires((&old(map)@[key],)),
    ensures
        final(map)@.submap_of(old(map)@),
        old(map)@.len() < MOST_OPEN ==> final(map)@ == old(map)@,
        old(map)@.len() >= MOST_OPEN ==> final(map)@.len() == MOST_OPEN - 1,
        forall|dropped: Seq<char>, kept: Seq<char>| #[trigger]
            old(map)@.contains_key(dropped) && !final(map)@.contains_key(dropped)
                && #[trigger] final(map)@.contains_key(kept) ==> no_younger(
                age,
                old(map)@[dropped],
                old(map)@[kept],
            ),
{
    let ghost whole = map@;
    let mut entries = map.take();
    proof {
        lemma_map_of(entries@);
    }
    while entries.len() >= MOST_OPEN
        invariant
            distinct(entries@),
            forall|key: Seq<char>| #[trigger]
                whole.contains_key(key) ==> age.requires((&whole[key],)),
            map_of(entries@).submap_of(whole),
            entries@.len() == map_of(entries@).len(),
            whole.len() < MOST_OPEN ==> map_of(entries@) == whole,
            whole.len() >= MOST_OPEN ==> entries@.len() >= MOST_OPEN - 1,
            forall|dropped: Seq<char>, kept: Seq<char>| #[trigger]
                whole.contains_key(dropped) && !map_of(entries@).contains_key(dropped)
                    && #[trigger] map_of(entries@).contains_key(kept) ==> no_younger(
                    age,
                    whole[dropped],
                    whole[kept],
                ),
        decreases entries@.len(),
    {
        let ghost before = entries@;
        proof {
            lemma_map_of(before);
            assert forall|i: int| 0 <= i < before.len() implies age.requires(
                (&(#[trigger] before[i]).1,),
            ) by {
                assert(map_of(before).contains_key(before[i].0@));
                assert(whole.contains_key(before[i].0@));
            }
        }
        let at = oldest(&entries, &age);
        proof {
            lemma_removed(before, at as int);
        }
        let _ = entries.remove(at);
        proof {
            lemma_map_of(entries@);
            let gone = before[at as int].0@;
            assert forall|dropped: Seq<char>, kept: Seq<char>| #[trigger]
                whole.contains_key(dropped) && !map_of(entries@).contains_key(dropped)
                    && #[trigger] map_of(entries@).contains_key(kept) implies no_younger(
                age,
                whole[dropped],
                whole[kept],
            ) by {
                assert(map_of(before).contains_key(kept));
                if map_of(before).contains_key(dropped) {
                    assert(dropped == gone);
                    let i = choose|i: int| holds(before, kept, i);
                    assert(no_younger(age, before[at as int].1, before[i].1));
                    assert(map_of(before)[before[at as int].0@] == before[at as int].1);
                    assert(map_of(before)[before[i].0@] == before[i].1);
                    assert(whole.contains_key(kept));
                }
            }
        }
    }
    map.entries = entries;
}

} // verus!
