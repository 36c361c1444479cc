//! Maps from event type and state key to a value, listed in the order of their
//! keys.

use crate::order::{before, compare, lemma_before_irreflexive, lemma_before_total, lemma_before_transitive, Relation};
use vstd::prelude::*;

verus! {

/// An event type and a state key.
pub type StateKey = (Seq<char>, Seq<char>);

/// Whether one key comes strictly before another: by event type, then by state
/// key.
pub open spec fn key_before(a: StateKey, b: StateKey) -> bool {
    before(a.0, b.0) || (a.0 == b.0 && before(a.1, b.1))
}

pub proof fn lemma_key_order(a: StateKey, b: StateKey)
    ensures
        a == b || key_before(a, b) || key_before(b, a),
        key_before(a, b) ==> a != b && !key_before(b, a),
{
    lemma_before_total(a.0, b.0);
    lemma_before_total(b.0, a.0);
    lemma_before_total(a.1, b.1);
    lemma_before_total(b.1, a.1);
}

pub proof fn lemma_key_transitive(a: StateKey, b: StateKey, c: StateKey)
    requires
        key_before(a, b),
        key_before(b, c),
    ensures
        key_before(a, c),
{
    lemma_before_irreflexive(a.0);
    if before(a.0, b.0) && before(b.0, c.0) {
        lemma_before_transitive(a.0, b.0, c.0);
    }
    if a.0 == b.0 && b.0 == c.0 {
        lemma_before_transitive(a.1, b.1, c.1);
    }
}

/// One entry of a [`StateMap`].
pub struct StateEntry<V> {
    pub event_type: String,
    pub state_key: String,
    pub value: V,
}

impl<V> StateEntry<V> {
    pub open spec fn key(self) -> StateKey {
        (self.event_type@, self.state_key@)
    }
}

/// A mapping of event type and state key to some value, usually an event id.
pub struct StateMap<V> {
    entries: Vec<StateEntry<V>>,
}

/// The keys stand in strictly ascending order.
pub open spec fn ascending<V>(entries: Seq<StateEntry<V>>) -> bool {
    forall|i: int, j: int|
        0 <= i < j < entries.len() ==> key_before((#[trigger] entries[i]).key(), (#[trigger] entries[j]).key())
}

/// Whether some entry has the given key.
pub open spec fn lists<V>(entries: Seq<StateEntry<V>>, key: StateKey) -> bool {
    exists|i: int| 0 <= i < entries.len() && (#[trigger] entries[i]).key() == key
}

/// The place of a key among the entries.
pub open spec fn place<V>(entries: Seq<StateEntry<V>>, key: StateKey) -> int {
    choose|i: int| 0 <= i < entries.len() && (#[trigger] entries[i]).key() == key
}

/// What the entries map their keys to.
pub open spec fn entries_map<V>(entries: Seq<StateEntry<V>>) -> Map<StateKey, V> {
    Map::new(|key: StateKey| lists(entries, key), |key: StateKey| entries[place(entries, key)].value)
}

proof fn lemma_place<V>(entries: Seq<StateEntry<V>>, i: int)
    requires
        ascending(entries),
        0 <= i < entries.len(),
    ensures
        lists(entries, entries[i].key()),
        place(entries, entries[i].key()) == i,
        entries_map(entries)[entries[i].key()] == entries[i].value,
{
    let key = entries[i].key();
    assert(entries[i].key() == key);
    let k = place(entries, key);
    assert(0 <= k < entries.len() && entries[k].key() == key);
    lemma_key_order(key, key);
    if k < i {
        assert(key_before(entries[k].key(), entries[i].key()));
    } else if i < k {
        assert(key_before(entries[i].key(), entries[k].key()));
    }
}

impl<V> View for StateMap<V> {
    type V = Map<StateKey, V>;

    closed spec fn view(&self) -> Map<StateKey, V> {
        entries_map(self.entries@)
    }
}

impl<V> StateMap<V> {
    /// The entries in the order of their keys.
    pub closed spec fn listed(self) -> Seq<StateEntry<V>> {
        self.entries@
    }

    pub open spec fn wf(self) -> bool {
        ascending(self.listed())
    }

    /// What the map holds is what its entries say.
    pub proof fn lemma_listed(self)
        ensures
            self@ == entries_map(self.listed()),
    {
    }

    /// The map holds exactly the entries that it lists.
    pub proof fn lemma_entry(self, i: int)
        requires
            self.wf(),
            0 <= i < self.listed().len(),
        ensures
            self@.contains_key(self.listed()[i].key()),
            self@[self.listed()[i].key()] == self.listed()[i].value,
    {
        lemma_place(self.listed(), i);
    }

    pub fn new() -> (map: StateMap<V>)
        ensures
            map.wf(),
            map@ == Map::<StateKey, V>::empty(),
            map.listed() == Seq::<StateEntry<V>>::empty(),
    {
        let map = StateMap { entries: Vec::new() };
        assert(map@ =~= Map::<StateKey, V>::empty());
        map
    }

    pub fn len(&self) -> (n: usize)
        ensures
            n == self.listed().len(),
    {
        self.entries.len()
    }

    pub fn is_empty(&self) -> (empty: bool)
        ensures
            empty == (self.listed().len() == 0),
            empty == (self@ =~= Map::<StateKey, V>::empty()),
    {
        let empty = self.entries.len() == 0;
        proof {
            if !empty {
                assert(self.entries@[0].key() == self.entries@[0].key());
                assert(self@.contains_key(self.entries@[0].key()));
            }
        }
        empty
    }

    pub fn entry(&self, i: usize) -> (entry: &StateEntry<V>)
        requires
            i < self.listed().len(),
        ensures
            *entry == self.listed()[i as int],
    {
        &self.entries[i]
    }

    /// The first place whose key does not come before the given one, and
    /// whether that key stands there.
    fn find(&self, event_type: &str, state_key: &str) -> (r: (usize, bool))
        requires
            self.wf(),
        ensures
            r.0 <= self.entries@.len(),
            forall|i: int| 0 <= i < r.0 ==> key_before((#[trigger] self.entries@[i]).key(), (event_type@, state_key@)),
            r.1 ==> r.0 < self.entries@.len() && self.entries@[r.0 as int].key() == (event_type@, state_key@),
            !r.1 ==> forall|i: int|
                r.0 <= i < self.entries@.len() ==> key_before((event_type@, state_key@), (#[trigger] self.entries@[i]).key()),
    {
        let ghost key = (event_type@, state_key@);
        let mut i: usize = 0;
        while i < self.entries.len()
            invariant
                self.wf(),
                key == (event_type@, state_key@),
                i <= self.entries@.len(),
                forall|k: int| 0 <= k < i ==> key_before((#[trigger] self.entries@[k]).key(), key),
            decreases self.entries.len() - i,
        {
            let entry = &self.entries[i];
            let by_type = compare(entry.event_type.as_str(), event_type);
            let r = if by_type == Relation::Same {
                compare(entry.state_key.as_str(), state_key)
            } else {
                by_type
            };
            proof {
                lemma_before_irreflexive(event_type@);
            }
            if r == Relation::Same {
                return (i, true);
            }
            if r == Relation::After {
                proof {
                    assert(key_before(key, self.entries@[i as int].key()));
                    assert forall|k: int| i <= k < self.entries@.len() implies key_before(
                        key,
                        (#[trigger] self.entries@[k]).key(),
                    ) by {
                        if k > i {
                            lemma_key_transitive(key, self.entries@[i as int].key(), self.entries@[k].key());
                        }
                    }
                }
                return (i, false);
            }
            i += 1;
        }
        (i, false)
    }

    pub fn get(&self, event_type: &str, state_key: &str) -> (value: Option<&V>)
        requires
            self.wf(),
        ensures
            value is Some <==> self@.contains_key((event_type@, state_key@)),
            value matches Some(v) ==> *v == self@[(event_type@, state_key@)],
    {
        let (i, found) = self.find(event_type, state_key);
        if found {
            proof {
                lemma_place(self.entries@, i as int);
            }
            Some(&self.entries[i].value)
        } else {
            proof {
                lemma_absent(self.entries@, i as int, (event_type@, state_key@));
            }
            None
        }
    }

    /// Maps a key to a value, in place of what it was mapped to.
    pub fn insert(&mut self, event_type: String, state_key: String, value: V)
        requires
            old(self).wf(),
        ensures
            final(self).wf(),
            final(self)@ == old(self)@.insert((event_type@, state_key@), value),
    {
        let ghost old_entries = self.entries@;
        let ghost key = (event_type@, state_key@);
        let (i, found) = self.find(event_type.as_str(), state_key.as_str());
        let entry = StateEntry { event_type, state_key, value };
        let ghost added = entry;
        if found {
            self.entries.set(i, entry);
            proof {
                lemma_replaced(old_entries, i as int, added);
            }
        } else {
            self.entries.insert(i, entry);
            proof {
                lemma_inserted(old_entries, i as int, added);
            }
        }
    }
}

proof fn lemma_absent<V>(entries: Seq<StateEntry<V>>, at: int, key: StateKey)
    requires
        0 <= at <= entries.len(),
        forall|i: int| 0 <= i < at ==> key_before((#[trigger] entries[i]).key(), key),
        forall|i: int| at <= i < entries.len() ==> key_before(key, (#[trigger] entries[i]).key()),
    ensures
        !lists(entries, key),
{
    lemma_key_order(key, key);
}

proof fn lemma_replaced<V>(entries: Seq<StateEntry<V>>, at: int, entry: StateEntry<V>)
    requires
        ascending(entries),
        0 <= at < entries.len(),
        entries[at].key() == entry.key(),
    ensures
        ascending(entries.update(at, entry)),
        entries_map(entries.update(at, entry)) == entries_map(entries).insert(entry.key(), entry.value),
{
    let next = entries.update(at, entry);
    assert(ascending(next)) by {
        assert forall|i: int, j: int| 0 <= i < j < next.len() implies key_before(
            (#[trigger] next[i]).key(),
            (#[trigger] next[j]).key(),
        ) by {
            assert(key_before(entries[i].key(), entries[j].key()));
        }
    }
    let m = entries_map(entries).insert(entry.key(), entry.value);
    assert forall|key: StateKey| #[trigger] entries_map(next).contains_key(key) == m.contains_key(key) && (m.contains_key(key)
        ==> entries_map(next)[key] == m[key]) by {
        lemma_place(next, at);
        if lists(next, key) {
            let i = place(next, key);
            assert(entries[i].key() == key);
            lemma_place(next, i);
            lemma_place(entries, i);
        }
        if lists(entries, key) {
            let i = place(entries, key);
            assert(next[i].key() == key);
        }
        assert(next[at].key() == entry.key());
    }
    assert(entries_map(next) =~= m);
}

proof fn lemma_inserted<V>(entries: Seq<StateEntry<V>>, at: int, entry: StateEntry<V>)
    requires
        ascending(entries),
        0 <= at <= entries.len(),
        forall|i: int| 0 <= i < at ==> key_before((#[trigger] entries[i]).key(), entry.key()),
        forall|i: int| at <= i < entries.len() ==> key_before(entry.key(), (#[trigger] entries[i]).key()),
    ensures
        ascending(entries.insert(at, entry)),
        entries_map(entries.insert(at, entry)) == entries_map(entries).insert(entry.key(), entry.value),
{
    let next = entries.insert(at, entry);
    assert(ascending(next)) by {
        assert forall|i: int, j: int| 0 <= i < j < next.len() implies key_before(
            (#[trigger] next[i]).key(),
            (#[trigger] next[j]).key(),
        ) by {
            let oi = if i < at { i } else { i - 1 };
            let oj = if j < at { j } else { j - 1 };
            if i != at {
                assert(next[i] == entries[oi]);
            }
            if j != at {
                assert(next[j] == entries[oj]);
            }
            if i != at && j != at {
                assert(key_before(entries[oi].key(), entries[oj].key()));
            }
        }
    }
    let m = entries_map(entries).insert(entry.key(), entry.value);
    assert forall|key: StateKey| #[trigger] entries_map(next).contains_key(key) == m.contains_key(key) && (m.contains_key(key)
        ==> entries_map(next)[key] == m[key]) by {
        lemma_absent(entries, at, entry.key());
        assert(next[at] == entry);
        lemma_place(next, at);
        if lists(next, key) {
            let i = place(next, key);
            lemma_place(next, i);
            if i != at {
                let o = if i < at { i } else { i - 1 };
                assert(next[i] == entries[o]);
                lemma_place(entries, o);
            }
        }
        if lists(entries, key) {
            let o = place(entries, key);
            let i = if o < at { o } else { o + 1 };
            assert(next[i] == entries[o]);
            assert(next[i].key() == key);
        }
    }
    assert(entries_map(next) =~= m);
}

/// What a key is mapped to reads back, and no other key is touched.
pub proof fn lemma_a_value_reads_back<V>(
    map: &mut StateMap<V>,
    event_type: String,
    state_key: String,
    value: V,
    other_type: &str,
    other_key: &str,
    before: Option<&V>,
    after: Option<&V>,
)
    requires
        old(map).wf(),
        call_ensures(StateMap::<V>::get, (&*old(map), other_type, other_key), before),
        call_ensures(StateMap::<V>::insert, (map, event_type, state_key, value), ()),
        call_ensures(StateMap::<V>::get, (&*final(map), other_type, other_key), after),
    ensures
        other_type@ == event_type@ && other_key@ == state_key@ ==> after == Some(&value),
        other_type@ != event_type@ || other_key@ != state_key@ ==> (after is Some <==> before is Some),
        (other_type@ != event_type@ || other_key@ != state_key@) && before is Some ==> *after->Some_0 == *before->Some_0,
        final(map).wf(),
{
}

/// A new map maps nothing.
pub proof fn lemma_a_new_map_is_empty<V>(
    map: StateMap<V>,
    event_type: &str,
    state_key: &str,
    value: Option<&V>,
    n: usize,
    empty: bool,
)
    requires
        call_ensures(StateMap::<V>::new, (), map),
        call_ensures(StateMap::<V>::get, (&map, event_type, state_key), value),
        call_ensures(StateMap::<V>::len, (&map,), n),
        call_ensures(StateMap::<V>::is_empty, (&map,), empty),
    ensures
        value is None,
        n == 0,
        empty,
{
}

/// A map lists what it maps: each entry reads back under its key, a map is empty
/// exactly where it lists nothing, and of two keys that it lists the earlier has the
/// lesser type, or the same type and the lesser state key.
pub proof fn lemma_listed_entries_read_back<V>(
    map: StateMap<V>,
    n: usize,
    empty: bool,
    i: usize,
    j: usize,
    entry: &StateEntry<V>,
    later: &StateEntry<V>,
    event_type: &str,
    state_key: &str,
    value: Option<&V>,
)
    requires
        map.wf(),
        call_ensures(StateMap::<V>::len, (&map,), n),
        call_ensures(StateMap::<V>::is_empty, (&map,), empty),
        i < j < n,
        call_ensures(StateMap::<V>::entry, (&map, i), entry),
        call_ensures(StateMap::<V>::entry, (&map, j), later),
        call_ensures(StateMap::<V>::get, (&map, event_type, state_key), value),
    ensures
        !empty,
        event_type@ == entry.event_type@ && state_key@ == entry.state_key@ ==> value == Some(&entry.value),
        before(entry.event_type@, later.event_type@) || (entry.event_type@ == later.event_type@ && before(
            entry.state_key@,
            later.state_key@,
        )),
{
    map.lemma_entry(i as int);
    assert(key_before(map.listed()[i as int].key(), map.listed()[j as int].key()));
}

} // verus!
