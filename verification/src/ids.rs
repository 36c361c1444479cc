//! Sets of event ids.

use crate::order::{before, compare, lemma_before_total, lemma_before_transitive, Relation};
use vstd::hash_set::StringHashSet;
use vstd::prelude::*;

verus! {

/// The texts of a list of ids.
pub open spec fn texts(ids: Seq<String>) -> Seq<Seq<char>> {
    ids.map_values(|id: String| id@)
}

/// Whether each text comes strictly before the next ones.
pub open spec fn ascending(list: Seq<Seq<char>>) -> bool {
    forall|i: int, j: int| 0 <= i < j < list.len() ==> before(#[trigger] list[i], #[trigger] list[j])
}

/// The members of a set in ascending order.
pub open spec fn listing(set: Set<Seq<char>>) -> Seq<Seq<char>> {
    choose|list: Seq<Seq<char>>| ascending(list) && #[trigger] list.to_set() == set
}

proof fn lemma_last_is_greatest(a: Seq<Seq<char>>, b: Seq<Seq<char>>)
    requires
        ascending(a),
        ascending(b),
        a.to_set() == b.to_set(),
        a.len() > 0,
    ensures
        b.len() > 0,
        a.last() == b.last(),
{
    assert(a.to_set().contains(a.last()));
    assert(b.to_set().contains(a.last()));
    let j = choose|j: int| 0 <= j < b.len() && b[j] == a.last();
    assert(b.to_set().contains(b.last()));
    assert(a.to_set().contains(b.last()));
    let k = choose|k: int| 0 <= k < a.len() && a[k] == b.last();
    if j < b.len() - 1 {
        assert(before(b[j], b[b.len() - 1]));
        lemma_before_total(b[j], b.last());
        if k < a.len() - 1 {
            assert(before(a[k], a[a.len() - 1]));
        }
    }
}

proof fn lemma_without_last(a: Seq<Seq<char>>)
    requires
        ascending(a),
        a.len() > 0,
    ensures
        ascending(a.drop_last()),
        a.drop_last().to_set() == a.to_set().remove(a.last()),
{
    let front = a.drop_last();
    assert forall|i: int, j: int| 0 <= i < j < front.len() implies before(#[trigger] front[i], #[trigger] front[j]) by {
        assert(before(a[i], a[j]));
    }
    assert forall|x: Seq<char>| front.to_set().contains(x) == a.to_set().remove(a.last()).contains(x) by {
        if front.contains(x) {
            let i = choose|i: int| 0 <= i < front.len() && front[i] == x;
            assert(a[i] == x);
            assert(before(a[i], a[a.len() - 1]));
            lemma_before_total(a[i], a.last());
        }
        if a.contains(x) && x != a.last() {
            let i = choose|i: int| 0 <= i < a.len() && a[i] == x;
            assert(front[i] == x);
        }
    }
    assert(front.to_set() =~= a.to_set().remove(a.last()));
}

proof fn lemma_one_listing(a: Seq<Seq<char>>, b: Seq<Seq<char>>)
    requires
        ascending(a),
        ascending(b),
        a.to_set() == b.to_set(),
    ensures
        a == b,
    decreases a.len(),
{
    if a.len() > 0 {
        lemma_last_is_greatest(a, b);
        lemma_without_last(a);
        lemma_without_last(b);
        lemma_one_listing(a.drop_last(), b.drop_last());
        assert(a =~= a.drop_last().push(a.last()));
        assert(b =~= b.drop_last().push(b.last()));
    } else if b.len() > 0 {
        lemma_last_is_greatest(b, a);
    } else {
        assert(a =~= b);
    }
}

/// There is one way to list a set in ascending order.
pub proof fn lemma_listing(list: Seq<Seq<char>>)
    requires
        ascending(list),
    ensures
        listing(list.to_set()) == list,
{
    assert(list.to_set() == list.to_set());
    lemma_one_listing(listing(list.to_set()), list);
}

/// Puts an id in its place among ids in ascending order, where it is not among
/// them yet.
pub(crate) fn insert_ascending(ids: &mut Vec<String>, id: String)
    requires
        ascending(texts(old(ids)@)),
    ensures
        ascending(texts(final(ids)@)),
        texts(final(ids)@).to_set() == texts(old(ids)@).to_set().insert(id@),
{
    let ghost list = texts(ids@);
    let mut i: usize = 0;
    while i < ids.len()
        invariant
            i <= ids.len(),
            list == texts(ids@),
            ids@ == old(ids)@,
            ascending(list),
            forall|k: int| 0 <= k < i ==> before(#[trigger] list[k], id@),
        ensures
            i < list.len() ==> before(id@, list[i as int]),
        decreases ids.len() - i,
    {
        let r = compare(ids[i].as_str(), id.as_str());
        assert(ids@[i as int]@ == list[i as int]);
        if r == Relation::Same {
            assert(list.to_set().contains(list[i as int]));
            assert(list.to_set() =~= list.to_set().insert(id@));
            return;
        }
        if r == Relation::After {
            break;
        }
        i += 1;
    }
    let ghost text = id@;
    ids.insert(i, id);
    proof {
        let next = texts(ids@);
        assert(next =~= list.insert(i as int, text));
        assert(i < list.len() ==> before(text, list[i as int]));
        assert forall|a: int, b: int| 0 <= a < b < next.len() implies before(#[trigger] next[a], #[trigger] next[b]) by {
            let oa = if a < i { a } else { a - 1 };
            let ob = if b < i { b } else { b - 1 };
            if a != i && b != i {
                assert(before(list[oa], list[ob]));
            } else if a == i {
                if ob > i {
                    lemma_before_transitive(text, list[i as int], list[ob]);
                }
            }
        }
        assert forall|x: Seq<char>| next.to_set().contains(x) == list.to_set().insert(text).contains(x) by {
            if next.contains(x) {
                let k = choose|k: int| 0 <= k < next.len() && next[k] == x;
                if k != i {
                    let o = if k < i { k } else { k - 1 };
                    assert(list[o] == x);
                }
            }
            if list.contains(x) {
                let o = choose|o: int| 0 <= o < list.len() && list[o] == x;
                let k = if o < i { o } else { o + 1 };
                assert(next[k] == x);
            }
            assert(next[i as int] == text);
        }
        assert(next.to_set() =~= list.to_set().insert(text));
    }
}

/// A set of event ids, which lists its members in the order in which they came.
pub struct IdSet {
    index: StringHashSet,
    members: Vec<String>,
}

impl View for IdSet {
    type V = Set<Seq<char>>;

    closed spec fn view(&self) -> Set<Seq<char>> {
        self.index@
    }
}

impl IdSet {
    /// The members, each once, in the order in which they came.
    pub closed spec fn listed(self) -> Seq<Seq<char>> {
        texts(self.members@)
    }

    /// The list holds each member of the set exactly once.
    pub open spec fn wf(self) -> bool {
        &&& self.listed().no_duplicates()
        &&& self@ == self.listed().to_set()
    }

    /// The members can be counted.
    pub proof fn lemma_listed_len(self)
        ensures
            self.listed().len() <= usize::MAX,
    {
        assert(self.members.len() == self.members@.len());
    }

    pub fn new() -> (set: IdSet)
        ensures
            set.wf(),
            set@ == Set::<Seq<char>>::empty(),
            set.listed() == Seq::<Seq<char>>::empty(),
    {
        let set = IdSet { index: StringHashSet::new(), members: Vec::new() };
        assert(set.listed() =~= Seq::<Seq<char>>::empty());
        assert(set@ =~= set.listed().to_set());
        set
    }

    pub fn contains(&self, id: &str) -> (found: bool)
        ensures
            found == self@.contains(id@),
    {
        self.index.contains(id)
    }

    pub fn len(&self) -> (n: usize)
        requires
            self.wf(),
        ensures
            n == self@.len(),
    {
        proof {
            self.listed().unique_seq_to_set();
        }
        self.members.len()
    }

    pub fn member(&self, i: usize) -> (id: &String)
        requires
            i < self.listed().len(),
        ensures
            id@ == self.listed()[i as int],
    {
        &self.members[i]
    }

    /// Adds an id, and says whether it was new.
    pub fn insert(&mut self, id: &str) -> (new: bool)
        requires
            old(self).wf(),
        ensures
            final(self).wf(),
            final(self)@ == old(self)@.insert(id@),
            new == !old(self)@.contains(id@),
            final(self).listed() == if new {
                old(self).listed().push(id@)
            } else {
                old(self).listed()
            },
    {
        let ghost before = self.listed();
        if self.index.contains(id) {
            assert(self@ =~= old(self)@.insert(id@));
            return false;
        }
        self.index.insert(id.to_owned());
        self.members.push(id.to_owned());
        proof {
            assert(self.listed() =~= before.push(id@));
            assert(!before.contains(id@)) by {
                if before.contains(id@) {
                    assert(before.to_set().contains(id@));
                }
            }
            assert forall|x: Seq<char>| self@.contains(x) == self.listed().to_set().contains(x) by {
                if self.listed().contains(x) && x != id@ {
                    let i = choose|i: int| 0 <= i < self.listed().len() && self.listed()[i] == x;
                    assert(before[i] == x);
                }
                if before.contains(x) {
                    let i = choose|i: int| 0 <= i < before.len() && before[i] == x;
                    assert(self.listed()[i] == x);
                }
                assert(self.listed()[before.len() as int] == id@);
                assert(old(self)@.contains(x) == before.to_set().contains(x));
            }
            assert(self@ =~= self.listed().to_set());
        }
        true
    }

    /// The number of members that another set does not hold.
    pub fn count_missing_from(&self, other: &IdSet) -> (n: usize)
        requires
            self.wf(),
        ensures
            n == self@.difference(other@).len(),
    {
        let mut n: usize = 0;
        let mut i: usize = 0;
        assert(self.listed().take(0).to_set().difference(other@) =~= Set::<Seq<char>>::empty());
        while i < self.members.len()
            invariant
                self.wf(),
                i <= self.members.len(),
                self.listed().len() == self.members.len(),
                n <= i,
                self.listed().take(i as int).to_set().difference(other@).finite(),
                n == self.listed().take(i as int).to_set().difference(other@).len(),
            decreases self.members.len() - i,
        {
            let ghost prefix = self.listed().take(i as int);
            let ghost id = self.listed()[i as int];
            proof {
                let next = self.listed().take(i + 1);
                assert(next =~= prefix.push(id));
                assert(!prefix.contains(id));
                assert forall|x: Seq<char>| next.to_set().contains(x) == prefix.to_set().insert(id).contains(x) by {
                    if prefix.contains(x) {
                        let k = choose|k: int| 0 <= k < prefix.len() && prefix[k] == x;
                        assert(next[k] == x);
                    }
                    assert(next[i as int] == id);
                }
                assert(next.to_set() =~= prefix.to_set().insert(id));
                if other@.contains(id) {
                    assert(next.to_set().difference(other@) =~= prefix.to_set().difference(other@));
                } else {
                    assert(next.to_set().difference(other@) =~= prefix.to_set().difference(other@).insert(id));
                }
            }
            if !other.contains(self.members[i].as_str()) {
                n += 1;
            }
            i += 1;
        }
        assert(self.listed().take(i as int) =~= self.listed());
        n
    }
}

/// The texts of a list of ids are those of each id, in its place.
pub proof fn lemma_texts_keep_places(ids: Seq<String>)
    ensures
        texts(ids).len() == ids.len(),
        forall|i: int| 0 <= i < ids.len() ==> #[trigger] texts(ids)[i] == ids[i]@,
{
}

/// Of ids in ascending order none comes before an earlier one, and none is there
/// twice.
pub proof fn lemma_ascending_means_in_order(list: Seq<Seq<char>>, i: int, j: int)
    requires
        ascending(list),
        0 <= i < j < list.len(),
    ensures
        before(list[i], list[j]),
        !before(list[j], list[i]),
        list[i] != list[j],
{
    lemma_before_total(list[i], list[j]);
}

/// What adding an id does: it is then held, everything else is as it was, and it is
/// new exactly where it was not held. Ids are listed in the order in which they
/// came.
pub proof fn lemma_an_added_id_is_held(set: &mut IdSet, id: &str, new: bool, other: &str, held: bool, found: bool)
    requires
        call_ensures(IdSet::contains, (&*old(set), other), held),
        call_ensures(IdSet::insert, (set, id), new),
        call_ensures(IdSet::contains, (&*final(set), other), found),
    ensures
        other@ == id@ ==> found,
        other@ != id@ ==> found == held,
        other@ == id@ ==> new == !held,
        new ==> final(set).listed() == old(set).listed().push(id@),
        !new ==> final(set).listed() == old(set).listed(),
{
}

/// A new set holds nothing and lists nothing.
pub proof fn lemma_a_new_set_is_empty(set: IdSet, id: &str, found: bool, n: usize)
    requires
        call_ensures(IdSet::new, (), set),
        call_ensures(IdSet::contains, (&set, id), found),
        call_ensures(IdSet::len, (&set,), n),
    ensures
        !found,
        n == 0,
        set.listed().len() == 0,
{
}

/// A set lists as many ids as it has, each of which it holds.
pub proof fn lemma_listed_ids_are_held(set: IdSet, n: usize, i: usize, id: &String, text: &str, found: bool)
    requires
        set.wf(),
        call_ensures(IdSet::len, (&set,), n),
        i < n,
        call_ensures(IdSet::member, (&set, i), id),
        call_ensures(IdSet::contains, (&set, text), found),
    ensures
        n == set.listed().len(),
        text@ == id@ ==> found,
{
    set.listed().unique_seq_to_set();
    assert(set.listed().contains(set.listed()[i as int]));
}

/// How many ids another set lacks: together with those that both hold, all of them.
pub proof fn lemma_missing_and_shared_ids_are_all(set: IdSet, other: IdSet, missing: usize, n: usize)
    requires
        set.wf(),
        call_ensures(IdSet::count_missing_from, (&set, &other), missing),
        call_ensures(IdSet::len, (&set,), n),
    ensures
        missing + set@.intersect(other@).len() == n,
        set@.subset_of(other@) ==> missing == 0,
        set@.disjoint(other@) ==> missing == n,
{
    let lacking = set@.difference(other@);
    let shared = set@.intersect(other@);
    set.listed().unique_seq_to_set();
    assert(set@.finite());
    assert(lacking.union(shared) =~= set@);
    assert(lacking.disjoint(shared));
    vstd::set_lib::lemma_set_disjoint_lens(lacking, shared);
    if set@.subset_of(other@) {
        assert(lacking =~= Set::empty());
    }
    if set@.disjoint(other@) {
        assert(shared =~= Set::empty());
    }
}

} // verus!
