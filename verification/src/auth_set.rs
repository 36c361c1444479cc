//! Auth chains.

use itertools::Itertools;
use vstd::laws_cmp::obeys_cmp;
use vstd::prelude::*;
use vstd::std_specs::cmp::{OrdSpec, PartialEqSpec, PartialOrdSpec};
use vstd::std_specs::iter::IteratorSpec;

verus! {

/// Full recursive auth chain for one candidate state.
///
/// Values are distinct and immutable after construction. Their order is
/// arbitrary, and consumers must not depend on it.
#[derive(Clone)]
pub struct AuthSet<Id>(Vec<Id>);

/// Whether one id comes strictly before another in the order of its type.
pub open spec fn precedes<Id: Ord>(a: Id, b: Id) -> bool {
    a.cmp_spec(&b) is Less
}

/// The first of each run of equal items.
pub open spec fn first_of_runs<Id: PartialEq>(items: Seq<Id>) -> Seq<Id>
    decreases items.len(),
{
    if items.len() <= 1 {
        items
    } else {
        let kept = first_of_runs(items.drop_last());
        if kept.last().eq_spec(&items.last()) {
            kept
        } else {
            kept.push(items.last())
        }
    }
}

/// `itertools::Itertools::sorted_unstable`: the same items, none after one that
/// it precedes. The order is claimed only of a type whose comparison is known
/// to be a lawful total order, which [`Ord`] asks of every type.
#[verifier::external_body]
fn sorted_unstable<Id: Ord>(ids: Vec<Id>) -> (sorted: Vec<Id>)
    ensures
        sorted@.to_multiset() == ids@.to_multiset(),
        obeys_cmp::<Id>() ==> forall|i: int, j: int|
            0 <= i < j < sorted@.len() ==> !precedes(#[trigger] sorted@[j], #[trigger] sorted@[i]),
{
    ids.into_iter().sorted_unstable().collect()
}

/// `itertools::Itertools::dedup`: the first of each run of equal items. That is
/// claimed only of a type whose equality is known; of any other, that the items
/// handed out are among the given ones.
#[verifier::external_body]
fn dedup<Id: PartialEq>(ids: Vec<Id>) -> (kept: Vec<Id>)
    ensures
        Id::obeys_eq_spec() ==> kept@ == first_of_runs(ids@),
        kept@.to_set().subset_of(ids@.to_set()),
{
    ids.into_iter().dedup().collect()
}

/// An id equals itself.
proof fn lemma_equal_to_itself<Id: Ord>(a: Id)
    requires
        obeys_cmp::<Id>(),
    ensures
        a.eq_spec(&a),
        !precedes(a, a),
{
    reveal(vstd::laws_cmp::obeys_partial_cmp_spec_properties);
    reveal(vstd::laws_cmp::obeys_cmp_partial_ord);
    reveal(vstd::laws_cmp::obeys_cmp_ord);
    let c = a.partial_cmp_spec(&a);
    assert(c == Some(a.cmp_spec(&a)));
}

/// Of two ids that are not equal one precedes the other; equal ones precede
/// the same ids.
proof fn lemma_order<Id: Ord>(a: Id, b: Id, c: Id)
    requires
        obeys_cmp::<Id>(),
    ensures
        a.eq_spec(&b) || precedes(a, b) || precedes(b, a),
        precedes(a, b) && precedes(b, c) ==> precedes(a, c),
        precedes(a, b) && c.eq_spec(&b) ==> precedes(a, c),
        a.eq_spec(&b) == b.eq_spec(&a),
        a.eq_spec(&b) && b.eq_spec(&c) ==> a.eq_spec(&c),
{
    reveal(vstd::laws_cmp::obeys_partial_cmp_spec_properties);
    reveal(vstd::laws_cmp::obeys_cmp_partial_ord);
    reveal(vstd::laws_cmp::obeys_cmp_ord);
    reveal(vstd::laws_eq::obeys_eq_spec_properties);
    assert(a.partial_cmp_spec(&b) == Some(a.cmp_spec(&b)));
    assert(b.partial_cmp_spec(&a) == Some(b.cmp_spec(&a)));
    assert(b.partial_cmp_spec(&c) == Some(b.cmp_spec(&c)));
    assert(c.partial_cmp_spec(&b) == Some(c.cmp_spec(&b)));
    assert(a.partial_cmp_spec(&c) == Some(a.cmp_spec(&c)));
    assert(c.partial_cmp_spec(&a) == Some(c.cmp_spec(&a)));
}

/// What [`first_of_runs`] keeps of items in order: each once, in order.
proof fn lemma_first_of_runs<Id: Ord>(items: Seq<Id>)
    requires
        obeys_cmp::<Id>(),
        forall|i: int, j: int| 0 <= i < j < items.len() ==> !precedes(#[trigger] items[j], #[trigger] items[i]),
    ensures
        items.len() > 0 ==> first_of_runs(items).len() > 0 && first_of_runs(items).last().eq_spec(&items.last()),
        in_order(first_of_runs(items)),
        forall|k: int| 0 <= k < items.len() ==> represented(first_of_runs(items), #[trigger] items[k]),
    decreases items.len(),
{
    let runs = first_of_runs(items);
    if items.len() == 1 {
        lemma_equal_to_itself(items[0]);
        assert(runs[0].eq_spec(&items[0]));
    } else if items.len() > 1 {
        let front = items.drop_last();
        let kept = first_of_runs(front);
        let last = items.last();
        assert forall|i: int, j: int| 0 <= i < j < front.len() implies !precedes(
            #[trigger] front[j],
            #[trigger] front[i],
        ) by {
            assert(!precedes(items[j], items[i]));
        }
        lemma_first_of_runs(front);
        assert(!precedes(last, items[items.len() - 2]));
        assert(kept.last().eq_spec(&front.last()));
        lemma_order(last, kept.last(), front.last());
        lemma_order(kept.last(), front.last(), last);
        lemma_order(front.last(), kept.last(), last);
        lemma_order(kept.last(), last, last);
        lemma_equal_to_itself(last);
        if !kept.last().eq_spec(&last) {
            assert(precedes(kept.last(), last));
            assert forall|i: int, j: int| 0 <= i < j < runs.len() implies precedes(
                #[trigger] runs[i],
                #[trigger] runs[j],
            ) by {
                if j == kept.len() {
                    if i < kept.len() - 1 {
                        assert(precedes(kept[i], kept[kept.len() - 1]));
                    }
                    lemma_order(kept[i], kept.last(), last);
                } else {
                    assert(precedes(kept[i], kept[j]));
                }
            }
        }
        assert forall|k: int| 0 <= k < items.len() implies represented(runs, #[trigger] items[k]) by {
            if k < front.len() {
                assert(represented(kept, front[k]));
                let i = choose|i: int| 0 <= i < kept.len() && (#[trigger] kept[i]).eq_spec(&front[k]);
                assert(runs[i].eq_spec(&items[k]));
            } else {
                assert(runs[runs.len() - 1].eq_spec(&items[k]));
            }
        }
    }
}

/// Whether each id precedes the ones after it.
pub open spec fn in_order<Id: Ord>(ids: Seq<Id>) -> bool {
    forall|i: int, j: int| 0 <= i < j < ids.len() ==> precedes(#[trigger] ids[i], #[trigger] ids[j])
}

/// Whether some id in the list equals the given one.
pub open spec fn represented<Id: PartialEq>(ids: Seq<Id>, id: Id) -> bool {
    exists|i: int| 0 <= i < ids.len() && (#[trigger] ids[i]).eq_spec(&id)
}

impl<Id> AuthSet<Id> {
    /// The ids, in the order in which they are handed out.
    pub closed spec fn ids(self) -> Seq<Id> {
        self.0@
    }

    /// The ids are distinct.
    pub open spec fn wf(self) -> bool {
        self.ids().no_duplicates()
    }

    /// Creates an auth set from distinct identifiers.
    ///
    /// The caller must ensure `ids` contains no duplicates. Duplicates are not
    /// checked, so hot paths avoid redundant work.
    #[must_use]
    pub fn from_distinct(ids: Vec<Id>) -> (set: Self)
        requires
            ids@.no_duplicates(),
        ensures
            set.wf(),
            set.ids() == ids@,
    {
        Self(ids)
    }

    /// Creates an auth set from identifiers that may repeat: each stays once.
    ///
    /// Of an id type whose order is known, the set holds one id for each that
    /// was given, in ascending order.
    pub fn from_iter(ids: Vec<Id>) -> (set: Self) where Id: Ord
        ensures
            set.ids().to_set().subset_of(ids@.to_set()),
            obeys_cmp::<Id>() ==> set.wf() && in_order(set.ids()),
            obeys_cmp::<Id>() ==> forall|k: int| 0 <= k < ids@.len() ==> represented(set.ids(), #[trigger] ids@[k]),
    {
        let sorted = sorted_unstable(ids);
        let kept = dedup(sorted);
        proof {
            broadcast use vstd::seq_lib::group_to_multiset_ensures;

            assert(sorted@.to_set() =~= ids@.to_set()) by {
                assert forall|id: Id| sorted@.to_set().contains(id) == ids@.to_set().contains(id) by {
                    assert(sorted@.to_multiset().count(id) == ids@.to_multiset().count(id));
                }
            }
            if obeys_cmp::<Id>() {
                reveal(vstd::laws_cmp::obeys_cmp_partial_ord);
                lemma_first_of_runs(sorted@);
                assert forall|i: int, j: int| 0 <= i < j < kept@.len() implies kept@[i] != kept@[j] by {
                    assert(precedes(kept@[i], kept@[j]));
                    lemma_equal_to_itself(kept@[i]);
                }
                assert forall|k: int| 0 <= k < ids@.len() implies represented(kept@, #[trigger] ids@[k]) by {
                    assert(ids@.to_set().contains(ids@[k]));
                    assert(sorted@.to_set().contains(ids@[k]));
                    let i = choose|i: int| 0 <= i < sorted@.len() && sorted@[i] == ids@[k];
                    assert(represented(kept@, sorted@[i]));
                }
            }
        }
        Self(kept)
    }
}

impl<Id> Default for AuthSet<Id> {
    fn default() -> (set: Self)
        ensures
            set.wf(),
            set.ids() == Seq::<Id>::empty(),
    {
        Self(Vec::new())
    }
}

impl<Id> IntoIterator for AuthSet<Id> {
    type Item = Id;

    type IntoIter = std::vec::IntoIter<Id>;

    fn into_iter(self) -> (iter: std::vec::IntoIter<Id>)
        ensures
            IteratorSpec::remaining(&iter) == self.ids(),
    {
        self.0.into_iter()
    }
}

/// Among numbers, one precedes another where it is less.
pub proof fn lemma_numbers_precede_by_size(a: u64, b: u64)
    ensures
        precedes(a, b) <==> a < b,
{
}

/// Of numbers that may repeat, a set holds exactly those that were given, each
/// once and in ascending order.
pub proof fn lemma_set_of_numbers(ids: Vec<u64>, set: AuthSet<u64>)
    requires
        call_ensures(AuthSet::<u64>::from_iter, (ids,), set),
    ensures
        forall|i: int, j: int| 0 <= i < j < set.ids().len() ==> #[trigger] set.ids()[i] < #[trigger] set.ids()[j],
        forall|id: u64| set.ids().contains(id) <==> ids@.contains(id),
{
    broadcast use vstd::laws_cmp::group_laws_cmp;

    assert(obeys_cmp::<u64>());
    assert forall|i: int, j: int| 0 <= i < j < set.ids().len() implies #[trigger] set.ids()[i] < #[trigger] set.ids()[j] by {
        assert(precedes(set.ids()[i], set.ids()[j]));
    }
    assert forall|id: u64| set.ids().contains(id) <==> ids@.contains(id) by {
        if set.ids().contains(id) {
            assert(set.ids().to_set().contains(id));
            assert(ids@.to_set().contains(id));
        }
        if ids@.contains(id) {
            let k = choose|k: int| 0 <= k < ids@.len() && ids@[k] == id;
            assert(represented(set.ids(), ids@[k]));
            let i = choose|i: int| 0 <= i < set.ids().len() && (#[trigger] set.ids()[i]).eq_spec(&ids@[k]);
            assert(set.ids()[i] == id);
        }
    }
}

/// Distinct ids stay in a set as they went in, and a set that is made without any
/// holds none.
pub proof fn lemma_distinct_ids_stay<Id>(ids: Vec<Id>, set: AuthSet<Id>, none: AuthSet<Id>)
    requires
        ids@.no_duplicates(),
        call_ensures(AuthSet::<Id>::from_distinct, (ids,), set),
        call_ensures(AuthSet::<Id>::default, (), none),
    ensures
        set.ids().len() == ids@.len(),
        forall|i: int| 0 <= i < ids@.len() ==> #[trigger] set.ids()[i] == ids@[i],
        none.ids().len() == 0,
{
}

} // verus!
