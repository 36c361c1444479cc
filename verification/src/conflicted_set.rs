//! Which events take part in state resolution.

use crate::conflict::{contestants, ConflictMap, ConflictVec};
use crate::ids::{ascending, insert_ascending, texts, IdSet};
use crate::order::before;
use crate::rules::RoomRules;
use crate::state_map::{lists, place, StateKey};
use vstd::prelude::*;

verus! {

/// Whether the conflicted subgraph belongs to the full conflicted set.
pub open spec fn takes_subgraph(rules: RoomRules, hydra_backports: bool) -> bool {
    hydra_backports || (rules.state_res_v2 matches Some(v2) && v2.consider_conflicted_state_subgraph)
}

/// Whether the conflicted subgraph has to be fetched.
pub fn consider_conflicted_subgraph(rules: &RoomRules, hydra_backports: bool) -> (consider: bool)
    ensures
        consider == takes_subgraph(*rules, hydra_backports),
{
    let by_rules = match rules.state_res_v2 {
        Some(v2) => v2.consider_conflicted_state_subgraph,
        None => false,
    };
    by_rules || hydra_backports
}

/// Whether an id contests some state key.
pub open spec fn contests(conflicted: Map<StateKey, ConflictVec>, id: Seq<char>) -> bool {
    exists|key: StateKey| #[trigger] conflicted.contains_key(key) && contestants(conflicted[key]).contains(id)
}

/// The ids that contest some state key, each once, in ascending order.
pub fn conflicted_state_set(conflicted: &ConflictMap) -> (ids: Vec<String>)
    requires
        conflicted.wf(),
    ensures
        ascending(texts(ids@)),
        forall|id: Seq<char>| #[trigger] texts(ids@).contains(id) <==> contests(conflicted@, id),
{
    let mut ids: Vec<String> = Vec::new();
    let mut i: usize = 0;
    while i < conflicted.len()
        invariant
            conflicted.wf(),
            i <= conflicted.listed().len(),
            ascending(texts(ids@)),
            forall|id: Seq<char>| #[trigger]
                texts(ids@).to_set().contains(id) <==> exists|k: int|
                    0 <= k < i && contestants((#[trigger] conflicted.listed()[k]).value).contains(id),
        decreases conflicted.listed().len() - i,
    {
        let contest = conflicted.entry(i).value.ids();
        let ghost found = texts(ids@).to_set();
        let ghost all = texts(contest@);
        let mut j: usize = 0;
        while j < contest.len()
            invariant
                j <= contest.len(),
                all == texts(contest@),
                ascending(texts(ids@)),
                forall|id: Seq<char>| #[trigger]
                    texts(ids@).to_set().contains(id) <==> found.contains(id) || exists|k: int|
                        0 <= k < j && #[trigger] all[k] == id,
            decreases contest.len() - j,
        {
            let ghost prior = texts(ids@).to_set();
            insert_ascending(&mut ids, contest[j].clone());
            proof {
                assert(contest@[j as int]@ == all[j as int]);
                assert forall|id: Seq<char>| #[trigger]
                    texts(ids@).to_set().contains(id) <==> found.contains(id) || exists|k: int|
                        0 <= k < j + 1 && #[trigger] all[k] == id by {
                    assert(texts(ids@).to_set().contains(id) <==> prior.contains(id) || id == all[j as int]);
                    if prior.contains(id) && !found.contains(id) {
                        let k = choose|k: int| 0 <= k < j && #[trigger] all[k] == id;
                        assert(all[k] == id);
                    }
                }
            }
            j += 1;
        }
        proof {
            assert forall|id: Seq<char>| #[trigger]
                texts(ids@).to_set().contains(id) <==> exists|k: int|
                    0 <= k < i + 1 && contestants((#[trigger] conflicted.listed()[k]).value).contains(id) by {
                if texts(ids@).to_set().contains(id) {
                    if found.contains(id) {
                        let k = choose|k: int|
                            0 <= k < i && contestants((#[trigger] conflicted.listed()[k]).value).contains(id);
                        assert(contestants(conflicted.listed()[k].value).contains(id));
                    } else {
                        assert(all.contains(id));
                        assert(contestants(conflicted.listed()[i as int].value).contains(id));
                    }
                }
                if contestants(conflicted.listed()[i as int].value).contains(id) {
                    assert(all.contains(id));
                }
            }
        }
        i += 1;
    }
    proof {
        assert forall|id: Seq<char>| #[trigger] texts(ids@).contains(id) <==> contests(conflicted@, id) by {
            assert(texts(ids@).to_set().contains(id) == texts(ids@).contains(id));
            if texts(ids@).contains(id) {
                let k = choose|k: int|
                    0 <= k < i && contestants((#[trigger] conflicted.listed()[k]).value).contains(id);
                conflicted.lemma_entry(k);
                assert(conflicted@.contains_key(conflicted.listed()[k].key()));
            }
            if contests(conflicted@, id) {
                let key = choose|key: StateKey| #[trigger]
                    conflicted@.contains_key(key) && contestants(conflicted@[key]).contains(id);
                conflicted.lemma_listed();
                let k = place(conflicted.listed(), key);
                assert(lists(conflicted.listed(), key));
                assert(contestants(conflicted.listed()[k].value).contains(id));
            }
        }
    }
    ids
}

/// The ids that take part in resolution if their events exist: the auth
/// difference, then the ids that contest some state key.
pub fn conflict_candidates(auth_difference: &Vec<String>, conflicted: &ConflictMap) -> (ids: Vec<String>)
    requires
        conflicted.wf(),
    ensures
        ids@.len() >= auth_difference@.len(),
        texts(ids@).take(auth_difference@.len() as int) == texts(auth_difference@),
        ascending(texts(ids@).skip(auth_difference@.len() as int)),
        forall|id: Seq<char>| #[trigger]
            texts(ids@).skip(auth_difference@.len() as int).contains(id) <==> contests(conflicted@, id),
{
    let mut ids: Vec<String> = Vec::new();
    let mut i: usize = 0;
    while i < auth_difference.len()
        invariant
            i <= auth_difference.len(),
            texts(ids@) == texts(auth_difference@).take(i as int),
        decreases auth_difference.len() - i,
    {
        let ghost prior = ids@;
        ids.push(auth_difference[i].clone());
        proof {
            assert(texts(ids@) =~= texts(prior).push(auth_difference@[i as int]@));
            assert(texts(auth_difference@).take(i + 1) =~= texts(auth_difference@).take(i as int).push(
                texts(auth_difference@)[i as int],
            ));
        }
        i += 1;
    }
    let mut contested = conflicted_state_set(conflicted);
    let ghost first = texts(ids@);
    let ghost second = texts(contested@);
    ids.append(&mut contested);
    proof {
        assert(first =~= texts(auth_difference@));
        assert(texts(ids@) =~= first + second);
        assert(texts(ids@).skip(auth_difference@.len() as int) =~= second);
        assert(texts(ids@).take(auth_difference@.len() as int) =~= first);
    }
    ids
}

/// Whether an event takes part in resolution: it exists, and is in the auth
/// difference or contests some state key; or it is in the conflicted subgraph
/// and the room version takes that.
pub open spec fn takes_part(
    rules: RoomRules,
    auth_difference: Seq<Seq<char>>,
    conflicted: Map<StateKey, ConflictVec>,
    existing: Set<Seq<char>>,
    conflicted_subgraph: Seq<Seq<char>>,
    hydra_backports: bool,
    id: Seq<char>,
) -> bool {
    ||| existing.contains(id) && (auth_difference.contains(id) || contests(conflicted, id))
    ||| takes_subgraph(rules, hydra_backports) && conflicted_subgraph.contains(id)
}

/// The full conflicted set: the union of the conflicted state set and the auth
/// difference, without the events that do not exist, and of the conflicted
/// subgraph where the room version takes it. `existing` holds those of
/// [`conflict_candidates`] that exist.
pub fn full_conflicted_set(
    rules: &RoomRules,
    auth_difference: &Vec<String>,
    conflicted: &ConflictMap,
    existing: &IdSet,
    conflicted_subgraph: &Vec<String>,
    hydra_backports: bool,
) -> (set: IdSet)
    requires
        conflicted.wf(),
    ensures
        set.wf(),
        forall|id: Seq<char>| #[trigger]
            set@.contains(id) <==> takes_part(
                *rules,
                texts(auth_difference@),
                conflicted@,
                existing@,
                texts(conflicted_subgraph@),
                hydra_backports,
                id,
            ),
{
    let candidates = conflict_candidates(auth_difference, conflicted);
    let ghost all = texts(candidates@);
    let mut set = IdSet::new();
    let mut i: usize = 0;
    while i < candidates.len()
        invariant
            i <= candidates.len(),
            all == texts(candidates@),
            set.wf(),
            forall|id: Seq<char>| #[trigger]
                set@.contains(id) <==> existing@.contains(id) && exists|k: int| 0 <= k < i && #[trigger] all[k] == id,
        decreases candidates.len() - i,
    {
        let ghost prior = set@;
        assert(candidates@[i as int]@ == all[i as int]);
        if existing.contains(candidates[i].as_str()) {
            set.insert(candidates[i].as_str());
        }
        proof {
            assert forall|id: Seq<char>| #[trigger]
                set@.contains(id) <==> existing@.contains(id) && exists|k: int|
                    0 <= k < i + 1 && #[trigger] all[k] == id by {
                if prior.contains(id) {
                    let k = choose|k: int| 0 <= k < i && #[trigger] all[k] == id;
                    assert(all[k] == id);
                }
            }
        }
        i += 1;
    }
    proof {
        let n = auth_difference@.len() as int;
        let head = texts(auth_difference@);
        let tail = all.skip(n);
        assert forall|id: Seq<char>| #[trigger]
            set@.contains(id) <==> existing@.contains(id) && (head.contains(id) || contests(conflicted@, id)) by {
            assert(tail.contains(id) <==> contests(conflicted@, id));
            if set@.contains(id) {
                let k = choose|k: int| 0 <= k < i && #[trigger] all[k] == id;
                if k < n {
                    assert(all.take(n)[k] == id);
                } else {
                    assert(tail[k - n] == id);
                }
            }
            if head.contains(id) {
                let k = choose|k: int| 0 <= k < n && head[k] == id;
                assert(all.take(n)[k] == all[k]);
            }
            if tail.contains(id) {
                let k = choose|k: int| 0 <= k < tail.len() && tail[k] == id;
                assert(all[n + k] == id);
            }
        }
    }
    let ghost standing = set@;
    if consider_conflicted_subgraph(rules, hydra_backports) {
        let ghost graph = texts(conflicted_subgraph@);
        let mut j: usize = 0;
        while j < conflicted_subgraph.len()
            invariant
                j <= conflicted_subgraph.len(),
                graph == texts(conflicted_subgraph@),
                set.wf(),
                forall|id: Seq<char>| #[trigger]
                    set@.contains(id) <==> standing.contains(id) || exists|k: int| 0 <= k < j && #[trigger] graph[k] == id,
            decreases conflicted_subgraph.len() - j,
        {
            let ghost prior = set@;
            assert(conflicted_subgraph@[j as int]@ == graph[j as int]);
            set.insert(conflicted_subgraph[j].as_str());
            proof {
                assert forall|id: Seq<char>| #[trigger]
                    set@.contains(id) <==> standing.contains(id) || exists|k: int|
                        0 <= k < j + 1 && #[trigger] graph[k] == id by {
                    if prior.contains(id) && !standing.contains(id) {
                        let k = choose|k: int| 0 <= k < j && #[trigger] graph[k] == id;
                        assert(graph[k] == id);
                    }
                }
            }
            j += 1;
        }
    }
    set
}

/// Which events take part does not depend on the order of the auth difference or
/// of the conflicted subgraph, nor on ids that are listed again.
pub proof fn lemma_order_of_ids_is_irrelevant(
    rules: RoomRules,
    one: Seq<Seq<char>>,
    other: Seq<Seq<char>>,
    conflicted: Map<StateKey, ConflictVec>,
    existing: Set<Seq<char>>,
    one_subgraph: Seq<Seq<char>>,
    other_subgraph: Seq<Seq<char>>,
    hydra_backports: bool,
    id: Seq<char>,
)
    requires
        one.to_set() == other.to_set(),
        one_subgraph.to_set() == other_subgraph.to_set(),
    ensures
        takes_part(rules, one, conflicted, existing, one_subgraph, hydra_backports, id) == takes_part(
            rules,
            other,
            conflicted,
            existing,
            other_subgraph,
            hydra_backports,
            id,
        ),
{
    assert(one.contains(id) == one.to_set().contains(id));
    assert(other.contains(id) == other.to_set().contains(id));
    assert(one_subgraph.contains(id) == one_subgraph.to_set().contains(id));
    assert(other_subgraph.contains(id) == other_subgraph.to_set().contains(id));
}

/// The subgraph is taken with the backports, whatever the rules are, and without
/// them exactly where the rules of the second version of state resolution say so.
pub proof fn lemma_when_the_subgraph_is_taken(rules: RoomRules, hydra_backports: bool, consider: bool)
    requires
        call_ensures(consider_conflicted_subgraph, (&rules, hydra_backports), consider),
    ensures
        hydra_backports ==> consider,
        !hydra_backports && rules.state_res_v2 is None ==> !consider,
        !hydra_backports && rules.state_res_v2 is Some ==> (consider
            <==> rules.state_res_v2->Some_0.consider_conflicted_state_subgraph),
{
}

/// An id contests a key exactly where it is among the ids that some key is
/// mapped to.
pub proof fn lemma_who_contests(conflicted: Map<StateKey, ConflictVec>, key: StateKey, id: Seq<char>)
    ensures
        conflicted.contains_key(key) && contestants(conflicted[key]).contains(id) ==> contests(conflicted, id),
        (forall|k: StateKey| #[trigger]
            conflicted.contains_key(k) ==> !contestants(conflicted[k]).contains(id)) ==> !contests(conflicted, id),
{
}

/// Which events take part: none that does not exist, unless the subgraph that is
/// taken holds it; every existing one of the auth difference and of those that
/// contest a key; every one of a subgraph that is taken; and no other.
pub proof fn lemma_who_takes_part(
    rules: RoomRules,
    auth_difference: Seq<Seq<char>>,
    conflicted: Map<StateKey, ConflictVec>,
    existing: Set<Seq<char>>,
    subgraph: Seq<Seq<char>>,
    hydra_backports: bool,
    id: Seq<char>,
)
    ensures
        ({
            let part = takes_part(rules, auth_difference, conflicted, existing, subgraph, hydra_backports, id);
            &&& !existing.contains(id) && !subgraph.contains(id) ==> !part
            &&& existing.contains(id) && auth_difference.contains(id) ==> part
            &&& existing.contains(id) && contests(conflicted, id) ==> part
            &&& hydra_backports && subgraph.contains(id) ==> part
            &&& (rules.state_res_v2 is Some && rules.state_res_v2->Some_0.consider_conflicted_state_subgraph
                && subgraph.contains(id)) ==> part
            &&& !auth_difference.contains(id) && !contests(conflicted, id) && !subgraph.contains(id) ==> !part
            &&& (!auth_difference.contains(id) && !contests(conflicted, id) && !hydra_backports && (
            rules.state_res_v2 is None || !(
            rules.state_res_v2->Some_0.consider_conflicted_state_subgraph))) ==> !part
            &&& (!existing.contains(id) && !hydra_backports && (rules.state_res_v2 is None || !(
            rules.state_res_v2->Some_0.consider_conflicted_state_subgraph))) ==> !part
        }),
{
}

/// Which ids may take part: first those of the auth difference, as they are, then
/// those that contest a key, each once and in the order of their bytes.
pub proof fn lemma_who_are_candidates(
    auth_difference: Vec<String>,
    conflicted: ConflictMap,
    ids: Vec<String>,
    place: int,
)
    requires
        call_ensures(conflict_candidates, (&auth_difference, &conflicted), ids),
    ensures
        ids@.len() >= auth_difference@.len(),
        forall|i: int| 0 <= i < auth_difference@.len() ==> (#[trigger] ids@[i])@ == auth_difference@[i]@,
        auth_difference@.len() <= place < ids@.len() ==> exists|key: StateKey| #[trigger]
            conflicted@.contains_key(key) && contestants(conflicted@[key]).contains(ids@[place]@),
        forall|key: StateKey, id: Seq<char>|
            #![trigger conflicted@.contains_key(key), contestants(conflicted@[key]).contains(id)]
            conflicted@.contains_key(key) && contestants(conflicted@[key]).contains(id) ==> texts(ids@).contains(id),
        forall|i: int, j: int|
            auth_difference@.len() <= i < j < ids@.len() ==> before((#[trigger] ids@[i])@, (#[trigger] ids@[j])@),
{
    let n = auth_difference@.len() as int;
    let all = texts(ids@);
    let tail = all.skip(n);
    assert(all.len() == ids@.len());
    assert forall|i: int| 0 <= i < n implies (#[trigger] ids@[i])@ == auth_difference@[i]@ by {
        assert(all.take(n)[i] == all[i]);
        assert(texts(auth_difference@)[i] == auth_difference@[i]@);
    }
    if n <= place < ids@.len() {
        assert(tail[place - n] == ids@[place]@);
        assert(tail.contains(ids@[place]@));
        assert(contests(conflicted@, ids@[place]@));
    }
    assert forall|key: StateKey, id: Seq<char>|
        #![trigger conflicted@.contains_key(key), contestants(conflicted@[key]).contains(id)]
        conflicted@.contains_key(key) && contestants(conflicted@[key]).contains(id) implies all.contains(id) by {
        assert(contests(conflicted@, id));
        assert(tail.contains(id));
        let k = choose|k: int| 0 <= k < tail.len() && tail[k] == id;
        assert(all[n + k] == id);
    }
    assert forall|i: int, j: int| n <= i < j < ids@.len() implies before(
        (#[trigger] ids@[i])@,
        (#[trigger] ids@[j])@,
    ) by {
        assert(before(tail[i - n], tail[j - n]));
    }
}

/// The ids that contest a key: all of them and no others, each once and in the
/// order of their bytes.
pub proof fn lemma_who_is_in_the_conflicted_state(conflicted: ConflictMap, ids: Vec<String>, id: Seq<char>)
    requires
        call_ensures(conflicted_state_set, (&conflicted,), ids),
    ensures
        texts(ids@).contains(id) <==> exists|key: StateKey| #[trigger]
            conflicted@.contains_key(key) && contestants(conflicted@[key]).contains(id),
        forall|i: int, j: int| 0 <= i < j < ids@.len() ==> before((#[trigger] ids@[i])@, (#[trigger] ids@[j])@),
{
    assert(texts(ids@).contains(id) <==> contests(conflicted@, id));
    assert forall|i: int, j: int| 0 <= i < j < ids@.len() implies before(
        (#[trigger] ids@[i])@,
        (#[trigger] ids@[j])@,
    ) by {
        assert(before(texts(ids@)[i], texts(ids@)[j]));
    }
}

/// Which ids the full conflicted set holds: those of the auth difference and those
/// that contest a key, as far as they exist; those of the subgraph exactly where
/// the backports or the rules take it, whether they exist or not; and no others.
pub proof fn lemma_what_the_full_conflicted_set_holds(
    rules: RoomRules,
    auth_difference: Vec<String>,
    conflicted: ConflictMap,
    existing: IdSet,
    subgraph: Vec<String>,
    hydra_backports: bool,
    set: IdSet,
    id: Seq<char>,
)
    requires
        call_ensures(
            full_conflicted_set,
            (&rules, &auth_difference, &conflicted, &existing, &subgraph, hydra_backports),
            set,
        ),
    ensures
        ({
            let taken = hydra_backports || (rules.state_res_v2 is Some
                && rules.state_res_v2->Some_0.consider_conflicted_state_subgraph);
            let disputed = exists|key: StateKey| #[trigger]
                conflicted@.contains_key(key) && contestants(conflicted@[key]).contains(id);
            &&& set@.contains(id) ==> (existing@.contains(id) && (texts(auth_difference@).contains(id) || disputed)) || (
            taken && texts(subgraph@).contains(id))
            &&& existing@.contains(id) && texts(auth_difference@).contains(id) ==> set@.contains(id)
            &&& existing@.contains(id) && disputed ==> set@.contains(id)
            &&& taken && texts(subgraph@).contains(id) ==> set@.contains(id)
        }),
{
    assert(set@.contains(id) <==> takes_part(
        rules,
        texts(auth_difference@),
        conflicted@,
        existing@,
        texts(subgraph@),
        hydra_backports,
        id,
    ));
}

} // verus!
