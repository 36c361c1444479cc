//! State resolution: which events of a room stand where its forks disagree.

use crate::algorithm::{
    acyclic, by_id, may_stand, resolve_iterative_sort, resolved_state, spelled, state_res_version,
    version_for, LeanEvent, LeanEventView, StateResVersion,
};
use crate::conflict::{ConflictMap, ConflictVec};
use crate::ids::{texts, IdSet};
use crate::rules::RoomRules;
use crate::state_map::{lemma_key_order, lists, place, StateKey, StateMap};
use crate::text::optional_text;
use vstd::prelude::*;

verus! {

/// The ids that a state names, by their keys.
pub open spec fn named(state: Map<StateKey, String>) -> Map<StateKey, Seq<char>> {
    state.map_values(|id: String| id@)
}

/// An event to fetch.
pub struct FetchRequest {
    pub id: String,
    /// Whether the power level of the sender is wanted too.
    pub conflicted: bool,
}

/// The ids of a list of requests.
pub open spec fn requested(requests: Seq<FetchRequest>) -> Seq<Seq<char>> {
    requests.map_values(|r: FetchRequest| r.id@)
}

/// What to fetch before the state can be resolved: the full conflicted set and
/// the events of the unconflicted state, each once.
pub fn fetch_requests(full_conflicted_set: &IdSet, unconflicted: &StateMap<String>) -> (requests: Vec<FetchRequest>)
    requires
        full_conflicted_set.wf(),
        unconflicted.wf(),
    ensures
        requested(requests@).no_duplicates(),
        requested(requests@).to_set() == full_conflicted_set@.union(named(unconflicted@).values()),
        forall|i: int|
            0 <= i < requests@.len() ==> (#[trigger] requests@[i]).conflicted == full_conflicted_set@.contains(
                requests@[i].id@,
            ),
{
    let mut all = IdSet::new();
    let mut i: usize = 0;
    while i < full_conflicted_set.len()
        invariant
            full_conflicted_set.wf(),
            all.wf(),
            i <= full_conflicted_set.listed().len(),
            forall|id: Seq<char>| #[trigger]
                all@.contains(id) <==> exists|k: int| 0 <= k < i && #[trigger] full_conflicted_set.listed()[k] == id,
        decreases full_conflicted_set.listed().len() - i,
    {
        proof {
            full_conflicted_set.listed().unique_seq_to_set();
        }
        let ghost prior = all@;
        all.insert(full_conflicted_set.member(i).as_str());
        proof {
            assert forall|id: Seq<char>| #[trigger]
                all@.contains(id) <==> exists|k: int| 0 <= k < i + 1 && #[trigger] full_conflicted_set.listed()[k] == id by {
                if prior.contains(id) {
                    let k = choose|k: int| 0 <= k < i && #[trigger] full_conflicted_set.listed()[k] == id;
                    assert(full_conflicted_set.listed()[k] == id);
                }
            }
        }
        i += 1;
    }
    proof {
        full_conflicted_set.listed().unique_seq_to_set();
        assert forall|id: Seq<char>| all@.contains(id) == full_conflicted_set@.contains(id) by {
            if full_conflicted_set.listed().contains(id) {
                let k = choose|k: int| 0 <= k < full_conflicted_set.listed().len() && full_conflicted_set.listed()[k] == id;
                assert(full_conflicted_set.listed()[k] == id);
            }
        }
        assert(all@ =~= full_conflicted_set@);
    }
    let ghost state = named(unconflicted@);
    let mut j: usize = 0;
    while j < unconflicted.len()
        invariant
            unconflicted.wf(),
            all.wf(),
            j <= unconflicted.listed().len(),
            forall|id: Seq<char>| #[trigger]
                all@.contains(id) <==> full_conflicted_set@.contains(id) || exists|k: int|
                    0 <= k < j && (#[trigger] unconflicted.listed()[k]).value@ == id,
        decreases unconflicted.listed().len() - j,
    {
        let ghost prior = all@;
        all.insert(unconflicted.entry(j).value.as_str());
        proof {
            assert forall|id: Seq<char>| #[trigger]
                all@.contains(id) <==> full_conflicted_set@.contains(id) || exists|k: int|
                    0 <= k < j + 1 && (#[trigger] unconflicted.listed()[k]).value@ == id by {
                if prior.contains(id) && !full_conflicted_set@.contains(id) {
                    let k = choose|k: int| 0 <= k < j && (#[trigger] unconflicted.listed()[k]).value@ == id;
                    assert(unconflicted.listed()[k].value@ == id);
                }
            }
        }
        j += 1;
    }
    proof {
        assert forall|id: Seq<char>| all@.contains(id) == full_conflicted_set@.union(state.values()).contains(id) by {
            if all@.contains(id) && !full_conflicted_set@.contains(id) {
                let k = choose|k: int| 0 <= k < j && (#[trigger] unconflicted.listed()[k]).value@ == id;
                unconflicted.lemma_entry(k);
                let key = unconflicted.listed()[k].key();
                assert(state.contains_key(key) && state[key] == id);
            }
            if state.values().contains(id) {
                let key = choose|key: StateKey| #[trigger] state.contains_key(key) && state[key] == id;
                unconflicted.lemma_listed();
                let k = place(unconflicted.listed(), key);
                assert(lists(unconflicted.listed(), key));
                assert(unconflicted.listed()[k].value@ == id);
            }
        }
        assert(all@ =~= full_conflicted_set@.union(state.values()));
    }
    let mut requests: Vec<FetchRequest> = Vec::new();
    let mut n: usize = 0;
    proof {
        all.listed().unique_seq_to_set();
        assert(requested(requests@) =~= all.listed().take(0));
    }
    while n < all.len()
        invariant
            all.wf(),
            n <= all.listed().len(),
            requested(requests@) == all.listed().take(n as int),
            forall|i: int|
                0 <= i < requests@.len() ==> (#[trigger] requests@[i]).conflicted == full_conflicted_set@.contains(
                    requests@[i].id@,
                ),
        decreases all.listed().len() - n,
    {
        proof {
            all.listed().unique_seq_to_set();
        }
        let ghost prior = requests@;
        let id = all.member(n).clone();
        let conflicted = full_conflicted_set.contains(id.as_str());
        requests.push(FetchRequest { id, conflicted });
        n += 1;
        proof {
            assert(requested(requests@) =~= requested(prior).push(all.listed()[n - 1]));
            assert(all.listed().take(n as int) =~= all.listed().take(n - 1).push(all.listed()[n - 1]));
        }
    }
    proof {
        all.listed().unique_seq_to_set();
        assert(requested(requests@) =~= all.listed());
    }
    requests
}

/// The power level of the sender of an event.
#[derive(Clone, Copy, Debug, PartialEq, Eq, Structural)]
pub enum UserPowerLevel {
    Infinite,
    Int(i64),
}

/// The number by which a power level is compared; an event without one counts
/// as zero.
pub open spec fn power_number(power: Option<UserPowerLevel>) -> i64 {
    match power {
        Some(UserPowerLevel::Infinite) => i64::MAX,
        Some(UserPowerLevel::Int(x)) => x,
        None => 0,
    }
}

pub fn sender_power(power: Option<UserPowerLevel>) -> (number: i64)
    ensures
        number == power_number(power),
{
    match power {
        Some(UserPowerLevel::Infinite) => i64::MAX,
        Some(UserPowerLevel::Int(x)) => x,
        None => 0,
    }
}

/// An event of a room, as far as state resolution reads it.
pub struct Pdu {
    pub event_id: String,
    pub kind: String,
    pub state_key: Option<String>,
    pub origin_server_ts: u64,
    pub sender: String,
    /// The content, as JSON text.
    pub content: String,
    pub prev_events: Vec<String>,
    pub auth_events: Vec<String>,
    pub depth: u64,
    pub rejected: bool,
}

/// An event as state resolution takes it, with the number for its sender's
/// power level. Soft failure plays no part here.
pub open spec fn lean_view(pdu: Pdu, power: Option<UserPowerLevel>) -> LeanEventView {
    LeanEventView {
        event_id: pdu.event_id@,
        event_type: pdu.kind@,
        state_key: optional_text(pdu.state_key),
        power_level: power_number(power),
        origin_server_ts: pdu.origin_server_ts,
        sender: pdu.sender@,
        content: pdu.content@,
        prev_events: texts(pdu.prev_events@),
        auth_events: texts(pdu.auth_events@),
        depth: pdu.depth,
        rejected: pdu.rejected,
        soft_fail: false,
    }
}

pub fn lean_event(pdu: Pdu, power: Option<UserPowerLevel>) -> (lean: LeanEvent)
    ensures
        lean@ == lean_view(pdu, power),
{
    LeanEvent {
        event_id: pdu.event_id,
        event_type: pdu.kind,
        state_key: pdu.state_key,
        power_level: sender_power(power),
        origin_server_ts: pdu.origin_server_ts,
        sender: pdu.sender,
        content: pdu.content,
        prev_events: pdu.prev_events,
        auth_events: pdu.auth_events,
        depth: pdu.depth,
        rejected: pdu.rejected,
        soft_fail: false,
    }
}

/// What came back for one fetch: the event, and the power level of its sender
/// where that was asked for.
pub struct Fetched<E> {
    pub id: String,
    pub pdu: Result<Pdu, E>,
    pub power: Option<Result<UserPowerLevel, E>>,
}

impl<E> Fetched<E> {
    /// The failure that came back, if any; that of the event before that of the
    /// power level.
    pub open spec fn failure(self) -> Option<E> {
        match self.pdu {
            Err(e) => Some(e),
            Ok(_) => match self.power {
                Some(Err(e)) => Some(e),
                _ => None,
            },
        }
    }

    pub open spec fn power_level(self) -> Option<UserPowerLevel> {
        match self.power {
            Some(Ok(level)) => Some(level),
            _ => None,
        }
    }

    /// The event that came back is the one that was asked for.
    pub open spec fn answers(self) -> bool {
        self.pdu matches Ok(pdu) ==> pdu.event_id@ == self.id@
    }
}

/// The first failure among what was fetched.
pub open spec fn first_failure<E>(fetched: Seq<Fetched<E>>) -> Option<E>
    decreases fetched.len(),
{
    if fetched.len() == 0 {
        None
    } else if let Some(e) = fetched[0].failure() {
        Some(e)
    } else {
        first_failure(fetched.drop_first())
    }
}

/// The fetched events that are in the conflicted set, or those that are not,
/// by their ids.
pub open spec fn gathered<E>(fetched: Seq<Fetched<E>>, set: Set<Seq<char>>, conflicted: bool) -> Map<
    Seq<char>,
    LeanEventView,
>
    decreases fetched.len(),
{
    if fetched.len() == 0 {
        Map::empty()
    } else {
        let rest = gathered(fetched.drop_last(), set, conflicted);
        if set.contains(fetched.last().id@) == conflicted {
            rest.insert(fetched.last().id@, lean_view(fetched.last().pdu->Ok_0, fetched.last().power_level()))
        } else {
            rest
        }
    }
}

proof fn lemma_first_failure<E>(fetched: Seq<Fetched<E>>, i: int)
    requires
        0 <= i < fetched.len(),
        forall|k: int| 0 <= k < i ==> (#[trigger] fetched[k]).failure() is None,
        fetched[i].failure() is Some,
    ensures
        first_failure(fetched) == fetched[i].failure(),
    decreases i,
{
    if i > 0 {
        let rest = fetched.drop_first();
        assert(fetched[0].failure() is None);
        assert forall|k: int| 0 <= k < i - 1 implies (#[trigger] rest[k]).failure() is None by {
            assert(fetched[k + 1].failure() is None);
        }
        lemma_first_failure(rest, i - 1);
    }
}

/// There is no first failure exactly when no fetch failed.
pub proof fn lemma_no_failure<E>(fetched: Seq<Fetched<E>>)
    ensures
        first_failure(fetched) is None <==> forall|k: int|
            0 <= k < fetched.len() ==> (#[trigger] fetched[k]).failure() is None,
    decreases fetched.len(),
{
    if fetched.len() > 0 {
        let rest = fetched.drop_first();
        lemma_no_failure(rest);
        if first_failure(fetched) is None {
            assert forall|k: int| 0 <= k < fetched.len() implies (#[trigger] fetched[k]).failure() is None by {
                if k > 0 {
                    assert(rest[k - 1].failure() is None);
                }
            }
        }
        if forall|k: int| 0 <= k < fetched.len() ==> (#[trigger] fetched[k]).failure() is None {
            assert(fetched[0].failure() is None);
            assert forall|k: int| 0 <= k < rest.len() implies (#[trigger] rest[k]).failure() is None by {
                assert(fetched[k + 1].failure() is None);
            }
        }
    }
}

/// The events that state resolution works on.
pub struct Pools {
    pub conflicted: Vec<LeanEvent>,
    pub auth_context: Vec<LeanEvent>,
}

/// Parts the fetched events into those of the conflicted set and the others;
/// the first failure ends it.
pub fn gather<E>(fetched: Vec<Fetched<E>>, full_conflicted_set: &IdSet) -> (pools: Result<Pools, E>)
    requires
        forall|i: int| 0 <= i < fetched@.len() ==> (#[trigger] fetched@[i]).answers(),
    ensures
        match pools {
            Err(e) => first_failure(fetched@) == Some(e),
            Ok(pools) => {
                &&& first_failure(fetched@) is None
                &&& by_id(pools.conflicted@) == gathered(fetched@, full_conflicted_set@, true)
                &&& by_id(pools.auth_context@) == gathered(fetched@, full_conflicted_set@, false)
            },
        },
{
    let ghost all = fetched@;
    let mut conflicted: Vec<LeanEvent> = Vec::new();
    let mut auth_context: Vec<LeanEvent> = Vec::new();
    for item in iter: fetched
        invariant
            iter.seq() == all,
            forall|i: int| 0 <= i < all.len() ==> (#[trigger] all[i]).answers(),
            forall|i: int| 0 <= i < iter.index() ==> (#[trigger] all[i]).failure() is None,
            by_id(conflicted@) == gathered(all.take(iter.index() as int), full_conflicted_set@, true),
            by_id(auth_context@) == gathered(all.take(iter.index() as int), full_conflicted_set@, false),
    {
        let ghost at = iter.index() as int;
        let ghost now = all[at];
        assert(now == item);
        let pdu = match item.pdu {
            Ok(pdu) => pdu,
            Err(e) => {
                proof {
                    lemma_first_failure(all, at);
                }
                return Err(e);
            },
        };
        let power = match item.power {
            Some(Ok(level)) => Some(level),
            Some(Err(e)) => {
                proof {
                    lemma_first_failure(all, at);
                }
                return Err(e);
            },
            None => None,
        };
        proof {
            assert(all.take(at + 1).drop_last() =~= all.take(at));
            assert(all.take(at + 1).last() == now);
        }
        let lean = lean_event(pdu, power);
        let ghost before_conflicted = conflicted@;
        let ghost before_context = auth_context@;
        if full_conflicted_set.contains(item.id.as_str()) {
            conflicted.push(lean);
            assert(conflicted@.drop_last() =~= before_conflicted);
        } else {
            auth_context.push(lean);
            assert(auth_context@.drop_last() =~= before_context);
        }
    }
    proof {
        assert(all.take(all.len() as int) =~= all);
        lemma_no_failure(all);
    }
    Ok(Pools { conflicted, auth_context })
}

/// The entries of a state, in the order of their keys.
fn state_entries(state: &StateMap<String>) -> (entries: Vec<((String, String), String)>)
    requires
        state.wf(),
    ensures
        spelled(entries@) == named(state@),
{
    let mut entries: Vec<((String, String), String)> = Vec::new();
    let mut i: usize = 0;
    while i < state.len()
        invariant
            state.wf(),
            i <= state.listed().len(),
            forall|key: StateKey| #[trigger]
                spelled(entries@).contains_key(key) <==> exists|k: int| 0 <= k < i && (#[trigger] state.listed()[k]).key() == key,
            forall|k: int|
                0 <= k < i ==> spelled(entries@)[(#[trigger] state.listed()[k]).key()] == state.listed()[k].value@,
        decreases state.listed().len() - i,
    {
        let ghost prior = entries@;
        let entry = state.entry(i);
        entries.push(((entry.event_type.clone(), entry.state_key.clone()), entry.value.clone()));
        proof {
            assert(entries@.drop_last() =~= prior);
            let added = state.listed()[i as int].key();
            assert forall|key: StateKey| #[trigger]
                spelled(entries@).contains_key(key) <==> exists|k: int|
                    0 <= k < i + 1 && (#[trigger] state.listed()[k]).key() == key by {
                if spelled(prior).contains_key(key) {
                    let k = choose|k: int| 0 <= k < i && (#[trigger] state.listed()[k]).key() == key;
                    assert(state.listed()[k].key() == key);
                }
                assert(state.listed()[i as int].key() == added);
            }
            assert forall|k: int| 0 <= k < i + 1 implies spelled(entries@)[(#[trigger] state.listed()[k]).key()]
                == state.listed()[k].value@ by {
                if k < i {
                    lemma_key_order(state.listed()[k].key(), added);
                }
            }
        }
        i += 1;
    }
    proof {
        let whole = named(state@);
        state.lemma_listed();
        assert forall|key: StateKey| spelled(entries@).contains_key(key) == whole.contains_key(key) by {
            if spelled(entries@).contains_key(key) {
                let k = choose|k: int| 0 <= k < i && (#[trigger] state.listed()[k]).key() == key;
                state.lemma_entry(k);
            }
        }
        assert forall|key: StateKey| spelled(entries@).contains_key(key) implies spelled(entries@)[key] == whole[key] by {
            let k = choose|k: int| 0 <= k < i && (#[trigger] state.listed()[k]).key() == key;
            state.lemma_entry(k);
            assert(spelled(entries@)[state.listed()[k].key()] == state.listed()[k].value@);
        }
        assert(spelled(entries@) =~= whole);
    }
    entries
}

/// The state that stands once the algorithm has answered: its answer, with the
/// unconflicted state over it.
pub fn settle(resolved: Vec<((String, String), String)>, unconflicted: &StateMap<String>) -> (state: StateMap<String>)
    requires
        unconflicted.wf(),
    ensures
        state.wf(),
        named(state@) == spelled(resolved@).union_prefer_right(named(unconflicted@)),
{
    let mut state: StateMap<String> = StateMap::new();
    let ghost all = resolved@;
    assert(named(state@) =~= spelled(all.take(0)));
    for item in iter: resolved
        invariant
            iter.seq() == all,
            state.wf(),
            named(state@) == spelled(all.take(iter.index() as int)),
    {
        let ghost at = iter.index() as int;
        let ghost prior = state@;
        assert(item == all[at]);
        let ((event_type, state_key), id) = item;
        let ghost key = (event_type@, state_key@);
        let ghost text = id@;
        state.insert(event_type, state_key, id);
        proof {
            assert(all.take(at + 1).drop_last() =~= all.take(at));
            assert(all.take(at + 1).last() == all[at]);
            assert(named(state@) =~= named(prior).insert(key, text));
        }
    }
    assert(all.take(all.len() as int) =~= all);
    let ghost answered = spelled(all);
    let mut i: usize = 0;
    while i < unconflicted.len()
        invariant
            unconflicted.wf(),
            state.wf(),
            i <= unconflicted.listed().len(),
            forall|key: StateKey| #[trigger]
                named(state@).contains_key(key) <==> answered.contains_key(key) || exists|k: int|
                    0 <= k < i && (#[trigger] unconflicted.listed()[k]).key() == key,
            forall|k: int|
                0 <= k < i ==> named(state@)[(#[trigger] unconflicted.listed()[k]).key()] == unconflicted.listed()[k].value@,
            forall|key: StateKey| #[trigger]
                named(state@).contains_key(key) && (forall|k: int|
                    0 <= k < i ==> (#[trigger] unconflicted.listed()[k]).key() != key) ==> named(state@)[key] == answered[key],
        decreases unconflicted.listed().len() - i,
    {
        let ghost prior = state@;
        let entry = unconflicted.entry(i);
        state.insert(entry.event_type.clone(), entry.state_key.clone(), entry.value.clone());
        proof {
            let added = unconflicted.listed()[i as int].key();
            assert(named(state@) =~= named(prior).insert(added, unconflicted.listed()[i as int].value@));
            assert forall|key: StateKey| #[trigger]
                named(state@).contains_key(key) <==> answered.contains_key(key) || exists|k: int|
                    0 <= k < i + 1 && (#[trigger] unconflicted.listed()[k]).key() == key by {
                if named(prior).contains_key(key) && !answered.contains_key(key) {
                    let k = choose|k: int| 0 <= k < i && (#[trigger] unconflicted.listed()[k]).key() == key;
                    assert(unconflicted.listed()[k].key() == key);
                }
                assert(unconflicted.listed()[i as int].key() == added);
            }
            assert forall|k: int| 0 <= k < i + 1 implies named(state@)[(#[trigger] unconflicted.listed()[k]).key()]
                == unconflicted.listed()[k].value@ by {
                if k < i {
                    lemma_key_order(unconflicted.listed()[k].key(), added);
                }
            }
            assert forall|key: StateKey| #[trigger]
                named(state@).contains_key(key) && (forall|k: int|
                    0 <= k < i + 1 ==> (#[trigger] unconflicted.listed()[k]).key() != key) implies named(state@)[key]
                == answered[key] by {
                assert(unconflicted.listed()[i as int].key() != key);
                assert(named(prior).contains_key(key));
            }
        }
        i += 1;
    }
    proof {
        let over = named(unconflicted@);
        unconflicted.lemma_listed();
        assert forall|key: StateKey| named(state@).contains_key(key) == answered.union_prefer_right(over).contains_key(key) by {
            if named(state@).contains_key(key) && !answered.contains_key(key) {
                let k = choose|k: int| 0 <= k < i && (#[trigger] unconflicted.listed()[k]).key() == key;
                unconflicted.lemma_entry(k);
            }
            if over.contains_key(key) {
                assert(lists(unconflicted.listed(), key));
            }
        }
        assert forall|key: StateKey| named(state@).contains_key(key) implies named(state@)[key]
            == answered.union_prefer_right(over)[key] by {
            if over.contains_key(key) {
                assert(lists(unconflicted.listed(), key));
                let k = place(unconflicted.listed(), key);
                unconflicted.lemma_entry(k);
                assert(named(state@)[unconflicted.listed()[k].key()] == unconflicted.listed()[k].value@);
            } else {
                assert forall|k: int| 0 <= k < i implies (#[trigger] unconflicted.listed()[k]).key() != key by {
                    unconflicted.lemma_entry(k);
                }
            }
        }
        assert(named(state@) =~= answered.union_prefer_right(over));
    }
    state
}

/// Whether the id that a state names for a key is that of a fetched event, with
/// that type and state key, that was not rejected.
pub open spec fn stands_by_fetch<E>(fetched: Seq<Fetched<E>>, key: StateKey, id: Seq<char>) -> bool {
    exists|i: int|
        0 <= i < fetched.len() && (#[trigger] fetched[i]).id@ == id && (fetched[i].pdu matches Ok(pdu) && pdu.kind@
            == key.0 && optional_text(pdu.state_key) == Some(key.1) && !pdu.rejected)
}

proof fn lemma_gathered<E>(fetched: Seq<Fetched<E>>, set: Set<Seq<char>>, conflicted: bool, id: Seq<char>)
    requires
        forall|k: int| 0 <= k < fetched.len() ==> (#[trigger] fetched[k]).failure() is None,
        gathered(fetched, set, conflicted).contains_key(id),
    ensures
        exists|i: int|
            0 <= i < fetched.len() && (#[trigger] fetched[i]).id@ == id && gathered(fetched, set, conflicted)[id]
                == lean_view(fetched[i].pdu->Ok_0, fetched[i].power_level()),
    decreases fetched.len(),
{
    let last = fetched.last();
    if set.contains(last.id@) == conflicted && last.id@ == id {
        assert(fetched[fetched.len() - 1].id@ == id);
    } else {
        let rest = fetched.drop_last();
        assert forall|k: int| 0 <= k < rest.len() implies (#[trigger] rest[k]).failure() is None by {
            assert(fetched[k].failure() is None);
        }
        lemma_gathered(rest, set, conflicted, id);
        let i = choose|i: int|
            0 <= i < rest.len() && (#[trigger] rest[i]).id@ == id && gathered(rest, set, conflicted)[id] == lean_view(
                rest[i].pdu->Ok_0,
                rest[i].power_level(),
            );
        assert(fetched[i].id@ == id);
    }
}

/// Whether the forks of a room dispute nothing.
pub open spec fn undisputed(conflicted: Map<StateKey, ConflictVec>) -> bool {
    conflicted =~= Map::empty()
}

/// Whether the auth events of the fetched events lead nowhere in a circle.
pub open spec fn auth_chains_end<E>(fetched: Seq<Fetched<E>>, set: Set<Seq<char>>) -> bool {
    acyclic(gathered(fetched, set, false).union_prefer_right(gathered(fetched, set, true)))
}

/// The resolved state: the answer of the algorithm for the room's version, with
/// the unconflicted state over it.
pub open spec fn resolution<E>(
    rules: RoomRules,
    unconflicted: Map<StateKey, Seq<char>>,
    fetched: Seq<Fetched<E>>,
    set: Set<Seq<char>>,
    hydra_backports: bool,
) -> Map<StateKey, Seq<char>> {
    resolved_state(
        unconflicted,
        gathered(fetched, set, true),
        gathered(fetched, set, false),
        version_for(rules, hydra_backports),
    ).union_prefer_right(unconflicted)
}

/// Applies the state resolution algorithm to the state of a room.
///
/// `unconflicted` is the state that all forks agree on, `conflicted` what they
/// dispute, `full_conflicted_set` the events that take part, and `fetched` what
/// came back for the requests of [`fetch_requests`]. All events are from the
/// same room.
///
/// Without a dispute the unconflicted state stands. Otherwise the first failure
/// among the fetches is returned, or the resolved state: the answer of the
/// algorithm for the room's version with the unconflicted state over it.
/// Whatever stands beside the unconflicted state is a fetched event that was
/// not rejected.
pub fn resolve<E>(
    rules: &RoomRules,
    unconflicted: StateMap<String>,
    conflicted: &ConflictMap,
    full_conflicted_set: &IdSet,
    fetched: Vec<Fetched<E>>,
    hydra_backports: bool,
) -> (r: Result<StateMap<String>, E>)
    requires
        unconflicted.wf(),
        forall|i: int| 0 <= i < fetched@.len() ==> (#[trigger] fetched@[i]).answers(),
    ensures
        r matches Err(e) ==> !undisputed(conflicted@) && first_failure(fetched@) == Some(e),
        r is Ok ==> undisputed(conflicted@) || first_failure(fetched@) is None,
        r matches Ok(state) ==> state.wf() && named(unconflicted@).submap_of(named(state@)),
        r matches Ok(state) ==> (undisputed(conflicted@) ==> named(state@) == named(unconflicted@)),
        r matches Ok(state) ==> (!undisputed(conflicted@) && auth_chains_end(fetched@, full_conflicted_set@) ==> named(state@) == resolution(
            *rules,
            named(unconflicted@),
            fetched@,
            full_conflicted_set@,
            hydra_backports,
        )),
        r matches Ok(state) ==> forall|key: StateKey| #[trigger]
            named(state@).contains_key(key) && !named(unconflicted@).contains_key(key) ==> stands_by_fetch(
                fetched@,
                key,
                named(state@)[key],
            ),
{
    if conflicted.is_empty() {
        return Ok(unconflicted);
    }
    let pools = match gather(fetched, full_conflicted_set) {
        Ok(pools) => pools,
        Err(e) => {
            return Err(e);
        },
    };
    let ghost contested = gathered(fetched@, full_conflicted_set@, true);
    let ghost context = gathered(fetched@, full_conflicted_set@, false);
    let version = state_res_version(rules, hydra_backports);
    let entries = state_entries(&unconflicted);
    let resolved = resolve_iterative_sort(entries, pools.conflicted, pools.auth_context, version);
    let state = settle(resolved, &unconflicted);
    proof {
        lemma_no_failure(fetched@);
        assert forall|key: StateKey| #[trigger]
            named(state@).contains_key(key) && !named(unconflicted@).contains_key(key) implies stands_by_fetch(
            fetched@,
            key,
            named(state@)[key],
        ) by {
            let id = spelled(resolved@)[key];
            assert(spelled(resolved@).contains_key(key));
            let from_contested = contested.contains_key(id) && may_stand(contested[id], key);
            let pool = if from_contested {
                contested
            } else {
                context
            };
            lemma_gathered(fetched@, full_conflicted_set@, from_contested, id);
            let i = choose|i: int|
                0 <= i < fetched@.len() && (#[trigger] fetched@[i]).id@ == id && pool[id] == lean_view(
                    fetched@[i].pdu->Ok_0,
                    fetched@[i].power_level(),
                );
            assert(fetched@[i].failure() is None);
            assert(fetched@[i].id@ == id);
        }
    }
    Ok(state)
}

/// The ids of what was fetched.
pub open spec fn fetched_ids<E>(fetched: Seq<Fetched<E>>) -> Seq<Seq<char>> {
    fetched.map_values(|f: Fetched<E>| f.id@)
}

proof fn lemma_gathered_at<E>(fetched: Seq<Fetched<E>>, set: Set<Seq<char>>, conflicted: bool, i: int)
    requires
        fetched_ids(fetched).no_duplicates(),
        0 <= i < fetched.len(),
    ensures
        gathered(fetched, set, conflicted).contains_key(fetched[i].id@) <==> set.contains(fetched[i].id@) == conflicted,
        set.contains(fetched[i].id@) == conflicted ==> gathered(fetched, set, conflicted)[fetched[i].id@] == lean_view(
            fetched[i].pdu->Ok_0,
            fetched[i].power_level(),
        ),
    decreases fetched.len(),
{
    let rest = fetched.drop_last();
    let ids = fetched_ids(fetched);
    if i == fetched.len() - 1 {
        if set.contains(fetched[i].id@) != conflicted {
            lemma_gathered_in_set(fetched, set, conflicted, fetched[i].id@);
        }
    } else {
        assert(ids[i] != ids[fetched.len() - 1]);
        assert forall|a: int, b: int| 0 <= a < b < rest.len() implies fetched_ids(rest)[a] != fetched_ids(rest)[b] by {
            assert(ids[a] != ids[b]);
        }
        lemma_gathered_at(rest, set, conflicted, i);
    }
}

proof fn lemma_gathered_in_set<E>(fetched: Seq<Fetched<E>>, set: Set<Seq<char>>, conflicted: bool, id: Seq<char>)
    ensures
        gathered(fetched, set, conflicted).contains_key(id) ==> set.contains(id) == conflicted && fetched_ids(
            fetched,
        ).contains(id),
    decreases fetched.len(),
{
    if fetched.len() > 0 {
        let rest = fetched.drop_last();
        lemma_gathered_in_set(rest, set, conflicted, id);
        if fetched_ids(rest).contains(id) {
            let k = choose|k: int| 0 <= k < rest.len() && fetched_ids(rest)[k] == id;
            assert(fetched_ids(fetched)[k] == id);
        }
        assert(fetched_ids(fetched)[fetched.len() - 1] == fetched.last().id@);
    }
}

/// The resolved state does not depend on the order in which the fetches, each
/// of another event, came back; nor does it whether one of them failed.
pub proof fn lemma_fetch_order_is_irrelevant<E>(
    rules: RoomRules,
    unconflicted: Map<StateKey, Seq<char>>,
    one: Seq<Fetched<E>>,
    other: Seq<Fetched<E>>,
    set: Set<Seq<char>>,
    hydra_backports: bool,
)
    requires
        fetched_ids(one).no_duplicates(),
        fetched_ids(other).no_duplicates(),
        one.to_set() == other.to_set(),
    ensures
        first_failure(one) is None <==> first_failure(other) is None,
        auth_chains_end(one, set) == auth_chains_end(other, set),
        resolution(rules, unconflicted, one, set, hydra_backports) == resolution(
            rules,
            unconflicted,
            other,
            set,
            hydra_backports,
        ),
{
    lemma_gathered_within(one, other, set, true);
    lemma_gathered_within(other, one, set, true);
    gathered(one, set, true).lemma_submap_eq_iff(gathered(other, set, true));
    lemma_gathered_within(one, other, set, false);
    lemma_gathered_within(other, one, set, false);
    gathered(one, set, false).lemma_submap_eq_iff(gathered(other, set, false));
    lemma_no_failure(one);
    lemma_no_failure(other);
    if first_failure(one) is None {
        lemma_failures_within(one, other);
    }
    if first_failure(other) is None {
        lemma_failures_within(other, one);
    }
}

proof fn lemma_failures_within<E>(one: Seq<Fetched<E>>, other: Seq<Fetched<E>>)
    requires
        one.to_set() == other.to_set(),
        forall|k: int| 0 <= k < one.len() ==> (#[trigger] one[k]).failure() is None,
    ensures
        forall|k: int| 0 <= k < other.len() ==> (#[trigger] other[k]).failure() is None,
{
    assert forall|k: int| 0 <= k < other.len() implies (#[trigger] other[k]).failure() is None by {
        assert(other.to_set().contains(other[k]));
        let i = choose|i: int| 0 <= i < one.len() && one[i] == other[k];
        assert(one[i].failure() is None);
    }
}

proof fn lemma_gathered_within<E>(
    one: Seq<Fetched<E>>,
    other: Seq<Fetched<E>>,
    set: Set<Seq<char>>,
    conflicted: bool,
)
    requires
        fetched_ids(one).no_duplicates(),
        fetched_ids(other).no_duplicates(),
        one.to_set() == other.to_set(),
    ensures
        gathered(one, set, conflicted).submap_of(gathered(other, set, conflicted)),
{
    assert forall|id: Seq<char>| #[trigger] gathered(one, set, conflicted).contains_key(id) implies gathered(
        other,
        set,
        conflicted,
    ).contains_key(id) && gathered(one, set, conflicted)[id] == gathered(other, set, conflicted)[id] by {
        lemma_gathered_in_set(one, set, conflicted, id);
        let i = choose|i: int| 0 <= i < one.len() && fetched_ids(one)[i] == id;
        lemma_gathered_at(one, set, conflicted, i);
        assert(one.to_set().contains(one[i]));
        let j = choose|j: int| 0 <= j < other.len() && other[j] == one[i];
        lemma_gathered_at(other, set, conflicted, j);
    }
}

/// A power level counts as the number that it is; one without bound counts as the
/// greatest there is, and a missing one as zero.
pub proof fn lemma_powers_as_numbers(power: Option<UserPowerLevel>, number: i64)
    requires
        call_ensures(sender_power, (power,), number),
    ensures
        power matches Some(UserPowerLevel::Int(x)) ==> number == x,
        power matches Some(UserPowerLevel::Infinite) ==> number == i64::MAX,
        power is None ==> number == 0,
{
}

/// State resolution takes an event as it is, and never as soft failed.
pub proof fn lemma_lean_event_is_the_event(pdu: Pdu, power: Option<UserPowerLevel>, lean: LeanEvent)
    requires
        call_ensures(lean_event, (pdu, power), lean),
    ensures
        lean.event_id@ == pdu.event_id@,
        lean.event_type@ == pdu.kind@,
        lean.state_key is Some <==> pdu.state_key is Some,
        pdu.state_key is Some ==> lean.state_key->Some_0@ == pdu.state_key->Some_0@,
        lean.origin_server_ts == pdu.origin_server_ts,
        lean.sender@ == pdu.sender@,
        lean.content@ == pdu.content@,
        lean.prev_events@.len() == pdu.prev_events@.len(),
        forall|i: int| 0 <= i < pdu.prev_events@.len() ==> (#[trigger] lean.prev_events@[i])@ == pdu.prev_events@[i]@,
        lean.auth_events@.len() == pdu.auth_events@.len(),
        forall|i: int| 0 <= i < pdu.auth_events@.len() ==> (#[trigger] lean.auth_events@[i])@ == pdu.auth_events@[i]@,
        lean.depth == pdu.depth,
        lean.rejected == pdu.rejected,
        !lean.soft_fail,
        power matches Some(UserPowerLevel::Int(x)) ==> lean.power_level == x,
        power matches Some(UserPowerLevel::Infinite) ==> lean.power_level == i64::MAX,
        power is None ==> lean.power_level == 0,
{
    assert(lean@.prev_events == texts(pdu.prev_events@));
    assert(lean@.auth_events == texts(pdu.auth_events@));
    assert(texts(lean.prev_events@).len() == texts(pdu.prev_events@).len());
    assert(texts(lean.auth_events@).len() == texts(pdu.auth_events@).len());
    assert forall|i: int| 0 <= i < pdu.prev_events@.len() implies (#[trigger] lean.prev_events@[i])@
        == pdu.prev_events@[i]@ by {
        assert(texts(lean.prev_events@)[i] == lean.prev_events@[i]@);
        assert(texts(pdu.prev_events@)[i] == pdu.prev_events@[i]@);
    }
    assert forall|i: int| 0 <= i < pdu.auth_events@.len() implies (#[trigger] lean.auth_events@[i])@
        == pdu.auth_events@[i]@ by {
        assert(texts(lean.auth_events@)[i] == lean.auth_events@[i]@);
        assert(texts(pdu.auth_events@)[i] == pdu.auth_events@[i]@);
    }
}

/// Whether neither an event nor the power level of its sender failed to come.
pub open spec fn came<E>(fetched: Fetched<E>) -> bool {
    fetched.pdu is Ok && !(fetched.power matches Some(Err(_)))
}

/// The failure that is returned is that of the first fetch that did not come, and
/// there is none where all came.
pub proof fn lemma_first_failure_is_the_first<E>(fetched: Seq<Fetched<E>>)
    ensures
        first_failure(fetched) is None <==> forall|i: int| 0 <= i < fetched.len() ==> came(#[trigger] fetched[i]),
        forall|i: int|
            0 <= i < fetched.len() && !came(#[trigger] fetched[i]) && (forall|j: int|
                0 <= j < i ==> came(#[trigger] fetched[j])) ==> {
                &&& fetched[i].pdu matches Err(e) ==> first_failure(fetched) == Some(e)
                &&& fetched[i].pdu is Ok ==> first_failure(fetched) == Some(fetched[i].power->Some_0->Err_0)
            },
{
    lemma_no_failure(fetched);
    assert forall|i: int| 0 <= i < fetched.len() implies (came(#[trigger] fetched[i]) <==> fetched[i].failure() is None) by {}
    assert forall|i: int|
        0 <= i < fetched.len() && !came(#[trigger] fetched[i]) && (forall|j: int|
            0 <= j < i ==> came(#[trigger] fetched[j])) implies {
        &&& fetched[i].pdu matches Err(e) ==> first_failure(fetched) == Some(e)
        &&& fetched[i].pdu is Ok ==> first_failure(fetched) == Some(fetched[i].power->Some_0->Err_0)
    } by {
        assert forall|k: int| 0 <= k < i implies (#[trigger] fetched[k]).failure() is None by {
            assert(came(fetched[k]));
        }
        lemma_first_failure(fetched, i);
    }
}

/// Each fetched event goes to one pool: to that of the conflicted events exactly
/// where the conflicted set holds its id. It goes there as it is, with the power
/// level that came with it, and nothing else is there.
pub proof fn lemma_each_event_is_in_its_pool<E>(fetched: Seq<Fetched<E>>, set: Set<Seq<char>>, i: int)
    requires
        fetched_ids(fetched).no_duplicates(),
        0 <= i < fetched.len(),
        fetched[i].pdu is Ok,
    ensures
        ({
            let id = fetched[i].id@;
            let conflicted = gathered(fetched, set, true);
            let context = gathered(fetched, set, false);
            let event = if set.contains(id) {
                conflicted[id]
            } else {
                context[id]
            };
            &&& conflicted.contains_key(id) <==> set.contains(id)
            &&& context.contains_key(id) <==> !set.contains(id)
            &&& event.event_id == fetched[i].pdu->Ok_0.event_id@
            &&& event.event_type == fetched[i].pdu->Ok_0.kind@
            &&& event.rejected == fetched[i].pdu->Ok_0.rejected
            &&& event.depth == fetched[i].pdu->Ok_0.depth
            &&& event.origin_server_ts == fetched[i].pdu->Ok_0.origin_server_ts
            &&& event.sender == fetched[i].pdu->Ok_0.sender@
            &&& event.content == fetched[i].pdu->Ok_0.content@
            &&& event.state_key is Some <==> fetched[i].pdu->Ok_0.state_key is Some
            &&& event.state_key is Some ==> event.state_key->Some_0 == fetched[i].pdu->Ok_0.state_key->Some_0@
            &&& event.auth_events == texts(fetched[i].pdu->Ok_0.auth_events@)
            &&& event.prev_events == texts(fetched[i].pdu->Ok_0.prev_events@)
            &&& !event.soft_fail
            &&& fetched[i].power matches Some(Ok(UserPowerLevel::Int(x))) ==> event.power_level == x
            &&& fetched[i].power matches Some(Ok(UserPowerLevel::Infinite)) ==> event.power_level == i64::MAX
            &&& fetched[i].power is None ==> event.power_level == 0
        }),
        forall|id: Seq<char>| #[trigger]
            gathered(fetched, set, true).contains_key(id) ==> set.contains(id) && fetched_ids(fetched).contains(id),
        forall|id: Seq<char>| #[trigger]
            gathered(fetched, set, false).contains_key(id) ==> !set.contains(id) && fetched_ids(fetched).contains(id),
{
    lemma_gathered_at(fetched, set, true, i);
    lemma_gathered_at(fetched, set, false, i);
    assert forall|id: Seq<char>| #[trigger] gathered(fetched, set, true).contains_key(id) implies set.contains(id)
        && fetched_ids(fetched).contains(id) by {
        lemma_gathered_in_set(fetched, set, true, id);
    }
    assert forall|id: Seq<char>| #[trigger] gathered(fetched, set, false).contains_key(id) implies !set.contains(id)
        && fetched_ids(fetched).contains(id) by {
        lemma_gathered_in_set(fetched, set, false, id);
    }
}

/// The resolved state names for each key what the forks agree on, where they do,
/// and otherwise what the algorithm for the version of the room answers; it has no
/// other keys.
pub proof fn lemma_agreed_state_stands<E>(
    rules: RoomRules,
    unconflicted: Map<StateKey, Seq<char>>,
    fetched: Seq<Fetched<E>>,
    set: Set<Seq<char>>,
    hydra_backports: bool,
    version: StateResVersion,
    key: StateKey,
)
    requires
        call_ensures(state_res_version, (&rules, hydra_backports), version),
    ensures
        ({
            let state = resolution(rules, unconflicted, fetched, set, hydra_backports);
            let answer = resolved_state(
                unconflicted,
                gathered(fetched, set, true),
                gathered(fetched, set, false),
                version,
            );
            &&& unconflicted.contains_key(key) ==> state.contains_key(key) && state[key] == unconflicted[key]
            &&& !unconflicted.contains_key(key) ==> (state.contains_key(key) <==> answer.contains_key(key))
            &&& !unconflicted.contains_key(key) && answer.contains_key(key) ==> state[key] == answer[key]
        }),
{
}

/// Nothing is disputed exactly where no key is contested.
pub proof fn lemma_what_is_undisputed(conflicted: Map<StateKey, ConflictVec>)
    ensures
        undisputed(conflicted) <==> forall|key: StateKey| !(#[trigger] conflicted.contains_key(key)),
{
    if forall|key: StateKey| !(#[trigger] conflicted.contains_key(key)) {
        assert(conflicted =~= Map::empty());
    }
}

/// A state names the id that it maps a key to.
pub proof fn lemma_named_ids(state: Map<StateKey, String>, key: StateKey)
    ensures
        named(state).contains_key(key) <==> state.contains_key(key),
        state.contains_key(key) ==> named(state)[key] == state[key]@,
{
}

/// What stands by a fetch was fetched, is of the type and state key that it stands
/// for, and was not rejected.
pub proof fn lemma_what_stands_by_a_fetch<E>(fetched: Seq<Fetched<E>>, key: StateKey, id: Seq<char>)
    requires
        stands_by_fetch(fetched, key, id),
    ensures
        exists|i: int|
            #![trigger fetched[i]]
            0 <= i < fetched.len() && fetched[i].id@ == id && fetched[i].pdu is Ok && fetched[i].pdu->Ok_0.kind@ == key.0
                && fetched[i].pdu->Ok_0.state_key is Some && fetched[i].pdu->Ok_0.state_key->Some_0@ == key.1
                && !fetched[i].pdu->Ok_0.rejected,
{
}

/// What is fetched before the state is resolved: every event of the conflicted set
/// with the power level of its sender, every event that the forks agree on, and
/// nothing else; nothing is fetched twice.
pub proof fn lemma_what_is_fetched(set: IdSet, unconflicted: StateMap<String>, requests: Vec<FetchRequest>, id: Seq<char>)
    requires
        call_ensures(fetch_requests, (&set, &unconflicted), requests),
    ensures
        set@.contains(id) ==> exists|i: int|
            0 <= i < requests@.len() && (#[trigger] requests@[i]).id@ == id && requests@[i].conflicted,
        forall|key: StateKey| #[trigger]
            unconflicted@.contains_key(key) && unconflicted@[key]@ == id ==> exists|i: int|
                0 <= i < requests@.len() && (#[trigger] requests@[i]).id@ == id,
        forall|i: int|
            #![trigger requests@[i]]
            0 <= i < requests@.len() && requests@[i].id@ == id && !set@.contains(id) ==> !requests@[i].conflicted
                && exists|key: StateKey| #[trigger] unconflicted@.contains_key(key) && unconflicted@[key]@ == id,
        forall|i: int, j: int|
            0 <= i < j < requests@.len() ==> (#[trigger] requests@[i]).id@ != (#[trigger] requests@[j]).id@,
{
    let ids = requested(requests@);
    let state = named(unconflicted@);
    assert(ids.len() == requests@.len());
    assert forall|i: int| 0 <= i < ids.len() implies #[trigger] ids[i] == requests@[i].id@ by {}
    if ids.to_set().contains(id) {
        let i = choose|i: int| 0 <= i < ids.len() && ids[i] == id;
        assert(requests@[i].id@ == id);
    }
    assert forall|key: StateKey| #[trigger]
        unconflicted@.contains_key(key) && unconflicted@[key]@ == id implies exists|i: int|
        0 <= i < requests@.len() && (#[trigger] requests@[i]).id@ == id by {
        assert(state.contains_key(key) && state[key] == id);
        assert(state.values().contains(id));
        assert(ids.to_set().contains(id));
    }
    assert forall|i: int|
        #![trigger requests@[i]]
        0 <= i < requests@.len() && requests@[i].id@ == id && !set@.contains(id) implies !requests@[i].conflicted
        && exists|key: StateKey| #[trigger] unconflicted@.contains_key(key) && unconflicted@[key]@ == id by {
        assert(ids[i] == id);
        assert(ids.to_set().contains(id));
        assert(state.values().contains(id));
        let key = choose|key: StateKey| #[trigger] state.contains_key(key) && state[key] == id;
        assert(unconflicted@.contains_key(key) && unconflicted@[key]@ == id);
    }
    assert forall|i: int, j: int| 0 <= i < j < requests@.len() implies (#[trigger] requests@[i]).id@ != (
    #[trigger] requests@[j]).id@ by {
        assert(ids[i] != ids[j]);
    }
}

/// What gathering gives: an error exactly where a fetch did not come, and then that
/// of the first one; otherwise two pools in which each id stands for the event that
/// was fetched under it, the conflicted ones in the one and the rest in the other.
pub proof fn lemma_what_gathering_gives<E>(fetched: Vec<Fetched<E>>, set: IdSet, pools: Result<Pools, E>, i: int)
    requires
        call_ensures(gather::<E>, (fetched, &set), pools),
        fetched_ids(fetched@).no_duplicates(),
        0 <= i < fetched@.len(),
    ensures
        pools is Ok <==> forall|k: int| 0 <= k < fetched@.len() ==> came(#[trigger] fetched@[k]),
        !came(fetched@[i]) && (forall|j: int| 0 <= j < i ==> came(#[trigger] fetched@[j])) ==> {
            &&& fetched@[i].pdu matches Err(e) ==> pools->Err_0 == e
            &&& fetched@[i].pdu is Ok ==> pools->Err_0 == fetched@[i].power->Some_0->Err_0
        },
        pools matches Ok(pools) ==> {
            let id = fetched@[i].id@;
            &&& by_id(pools.conflicted@).contains_key(id) <==> set@.contains(id)
            &&& by_id(pools.auth_context@).contains_key(id) <==> !set@.contains(id)
            &&& set@.contains(id) ==> by_id(pools.conflicted@)[id].event_id == fetched@[i].pdu->Ok_0.event_id@
            &&& !set@.contains(id) ==> by_id(pools.auth_context@)[id].event_id == fetched@[i].pdu->Ok_0.event_id@
        },
{
    lemma_first_failure_is_the_first(fetched@);
    if pools is Ok {
        assert(came(fetched@[i]));
        lemma_each_event_is_in_its_pool(fetched@, set@, i);
    }
}

/// What settling gives: what the forks agree on, whatever was answered; and beside
/// it what was answered.
pub proof fn lemma_what_settling_gives(
    resolved: Vec<((String, String), String)>,
    unconflicted: StateMap<String>,
    state: StateMap<String>,
    key: StateKey,
)
    requires
        call_ensures(settle, (resolved, &unconflicted), state),
    ensures
        unconflicted@.contains_key(key) ==> state@.contains_key(key) && state@[key]@ == unconflicted@[key]@,
        !unconflicted@.contains_key(key) ==> (state@.contains_key(key) <==> spelled(resolved@).contains_key(key)),
        !unconflicted@.contains_key(key) && state@.contains_key(key) ==> state@[key]@ == spelled(resolved@)[key],
{
    lemma_named_ids(state@, key);
    lemma_named_ids(unconflicted@, key);
    assert(named(state@) == spelled(resolved@).union_prefer_right(named(unconflicted@)));
}

/// What resolving a state gives. Where no key is contested, it is the state that
/// the forks agree on, whatever was fetched. Where one is, it is an error exactly
/// where a fetch did not come. What the forks agree on always stands, and whatever
/// stands beside it was fetched, is of that type and state key, and was not
/// rejected.
pub proof fn lemma_what_resolving_gives<E>(
    rules: RoomRules,
    unconflicted: StateMap<String>,
    conflicted: ConflictMap,
    set: IdSet,
    fetched: Vec<Fetched<E>>,
    hydra_backports: bool,
    r: Result<StateMap<String>, E>,
    key: StateKey,
    contested: StateKey,
)
    requires
        call_ensures(resolve::<E>, (&rules, unconflicted, &conflicted, &set, fetched, hydra_backports), r),
    ensures
        (forall|k: StateKey| !(#[trigger] conflicted@.contains_key(k))) ==> r is Ok && (r->Ok_0@.contains_key(key)
            <==> unconflicted@.contains_key(key)),
        conflicted@.contains_key(contested) ==> (r is Ok <==> forall|i: int|
            0 <= i < fetched@.len() ==> came(#[trigger] fetched@[i])),
        r is Ok && unconflicted@.contains_key(key) ==> r->Ok_0@.contains_key(key) && r->Ok_0@[key]@
            == unconflicted@[key]@,
        r is Ok && r->Ok_0@.contains_key(key) && !unconflicted@.contains_key(key) ==> exists|i: int|
            #![trigger fetched@[i]]
            0 <= i < fetched@.len() && fetched@[i].id@ == r->Ok_0@[key]@ && fetched@[i].pdu is Ok
                && fetched@[i].pdu->Ok_0.kind@ == key.0 && fetched@[i].pdu->Ok_0.state_key is Some
                && fetched@[i].pdu->Ok_0.state_key->Some_0@ == key.1 && !fetched@[i].pdu->Ok_0.rejected,
{
    lemma_what_is_undisputed(conflicted@);
    lemma_first_failure_is_the_first(fetched@);
    assert(named(unconflicted@).contains_key(key) <==> unconflicted@.contains_key(key));
    if r is Ok {
        let state = r->Ok_0;
        assert(named(state@).contains_key(key) <==> state@.contains_key(key));
        if state@.contains_key(key) && !unconflicted@.contains_key(key) {
            lemma_what_stands_by_a_fetch(fetched@, key, named(state@)[key]);
        }
    }
}

/// Where a key is contested, all came and no auth chain runs in a circle, a state is
/// resolved by the algorithm for the rules: by the first version exactly where the
/// rules know no other, and by version 2.1 with the backports or where the rules
/// begin with an empty state.
pub proof fn lemma_which_algorithm_resolves<E>(
    rules: RoomRules,
    unconflicted: StateMap<String>,
    conflicted: ConflictMap,
    set: IdSet,
    fetched: Vec<Fetched<E>>,
    hydra_backports: bool,
    r: Result<StateMap<String>, E>,
    key: StateKey,
    contested: StateKey,
)
    requires
        call_ensures(resolve::<E>, (&rules, unconflicted, &conflicted, &set, fetched, hydra_backports), r),
        r is Ok,
        conflicted@.contains_key(contested),
        auth_chains_end(fetched@, set@),
        !unconflicted@.contains_key(key),
    ensures
        ({
            let answered = |version: StateResVersion|
                resolved_state(
                    named(unconflicted@),
                    gathered(fetched@, set@, true),
                    gathered(fetched@, set@, false),
                    version,
                );
            let answer = if hydra_backports {
                answered(StateResVersion::V2_1)
            } else if rules.state_res_v2 is None {
                answered(StateResVersion::V1)
            } else if rules.state_res_v2->Some_0.begin_iterative_auth_checks_with_empty_state_map {
                answered(StateResVersion::V2_1)
            } else {
                answered(StateResVersion::V2)
            };
            &&& r->Ok_0@.contains_key(key) <==> answer.contains_key(key)
            &&& r->Ok_0@.contains_key(key) ==> r->Ok_0@[key]@ == answer[key]
        }),
{
    lemma_what_is_undisputed(conflicted@);
    assert(!undisputed(conflicted@));
    let state = r->Ok_0;
    assert(named(state@).contains_key(key) <==> state@.contains_key(key));
    assert(!named(unconflicted@).contains_key(key));
}

} // verus!
