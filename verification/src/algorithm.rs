//! The state resolution algorithm, as it is called.

use crate::ids::texts;
use crate::rules::{lemma_rules_of_specified_version, rules_of_version, RoomRules};
use crate::state_map::StateKey;
use crate::text::{decimal, optional_text};
use rezzy::LeanEvent as PoolEvent;
use rezzy::StateResVersion as Algorithm;
use vstd::prelude::*;

verus! {

/// The version of the state resolution algorithm.
#[allow(non_camel_case_types)]
#[derive(Clone, Copy, Debug, PartialEq, Eq, Structural)]
pub enum StateResVersion {
    V1,
    V2,
    V2_1,
}

/// An event as state resolution takes it.
pub struct LeanEvent {
    pub event_id: String,
    pub event_type: String,
    pub state_key: Option<String>,
    pub power_level: i64,
    pub origin_server_ts: u64,
    pub sender: String,
    /// The content, as JSON text.
    pub content: String,
    pub prev_events: Vec<String>,
    pub auth_events: Vec<String>,
    pub depth: u64,
    pub rejected: bool,
    pub soft_fail: bool,
}

/// What a [`LeanEvent`] says.
pub struct LeanEventView {
    pub event_id: Seq<char>,
    pub event_type: Seq<char>,
    pub state_key: Option<Seq<char>>,
    pub power_level: i64,
    pub origin_server_ts: u64,
    pub sender: Seq<char>,
    pub content: Seq<char>,
    pub prev_events: Seq<Seq<char>>,
    pub auth_events: Seq<Seq<char>>,
    pub depth: u64,
    pub rejected: bool,
    pub soft_fail: bool,
}

impl View for LeanEvent {
    type V = LeanEventView;

    open spec fn view(&self) -> LeanEventView {
        LeanEventView {
            event_id: self.event_id@,
            event_type: self.event_type@,
            state_key: optional_text(self.state_key),
            power_level: self.power_level,
            origin_server_ts: self.origin_server_ts,
            sender: self.sender@,
            content: self.content@,
            prev_events: texts(self.prev_events@),
            auth_events: texts(self.auth_events@),
            depth: self.depth,
            rejected: self.rejected,
            soft_fail: self.soft_fail,
        }
    }
}

/// Events by their id; of two with the same id the later one stands.
pub open spec fn by_id(events: Seq<LeanEvent>) -> Map<Seq<char>, LeanEventView>
    decreases events.len(),
{
    if events.len() == 0 {
        Map::empty()
    } else {
        by_id(events.drop_last()).insert(events.last().event_id@, events.last()@)
    }
}

/// The state that a list of entries spells out.
pub open spec fn spelled(entries: Seq<((String, String), String)>) -> Map<StateKey, Seq<char>>
    decreases entries.len(),
{
    if entries.len() == 0 {
        Map::empty()
    } else {
        spelled(entries.drop_last()).insert((entries.last().0.0@, entries.last().0.1@), entries.last().1@)
    }
}

/// Whether an event may stand for a key of the resolved state.
pub open spec fn may_stand(event: LeanEventView, key: StateKey) -> bool {
    &&& event.event_type == key.0
    &&& event.state_key == Some(key.1)
    &&& !event.rejected
    &&& !event.soft_fail
}

/// Whether each auth event of an event that is at hand has a lower rank.
pub open spec fn ranked(events: Map<Seq<char>, LeanEventView>, rank: spec_fn(Seq<char>) -> nat) -> bool {
    forall|id: Seq<char>, auth: Seq<char>|
        events.contains_key(id) && events.contains_key(auth) && #[trigger] events[id].auth_events.contains(auth) ==> rank(auth)
            < rank(id)
}

/// Whether the auth events of the events at hand lead nowhere in a circle.
pub open spec fn acyclic(events: Map<Seq<char>, LeanEventView>) -> bool {
    exists|rank: spec_fn(Seq<char>) -> nat| ranked(events, rank)
}

/// The state that the resolution algorithm arrives at.
pub uninterp spec fn resolved_state(
    unconflicted: Map<StateKey, Seq<char>>,
    conflicted: Map<Seq<char>, LeanEventView>,
    auth_context: Map<Seq<char>, LeanEventView>,
    version: StateResVersion,
) -> Map<StateKey, Seq<char>>;

/// The pool of events that the algorithm draws on.
type EventPool = rezzy::HashMap<String, PoolEvent>;

/// `rezzy::resolve_iterative_sort`, on events keyed by their own ids and with a
/// fresh cache of power levels. The contract claims that the result is a
/// function of the arguments wherever the auth events do not run in a circle
/// (in a circle the order in which hash maps are walked shows through), that
/// every key of the unconflicted state is in the result, and that whatever
/// stands in the result is from the unconflicted state or is an event among the
/// given ones, with that type and state key, that is neither rejected nor soft
/// failed. How the algorithm picks among such events is not stated. The function
/// reads no event that is missing, so it does not panic on an incomplete pool.
#[verifier::external_body]
pub(crate) fn resolve_iterative_sort(
    unconflicted: Vec<((String, String), String)>,
    conflicted: Vec<LeanEvent>,
    auth_context: Vec<LeanEvent>,
    version: StateResVersion,
) -> (resolved: Vec<((String, String), String)>)
    ensures
        acyclic(by_id(auth_context@).union_prefer_right(by_id(conflicted@))) ==> spelled(resolved@) == resolved_state(
            spelled(unconflicted@),
            by_id(conflicted@),
            by_id(auth_context@),
            version,
        ),
        spelled(unconflicted@).dom().subset_of(spelled(resolved@).dom()),
        forall|key: StateKey| #[trigger]
            spelled(resolved@).contains_key(key) ==> {
                ||| spelled(unconflicted@).contains_key(key) && spelled(unconflicted@)[key] == spelled(resolved@)[key]
                ||| by_id(conflicted@).contains_key(spelled(resolved@)[key]) && may_stand(
                    by_id(conflicted@)[spelled(resolved@)[key]],
                    key,
                )
                ||| by_id(auth_context@).contains_key(spelled(resolved@)[key]) && may_stand(
                    by_id(auth_context@)[spelled(resolved@)[key]],
                    key,
                )
            },
{
    let lean = |LeanEvent { event_id, event_type, state_key, power_level, origin_server_ts, sender, content, prev_events, auth_events, depth, rejected, soft_fail }: LeanEvent| {
        let content = serde_json::from_str(&content).unwrap_or_default();
        (event_id.clone(), PoolEvent { event_id, event_type, state_key, power_level, origin_server_ts, sender, content, prev_events, auth_events, depth, rejected, soft_fail })
    };
    let version = match version {
        StateResVersion::V1 => Algorithm::V1,
        StateResVersion::V2 => Algorithm::V2,
        StateResVersion::V2_1 => Algorithm::V2_1,
    };
    let conflicted: EventPool = conflicted.into_iter().map(lean).collect();
    let auth_context: EventPool = auth_context.into_iter().map(lean).collect();
    let state = unconflicted.into_iter().collect();
    rezzy::resolve_iterative_sort(state, conflicted, &auth_context, version, &mut Default::default()).into_iter().collect()
}

/// Which version of the algorithm a room uses.
pub open spec fn version_for(rules: RoomRules, hydra_backports: bool) -> StateResVersion {
    if hydra_backports || (rules.state_res_v2 matches Some(v2)
        && v2.begin_iterative_auth_checks_with_empty_state_map) {
        StateResVersion::V2_1
    } else if rules.state_res_v2 is None {
        StateResVersion::V1
    } else {
        StateResVersion::V2
    }
}

/// Chooses the version of the algorithm.
pub fn state_res_version(rules: &RoomRules, hydra_backports: bool) -> (version: StateResVersion)
    ensures
        version == version_for(*rules, hydra_backports),
{
    match rules.state_res_v2 {
        Some(v2) => if v2.begin_iterative_auth_checks_with_empty_state_map || hydra_backports {
            StateResVersion::V2_1
        } else {
            StateResVersion::V2
        },
        None => if hydra_backports {
            StateResVersion::V2_1
        } else {
            StateResVersion::V1
        },
    }
}

/// The first version of the algorithm is for rooms that know no other, and the
/// backports and the rules that begin with an empty state ask for version 2.1.
pub proof fn lemma_version_goes_by_the_rules(rules: RoomRules, hydra_backports: bool, version: StateResVersion)
    requires
        call_ensures(state_res_version, (&rules, hydra_backports), version),
    ensures
        version is V1 <==> rules.state_res_v2 is None && !hydra_backports,
        hydra_backports ==> version is V2_1,
        !hydra_backports && rules.state_res_v2 is Some ==> (version is V2_1
            <==> rules.state_res_v2->Some_0.begin_iterative_auth_checks_with_empty_state_map),
        !hydra_backports && rules.state_res_v2 is Some ==> (version is V2
            <==> !rules.state_res_v2->Some_0.begin_iterative_auth_checks_with_empty_state_map),
{
}

/// Without backports, the rooms of the first version use the first version of the
/// algorithm, those of versions 2 to 11 the second, and those of version 12
/// version 2.1.
pub proof fn lemma_version_goes_by_the_room_version(n: nat, rules: RoomRules, version: StateResVersion)
    requires
        1 <= n <= 12,
        rules_of_version(decimal(n)) == Some(rules),
        call_ensures(state_res_version, (&rules, false), version),
    ensures
        version is V1 <==> n == 1,
        version is V2 <==> 2 <= n <= 11,
        version is V2_1 <==> n == 12,
{
    lemma_rules_of_specified_version(n);
}

/// Events by their id: each id of the list is there and no other, and under it
/// the last event of the list that has it.
pub proof fn lemma_by_id_keeps_the_last(events: Seq<LeanEvent>)
    ensures
        forall|id: Seq<char>| #[trigger]
            by_id(events).contains_key(id) <==> exists|i: int| 0 <= i < events.len() && (#[trigger] events[i]).event_id@ == id,
        forall|i: int|
            #![trigger events[i]]
            0 <= i < events.len() && (forall|j: int|
                i < j < events.len() ==> (#[trigger] events[j]).event_id@ != events[i].event_id@) ==> by_id(
                events,
            )[events[i].event_id@] == events[i]@,
    decreases events.len(),
{
    if events.len() > 0 {
        let front = events.drop_last();
        let last = events.len() - 1;
        lemma_by_id_keeps_the_last(front);
        assert forall|id: Seq<char>| #[trigger] by_id(events).contains_key(id) <==> exists|i: int|
            0 <= i < events.len() && (#[trigger] events[i]).event_id@ == id by {
            assert(by_id(events).contains_key(id) <==> by_id(front).contains_key(id) || events[last].event_id@ == id);
            if by_id(front).contains_key(id) {
                let i = choose|i: int| 0 <= i < front.len() && (#[trigger] front[i]).event_id@ == id;
                assert(events[i].event_id@ == id);
            }
            if exists|i: int| 0 <= i < events.len() && (#[trigger] events[i]).event_id@ == id {
                let i = choose|i: int| 0 <= i < events.len() && (#[trigger] events[i]).event_id@ == id;
                if i < last {
                    assert(front[i].event_id@ == id);
                }
            }
        }
        assert forall|i: int|
            #![trigger events[i]]
            0 <= i < events.len() && (forall|j: int|
                i < j < events.len() ==> (#[trigger] events[j]).event_id@ != events[i].event_id@) implies by_id(
            events,
        )[events[i].event_id@] == events[i]@ by {
            if i < last {
                assert(front[i] == events[i]);
                assert(events[last].event_id@ != events[i].event_id@);
                assert forall|j: int| i < j < front.len() implies (#[trigger] front[j]).event_id@ != front[i].event_id@ by {
                    assert(events[j].event_id@ != events[i].event_id@);
                }
            }
        }
    }
}

/// What a list of entries spells out: each key of the list and no other, with the
/// id of the last entry that has it.
pub proof fn lemma_spelled_keeps_the_last(entries: Seq<((String, String), String)>)
    ensures
        forall|key: StateKey| #[trigger]
            spelled(entries).contains_key(key) <==> exists|i: int|
                0 <= i < entries.len() && ((#[trigger] entries[i]).0.0@, entries[i].0.1@) == key,
        forall|i: int|
            #![trigger entries[i]]
            0 <= i < entries.len() && (forall|j: int|
                i < j < entries.len() ==> ((#[trigger] entries[j]).0.0@ != entries[i].0.0@ || entries[j].0.1@
                    != entries[i].0.1@)) ==> spelled(entries)[(entries[i].0.0@, entries[i].0.1@)] == entries[i].1@,
    decreases entries.len(),
{
    if entries.len() > 0 {
        let front = entries.drop_last();
        let last = entries.len() - 1;
        lemma_spelled_keeps_the_last(front);
        assert forall|key: StateKey| #[trigger] spelled(entries).contains_key(key) <==> exists|i: int|
            0 <= i < entries.len() && ((#[trigger] entries[i]).0.0@, entries[i].0.1@) == key by {
            assert(spelled(entries).contains_key(key) <==> spelled(front).contains_key(key) || (
                entries[last].0.0@,
                entries[last].0.1@,
            ) == key);
            if spelled(front).contains_key(key) {
                let i = choose|i: int| 0 <= i < front.len() && ((#[trigger] front[i]).0.0@, front[i].0.1@) == key;
                assert((entries[i].0.0@, entries[i].0.1@) == key);
            }
            if exists|i: int| 0 <= i < entries.len() && ((#[trigger] entries[i]).0.0@, entries[i].0.1@) == key {
                let i = choose|i: int|
                    0 <= i < entries.len() && ((#[trigger] entries[i]).0.0@, entries[i].0.1@) == key;
                if i < last {
                    assert((front[i].0.0@, front[i].0.1@) == key);
                }
            }
        }
        assert forall|i: int|
            #![trigger entries[i]]
            0 <= i < entries.len() && (forall|j: int|
                i < j < entries.len() ==> ((#[trigger] entries[j]).0.0@ != entries[i].0.0@ || entries[j].0.1@
                    != entries[i].0.1@)) implies spelled(entries)[(entries[i].0.0@, entries[i].0.1@)]
            == entries[i].1@ by {
            if i < last {
                assert(front[i] == entries[i]);
                assert(entries[last].0.0@ != entries[i].0.0@ || entries[last].0.1@ != entries[i].0.1@);
                assert forall|j: int| i < j < front.len() implies ((#[trigger] front[j]).0.0@ != front[i].0.0@
                    || front[j].0.1@ != front[i].0.1@) by {
                    assert(entries[j].0.0@ != entries[i].0.0@ || entries[j].0.1@ != entries[i].0.1@);
                }
            }
        }
    }
}

/// An event that was rejected or failed softly never stands, nor does an event
/// without a state key, nor one under another type or state key than its own.
pub proof fn lemma_what_may_stand(event: LeanEventView, key: StateKey)
    ensures
        event.rejected ==> !may_stand(event, key),
        event.soft_fail ==> !may_stand(event, key),
        event.state_key is None ==> !may_stand(event, key),
        may_stand(event, key) ==> event.event_type == key.0 && event.state_key->Some_0 == key.1,
{
}

} // verus!
