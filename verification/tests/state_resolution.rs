use roomdag::algorithm::{state_res_version, StateResVersion};
use roomdag::conflict::{ConflictMap, ConflictVec};
use roomdag::conflicted_set::{
    conflict_candidates, conflicted_state_set, consider_conflicted_subgraph, full_conflicted_set,
};
use roomdag::ids::IdSet;
use roomdag::resolve::{
    fetch_requests, gather, lean_event, resolve, sender_power, settle, Fetched, Pdu, UserPowerLevel,
};
use roomdag::rules::{rules, RoomRules, StateResV2Rules, UnsupportedRoomVersion};
use roomdag::state_map::StateMap;

const ALICE: &str = "@alice:example.org";

fn owned(ids: &[&str]) -> Vec<String> {
    ids.iter().map(|id| id.to_string()).collect()
}

fn pdu(id: &str, kind: &str, state_key: Option<&str>, content: &str, ts: u64, auth: &[&str]) -> Pdu {
    Pdu {
        event_id: id.to_owned(),
        kind: kind.to_owned(),
        state_key: state_key.map(str::to_owned),
        origin_server_ts: ts,
        sender: ALICE.to_owned(),
        content: content.to_owned(),
        prev_events: Vec::new(),
        auth_events: owned(auth),
        depth: ts,
        rejected: false,
    }
}

fn create() -> Pdu {
    let content = format!("{{\"creator\":\"{ALICE}\",\"room_version\":\"10\"}}");
    pdu("$create", "m.room.create", Some(""), &content, 1, &[])
}

fn join() -> Pdu {
    pdu("$join", "m.room.member", Some(ALICE), "{\"membership\":\"join\"}", 2, &["$create"])
}

fn power() -> Pdu {
    let content = format!("{{\"users\":{{\"{ALICE}\":100}}}}");
    pdu("$power", "m.room.power_levels", Some(""), &content, 3, &["$create", "$join"])
}

fn topic(id: &str, text: &str, ts: u64) -> Pdu {
    let content = format!("{{\"topic\":\"{text}\"}}");
    pdu(id, "m.room.topic", Some(""), &content, ts, &["$create", "$join", "$power"])
}

fn fetched(pdu: Pdu, power: Option<i64>) -> Fetched<String> {
    Fetched { id: pdu.event_id.clone(), pdu: Ok(pdu), power: power.map(|x| Ok(UserPowerLevel::Int(x))) }
}

fn agreed() -> StateMap<String> {
    let mut state = StateMap::new();
    state.insert("m.room.create".to_owned(), String::new(), "$create".to_owned());
    state.insert("m.room.member".to_owned(), ALICE.to_owned(), "$join".to_owned());
    state.insert("m.room.power_levels".to_owned(), String::new(), "$power".to_owned());
    state
}

fn disputed() -> ConflictMap {
    let mut conflicts = ConflictMap::new();
    let contest = ConflictVec::from_ids(&owned(&["$topic2", "$topic1"]));
    conflicts.insert("m.room.topic".to_owned(), String::new(), contest);
    conflicts
}

fn set_of(ids: &[&str]) -> IdSet {
    let mut set = IdSet::new();
    for id in ids {
        set.insert(id);
    }
    set
}

fn v10() -> RoomRules {
    rules("10").unwrap()
}

fn topic_of(state: &StateMap<String>) -> Option<&String> {
    state.get("m.room.topic", "")
}

#[test]
fn later_topic_stands() {
    let all = vec![
        fetched(topic("$topic1", "old", 10), Some(100)),
        fetched(create(), None),
        fetched(topic("$topic2", "new", 20), Some(100)),
        fetched(power(), None),
        fetched(join(), None),
    ];
    let state = resolve(&v10(), agreed(), &disputed(), &set_of(&["$topic1", "$topic2"]), all, false).unwrap();
    assert_eq!(topic_of(&state), Some(&"$topic2".to_owned()));
    assert_eq!(state.len(), 4);
}

#[test]
fn order_of_fetches_does_not_matter() {
    let all = vec![
        fetched(join(), None),
        fetched(topic("$topic2", "new", 20), Some(100)),
        fetched(power(), None),
        fetched(topic("$topic1", "old", 10), Some(100)),
        fetched(create(), None),
    ];
    let state = resolve(&v10(), agreed(), &disputed(), &set_of(&["$topic1", "$topic2"]), all, false).unwrap();
    assert_eq!(topic_of(&state), Some(&"$topic2".to_owned()));
}

#[test]
fn rejected_event_never_stands() {
    let mut newer = topic("$topic2", "new", 20);
    newer.rejected = true;
    let all = vec![
        fetched(create(), None),
        fetched(join(), None),
        fetched(power(), None),
        fetched(topic("$topic1", "old", 10), Some(100)),
        fetched(newer, Some(100)),
    ];
    let state = resolve(&v10(), agreed(), &disputed(), &set_of(&["$topic1", "$topic2"]), all, false).unwrap();
    assert_eq!(topic_of(&state), Some(&"$topic1".to_owned()));
}

#[test]
fn agreed_state_stands_whatever_is_disputed() {
    let all = vec![
        fetched(create(), None),
        fetched(join(), None),
        fetched(power(), None),
        fetched(topic("$topic1", "old", 10), Some(100)),
        fetched(topic("$topic2", "new", 20), Some(100)),
    ];
    let state = resolve(&v10(), agreed(), &disputed(), &set_of(&["$topic1", "$topic2"]), all, true).unwrap();
    assert_eq!(state.get("m.room.create", ""), Some(&"$create".to_owned()));
    assert_eq!(state.get("m.room.member", ALICE), Some(&"$join".to_owned()));
    assert_eq!(state.get("m.room.power_levels", ""), Some(&"$power".to_owned()));
}

#[test]
fn without_dispute_the_agreed_state_is_returned() {
    let failing: Vec<Fetched<String>> =
        vec![Fetched { id: "$x".to_owned(), pdu: Err("gone".to_owned()), power: None }];
    let state = resolve(&v10(), agreed(), &ConflictMap::new(), &IdSet::new(), failing, false).unwrap();
    assert_eq!(state.len(), 3);
    assert!(topic_of(&state).is_none());
}

#[test]
fn first_failure_is_returned() {
    let all = vec![
        fetched(create(), None),
        Fetched { id: "$a".to_owned(), pdu: Ok(topic("$a", "x", 5)), power: Some(Err("no power".to_owned())) },
        Fetched { id: "$b".to_owned(), pdu: Err("not found".to_owned()), power: None },
    ];
    let failure = resolve(&v10(), agreed(), &disputed(), &set_of(&["$a", "$b"]), all, false).err();
    assert_eq!(failure, Some("no power".to_owned()));
    let all = vec![
        Fetched { id: "$b".to_owned(), pdu: Err("not found".to_owned()), power: None },
        Fetched { id: "$a".to_owned(), pdu: Ok(topic("$a", "x", 5)), power: Some(Err("no power".to_owned())) },
    ];
    let failure = resolve(&v10(), agreed(), &disputed(), &set_of(&["$a", "$b"]), all, false).err();
    assert_eq!(failure, Some("not found".to_owned()));
}

#[test]
fn fetched_events_are_parted_by_the_conflicted_set() {
    let all = vec![fetched(create(), None), fetched(topic("$topic1", "old", 10), Some(7))];
    let pools = gather(all, &set_of(&["$topic1"])).ok().unwrap();
    assert_eq!(pools.conflicted.len(), 1);
    assert_eq!(pools.conflicted[0].event_id, "$topic1");
    assert_eq!(pools.conflicted[0].power_level, 7);
    assert!(!pools.conflicted[0].soft_fail);
    assert_eq!(pools.auth_context.len(), 1);
    assert_eq!(pools.auth_context[0].event_id, "$create");
    assert_eq!(pools.auth_context[0].power_level, 0);
}

#[test]
fn lean_event_keeps_every_field() {
    let lean = lean_event(topic("$topic1", "old", 10), Some(UserPowerLevel::Infinite));
    assert_eq!(lean.event_id, "$topic1");
    assert_eq!(lean.event_type, "m.room.topic");
    assert_eq!(lean.state_key, Some(String::new()));
    assert_eq!(lean.power_level, i64::MAX);
    assert_eq!(lean.origin_server_ts, 10);
    assert_eq!(lean.sender, ALICE);
    assert_eq!(lean.content, "{\"topic\":\"old\"}");
    assert_eq!(lean.auth_events, owned(&["$create", "$join", "$power"]));
    assert_eq!(lean.depth, 10);
}

#[test]
fn power_levels_as_numbers() {
    assert_eq!(sender_power(Some(UserPowerLevel::Infinite)), i64::MAX);
    assert_eq!(sender_power(Some(UserPowerLevel::Int(-5))), -5);
    assert_eq!(sender_power(None), 0);
}

#[test]
fn agreed_state_goes_over_the_answer() {
    let answer = vec![
        (("a".to_owned(), String::new()), "$answer_a".to_owned()),
        (("b".to_owned(), String::new()), "$answer_b".to_owned()),
    ];
    let mut agreed = StateMap::new();
    agreed.insert("b".to_owned(), String::new(), "$agreed_b".to_owned());
    agreed.insert("c".to_owned(), "k".to_owned(), "$agreed_c".to_owned());
    let state = settle(answer, &agreed);
    assert_eq!(state.len(), 3);
    assert_eq!(state.get("a", ""), Some(&"$answer_a".to_owned()));
    assert_eq!(state.get("b", ""), Some(&"$agreed_b".to_owned()));
    assert_eq!(state.get("c", "k"), Some(&"$agreed_c".to_owned()));
}

fn with_v2(begin_empty: bool, subgraph: bool) -> RoomRules {
    RoomRules {
        state_res_v2: Some(StateResV2Rules {
            begin_iterative_auth_checks_with_empty_state_map: begin_empty,
            consider_conflicted_state_subgraph: subgraph,
        }),
        ..v10()
    }
}

#[test]
fn version_of_the_algorithm() {
    let v1 = RoomRules { state_res_v2: None, ..v10() };
    assert_eq!(state_res_version(&v1, false), StateResVersion::V1);
    assert_eq!(state_res_version(&v1, true), StateResVersion::V2_1);
    assert_eq!(state_res_version(&with_v2(false, true), false), StateResVersion::V2);
    assert_eq!(state_res_version(&with_v2(false, false), true), StateResVersion::V2_1);
    assert_eq!(state_res_version(&with_v2(true, false), false), StateResVersion::V2_1);
}

#[test]
fn rules_of_known_versions() {
    let first = rules("1").unwrap();
    assert!(first.state_res_v2.is_none());
    assert!(first.require_event_id);
    assert!(first.check_event_id_server);
    assert!(!first.room_create_event_id_as_room_id);
    let tenth = rules("10").unwrap();
    assert!(!tenth.state_res_v2.unwrap().consider_conflicted_state_subgraph);
    assert!(!tenth.require_event_id);
    assert!(tenth.check_join_authorised_via_users_server);
    let twelfth = rules("12").unwrap();
    assert!(twelfth.state_res_v2.unwrap().begin_iterative_auth_checks_with_empty_state_map);
    assert!(twelfth.state_res_v2.unwrap().consider_conflicted_state_subgraph);
    assert!(twelfth.room_create_event_id_as_room_id);
}

#[test]
fn rules_go_by_the_number_of_the_version() {
    for n in 1..=12u32 {
        let found = rules(&n.to_string()).unwrap();
        assert_eq!(found.state_res_v2.is_none(), n == 1);
        assert_eq!(found.require_event_id, n <= 2);
        assert_eq!(found.check_event_id_server, n <= 2);
        assert_eq!(found.check_join_authorised_via_users_server, n >= 8);
        assert_eq!(found.room_create_event_id_as_room_id, n == 12);
        if let Some(v2) = found.state_res_v2 {
            assert_eq!(v2.begin_iterative_auth_checks_with_empty_state_map, n == 12);
            assert_eq!(v2.consider_conflicted_state_subgraph, n == 12);
        }
    }
}

#[test]
fn unknown_version_is_refused() {
    for version in ["no-such-version", "", "0", "13", "01", "1 ", "org.matrix.hydra.11"] {
        assert_eq!(rules(version), Err(UnsupportedRoomVersion));
    }
}

#[test]
fn contested_ids_are_listed_once_in_order() {
    let mut conflicts = ConflictMap::new();
    conflicts.insert("b".to_owned(), String::new(), ConflictVec::from_ids(&owned(&["$z", "$m", "$a"])));
    conflicts.insert("a".to_owned(), String::new(), ConflictVec::from_ids(&owned(&["$m", "$b"])));
    assert_eq!(conflicted_state_set(&conflicts), owned(&["$a", "$b", "$m", "$z"]));
    let candidates = conflict_candidates(&owned(&["$q", "$a"]), &conflicts);
    assert_eq!(candidates, owned(&["$q", "$a", "$a", "$b", "$m", "$z"]));
}

#[test]
fn contest_keeps_its_ids() {
    let contest = ConflictVec::from_ids(&owned(&["$3", "$1", "$2"]));
    assert_eq!(contest.ids(), owned(&["$3", "$1", "$2"]));
}

#[test]
fn only_existing_events_take_part() {
    let difference = owned(&["$a", "$b"]);
    let mut conflicts = ConflictMap::new();
    conflicts.insert("t".to_owned(), String::new(), ConflictVec::from_ids(&owned(&["$c", "$e"])));
    let existing = set_of(&["$a", "$c", "$f"]);
    let subgraph = owned(&["$d"]);
    let set = full_conflicted_set(&with_v2(false, false), &difference, &conflicts, &existing, &subgraph, false);
    assert_eq!(set.len(), 2);
    assert!(set.contains("$a") && set.contains("$c"));
    let set = full_conflicted_set(&with_v2(false, true), &difference, &conflicts, &existing, &subgraph, false);
    assert_eq!(set.len(), 3);
    assert!(set.contains("$d"));
    let set = full_conflicted_set(&with_v2(false, false), &difference, &conflicts, &existing, &subgraph, true);
    assert!(set.contains("$d"));
}

#[test]
fn order_of_the_auth_difference_does_not_matter() {
    let existing = set_of(&["$a", "$b"]);
    for difference in [owned(&["$a", "$b"]), owned(&["$b", "$a", "$b"])] {
        let set = full_conflicted_set(&v10(), &difference, &ConflictMap::new(), &existing, &Vec::new(), false);
        assert_eq!(set.len(), 2);
        assert!(set.contains("$a") && set.contains("$b"));
    }
}

#[test]
fn subgraph_is_considered_by_rule_or_backport() {
    assert!(!consider_conflicted_subgraph(&with_v2(true, false), false));
    assert!(consider_conflicted_subgraph(&with_v2(false, true), false));
    assert!(consider_conflicted_subgraph(&with_v2(false, false), true));
    assert!(!consider_conflicted_subgraph(&RoomRules { state_res_v2: None, ..v10() }, false));
}

#[test]
fn each_event_is_requested_once() {
    let mut agreed = agreed();
    agreed.insert("m.room.topic".to_owned(), String::new(), "$topic1".to_owned());
    let requests = fetch_requests(&set_of(&["$topic1", "$topic2"]), &agreed);
    let mut seen: Vec<(String, bool)> = requests.into_iter().map(|r| (r.id, r.conflicted)).collect();
    seen.sort();
    let expected: Vec<(String, bool)> =
        [("$create", false), ("$join", false), ("$power", false), ("$topic1", true), ("$topic2", true)]
            .iter()
            .map(|(id, c)| (id.to_string(), *c))
            .collect();
    assert_eq!(seen, expected);
}
