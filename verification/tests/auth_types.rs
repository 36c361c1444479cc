use roomdag::auth_types::{auth_types_for_event, complete, MalformedContent, MAX_AUTH_EVENTS};
use roomdag::rules::{rules, RoomRules};

const ALICE: &str = "@alice:example.org";
const BOB: &str = "@bob:example.org";

fn listed(
    kind: &str,
    state_key: Option<&str>,
    content: &str,
    rules: &RoomRules,
    always_create: bool,
) -> Result<Vec<(String, String)>, MalformedContent> {
    auth_types_for_event(kind, ALICE, state_key, content, rules, always_create)
        .map(|types| types.iter().cloned().collect())
}

fn pairs(list: &[(&str, &str)]) -> Vec<(String, String)> {
    list.iter().map(|(t, k)| (t.to_string(), k.to_string())).collect()
}

fn v10() -> RoomRules {
    rules("10").unwrap()
}

fn v12() -> RoomRules {
    rules("12").unwrap()
}

#[test]
fn message_needs_create_sender_and_power_levels() {
    let expected = pairs(&[("m.room.create", ""), ("m.room.member", ALICE), ("m.room.power_levels", "")]);
    assert_eq!(listed("m.room.message", None, "{}", &v10(), false), Ok(expected.clone()));
    assert_eq!(listed("m.room.message", None, "{}", &v10(), true), Ok(expected));
}

#[test]
fn create_needs_nothing() {
    assert_eq!(listed("m.room.create", Some(""), "{}", &v10(), false), Ok(pairs(&[])));
    assert_eq!(listed("m.room.create", Some(""), "{}", &v10(), true), Ok(pairs(&[("m.room.create", "")])));
}

#[test]
fn create_is_left_out_where_the_room_id_names_it() {
    let expected = pairs(&[("m.room.member", ALICE), ("m.room.power_levels", "")]);
    assert_eq!(listed("m.room.message", None, "{}", &v12(), false), Ok(expected));
    let expected = pairs(&[("m.room.member", ALICE), ("m.room.power_levels", ""), ("m.room.create", "")]);
    assert_eq!(listed("m.room.message", None, "{}", &v12(), true), Ok(expected));
}

#[test]
fn invite_by_third_party_names_everything() {
    let content = "{\"membership\":\"invite\",\"third_party_invite\":{\"signed\":{\"token\":\"tok\"}}}";
    let expected = pairs(&[
        ("m.room.create", ""),
        ("m.room.member", ALICE),
        ("m.room.power_levels", ""),
        ("m.room.member", BOB),
        ("m.room.join_rules", ""),
        ("m.room.third_party_invite", "tok"),
    ]);
    assert_eq!(listed("m.room.member", Some(BOB), content, &v10(), false), Ok(expected));
}

#[test]
fn restricted_join_names_the_authoriser() {
    let content = "{\"membership\":\"join\",\"join_authorised_via_users_server\":\"@bob:example.org\"}";
    let expected = pairs(&[
        ("m.room.create", ""),
        ("m.room.member", ALICE),
        ("m.room.power_levels", ""),
        ("m.room.join_rules", ""),
        ("m.room.member", BOB),
    ]);
    assert_eq!(listed("m.room.member", Some(ALICE), content, &v10(), false), Ok(expected));
}

#[test]
fn ban_does_not_need_the_join_rules() {
    let expected = pairs(&[
        ("m.room.create", ""),
        ("m.room.member", ALICE),
        ("m.room.power_levels", ""),
        ("m.room.member", BOB),
    ]);
    assert_eq!(listed("m.room.member", Some(BOB), "{\"membership\":\"ban\"}", &v10(), false), Ok(expected));
}

#[test]
fn malformed_membership_is_refused() {
    let refused = Err(MalformedContent::Membership);
    assert_eq!(listed("m.room.member", Some(BOB), "not json", &v10(), false), refused);
    assert_eq!(listed("m.room.member", Some(BOB), "[]", &v10(), false), refused);
    assert_eq!(listed("m.room.member", Some(BOB), "{}", &v10(), false), refused);
    assert_eq!(listed("m.room.member", Some(BOB), "{\"membership\":7}", &v10(), true), refused);
}

#[test]
fn malformed_third_party_invite_is_refused() {
    let refused = Err(MalformedContent::ThirdPartyInvite);
    let content = "{\"membership\":\"invite\",\"third_party_invite\":{}}";
    assert_eq!(listed("m.room.member", Some(BOB), content, &v10(), false), refused);
    let content = "{\"membership\":\"invite\",\"third_party_invite\":{\"signed\":{\"token\":1}}}";
    assert_eq!(listed("m.room.member", Some(BOB), content, &v10(), false), refused);
    let content = "{\"membership\":\"invite\",\"third_party_invite\":null}";
    assert_eq!(listed("m.room.member", Some(BOB), content, &v10(), false).unwrap().len(), 5);
}

#[test]
fn malformed_authoriser_is_refused() {
    let refused = Err(MalformedContent::JoinAuthorisedViaUsersServer);
    let content = "{\"membership\":\"join\",\"join_authorised_via_users_server\":[]}";
    assert_eq!(listed("m.room.member", Some(ALICE), content, &v10(), false), refused);
    let content = "{\"membership\":\"leave\",\"join_authorised_via_users_server\":[]}";
    assert_eq!(listed("m.room.member", Some(ALICE), content, &v10(), false).unwrap().len(), 3);
}

#[test]
fn other_contents_are_not_read() {
    assert_eq!(listed("m.room.topic", Some(""), "not json", &v10(), false).unwrap().len(), 3);
}

#[test]
fn selection_is_completed_once() {
    let selection = pairs(&[("m.room.create", ""), ("m.room.member", ALICE)]);
    assert_eq!(complete(selection.clone(), true).len(), 2);
    let selection = pairs(&[("m.room.member", ALICE)]);
    let types = complete(selection.clone(), true);
    assert_eq!(types.last(), Some(&("m.room.create".to_owned(), String::new())));
    assert_eq!(complete(selection, false).len(), 1);
    assert_eq!(types.capacity(), MAX_AUTH_EVENTS);
}
