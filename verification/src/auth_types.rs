//! Which state authorises an event.

use crate::algorithm::StateResVersion;
use crate::json::{as_text, is_null, json, member, parse, said, Json};
use crate::rules::RoomRules;
use crate::state_map::StateKey;
use crate::text::{optional_str, same};
use vstd::prelude::*;

verus! {

/// The most auth events that an event can have.
pub const MAX_AUTH_EVENTS: usize = 10;

/// `arrayvec::ArrayVec`, of which [`auth_types`] says what it holds.
#[verifier::external_type_specification]
#[verifier::external_body]
#[verifier::reject_recursive_types(T)]
pub struct ExArrayVec<T, const CAP: usize>(arrayvec::ArrayVec<T, CAP>);

/// Event types and state keys of the auth events of one event.
pub type AuthTypes = arrayvec::ArrayVec<(String, String), MAX_AUTH_EVENTS>;

/// The keys that an [`AuthTypes`] holds, in their order.
pub uninterp spec fn auth_types(types: AuthTypes) -> Seq<StateKey>;

/// `arrayvec::ArrayVec::new`: a vector that holds nothing.
#[verifier::external_body]
fn no_auth_types() -> (types: AuthTypes)
    ensures
        auth_types(types) == Seq::<StateKey>::empty(),
{
    AuthTypes::new()
}

/// `arrayvec::ArrayVec::push`, which panics on a full vector: the vector holds
/// one key more, at its end.
#[verifier::external_body]
fn push_auth_type(types: &mut AuthTypes, event_type: String, state_key: String)
    requires
        auth_types(*old(types)).len() < MAX_AUTH_EVENTS,
    ensures
        auth_types(*final(types)) == auth_types(*old(types)).push((event_type@, state_key@)),
{
    types.push((event_type, state_key));
}

/// The slice that an `arrayvec::ArrayVec` derefs to, and its `contains`.
#[verifier::external_body]
fn contains_auth_type(types: &AuthTypes, event_type: &str, state_key: &str) -> (found: bool)
    ensures
        found == auth_types(*types).contains((event_type@, state_key@)),
{
    types.contains(&(event_type.to_owned(), state_key.to_owned()))
}

/// The key of the event that created the room.
pub open spec fn create_key() -> StateKey {
    ("m.room.create"@, ""@)
}

/// The keys that every event but the creation of the room is authorised by.
pub open spec fn common_types(sender: Seq<char>, version: StateResVersion) -> Seq<StateKey> {
    let rest = seq![("m.room.member"@, sender), ("m.room.power_levels"@, ""@)];
    if version is V2_1 {
        rest
    } else {
        seq![create_key()] + rest
    }
}

/// The member whom a membership event is about, where it is not the sender.
pub open spec fn target_types(sender: Seq<char>, state_key: Option<Seq<char>>) -> Seq<StateKey> {
    match state_key {
        Some(target) => if target != sender {
            seq![("m.room.member"@, target)]
        } else {
            seq![]
        },
        None => seq![],
    }
}

/// The join rules, for memberships that they govern.
pub open spec fn join_rules_types(membership: Option<Seq<char>>) -> Seq<StateKey> {
    if membership == Some("join"@) || membership == Some("invite"@) || membership == Some("knock"@) {
        seq![("m.room.join_rules"@, ""@)]
    } else {
        seq![]
    }
}

/// The token of the third party invite that a content holds.
pub open spec fn invite_token(content: Json) -> Option<Seq<char>> {
    match content.member("third_party_invite"@) {
        Some(invite) => match invite.member("signed"@) {
            Some(signed) => signed.text_member("token"@),
            None => None,
        },
        None => None,
    }
}

/// The third party invite that a content refers to.
pub open spec fn invite_types(content: Json) -> Seq<StateKey> {
    match invite_token(content) {
        Some(token) => seq![("m.room.third_party_invite"@, token)],
        None => seq![],
    }
}

/// The user who authorised a join.
pub open spec fn authoriser_types(membership: Option<Seq<char>>, content: Json) -> Seq<StateKey> {
    match content.text_member("join_authorised_via_users_server"@) {
        Some(user) => if membership == Some("join"@) {
            seq![("m.room.member"@, user)]
        } else {
            seq![]
        },
        None => seq![],
    }
}

/// The keys of the state that authorises an event.
pub open spec fn selected(
    event_type: Seq<char>,
    sender: Seq<char>,
    state_key: Option<Seq<char>>,
    content: Json,
    version: StateResVersion,
) -> Seq<StateKey> {
    let membership = content.text_member("membership"@);
    if event_type == "m.room.create"@ {
        seq![]
    } else if event_type == "m.room.member"@ {
        common_types(sender, version) + target_types(sender, state_key) + join_rules_types(membership) + invite_types(
            content,
        ) + authoriser_types(membership, content)
    } else {
        common_types(sender, version)
    }
}

/// The keys of a list of pairs.
pub open spec fn keys(pairs: Seq<(String, String)>) -> Seq<StateKey> {
    pairs.map_values(|pair: (String, String)| (pair.0@, pair.1@))
}

/// `rezzy::auth::auth_types_for_event`: nothing for the creation of the room;
/// for any other event the creation of the room (from version 2.1 on not any
/// more), the membership of the sender and the power levels; for a membership
/// event also the membership that it changes, the join rules for a join, an
/// invite or a knock, the third party invite that it names, and the membership
/// of the user who authorised a join.
#[verifier::external_body]
fn select(
    event_type: &str,
    sender: &str,
    state_key: Option<&str>,
    content: &serde_json::Value,
    version: StateResVersion,
) -> (types: Vec<(String, String)>)
    ensures
        keys(types@) == selected(
            event_type@,
            sender@,
            optional_str(state_key),
            json(*content),
            version,
        ),
{
    let version = match version {
        StateResVersion::V1 => rezzy::StateResVersion::V1,
        StateResVersion::V2 => rezzy::StateResVersion::V2,
        StateResVersion::V2_1 => rezzy::StateResVersion::V2_1,
    };
    rezzy::auth::auth_types_for_event(event_type, sender, state_key, content, version)
}

/// A field of a content that does not have the format it must have.
#[derive(Clone, Copy, Debug, PartialEq, Eq, Structural)]
pub enum MalformedContent {
    Membership,
    ThirdPartyInvite,
    JoinAuthorisedViaUsersServer,
}

/// Whether a member is missing, which null stands for too.
pub open spec fn missing(content: Json, name: Seq<char>) -> bool {
    match content.member(name) {
        Some(value) => value is Null,
        None => true,
    }
}

/// The first field that the selection reads and that is malformed.
pub open spec fn malformed(event_type: Seq<char>, content: Json) -> Option<MalformedContent> {
    if event_type != "m.room.member"@ {
        None
    } else if content.text_member("membership"@) is None {
        Some(MalformedContent::Membership)
    } else if !missing(content, "third_party_invite"@) && invite_token(content) is None {
        Some(MalformedContent::ThirdPartyInvite)
    } else if content.text_member("membership"@) == Some("join"@) && !missing(
        content,
        "join_authorised_via_users_server"@,
    ) && content.text_member("join_authorised_via_users_server"@) is None {
        Some(MalformedContent::JoinAuthorisedViaUsersServer)
    } else {
        None
    }
}

fn is_missing(content: &serde_json::Value, name: &str) -> (gone: bool)
    ensures
        gone == missing(json(*content), name@),
{
    match member(content, name) {
        Some(value) => is_null(value),
        None => true,
    }
}

/// The text that a member holds.
fn text_member<'a>(content: &'a serde_json::Value, name: &str) -> (text: Option<&'a str>)
    ensures
        match text {
            Some(text) => json(*content).text_member(name@) == Some(text@),
            None => json(*content).text_member(name@) is None,
        },
{
    match member(content, name) {
        Some(value) => as_text(value),
        None => None,
    }
}

fn has_invite_token(content: &serde_json::Value) -> (has: bool)
    ensures
        has == (invite_token(json(*content)) is Some),
{
    match member(content, "third_party_invite") {
        Some(invite) => match member(invite, "signed") {
            Some(signed) => text_member(signed, "token").is_some(),
            None => false,
        },
        None => false,
    }
}

/// Looks for a field that the selection reads and that is malformed.
pub fn find_malformed(event_type: &str, content: &serde_json::Value) -> (found: Option<MalformedContent>)
    ensures
        found == malformed(event_type@, json(*content)),
{
    if !same(event_type, "m.room.member") {
        return None;
    }
    let membership = match text_member(content, "membership") {
        Some(membership) => membership,
        None => {
            return Some(MalformedContent::Membership);
        },
    };
    if !is_missing(content, "third_party_invite") && !has_invite_token(content) {
        return Some(MalformedContent::ThirdPartyInvite);
    }
    if same(membership, "join") && !is_missing(content, "join_authorised_via_users_server") && text_member(
        content,
        "join_authorised_via_users_server",
    ).is_none() {
        return Some(MalformedContent::JoinAuthorisedViaUsersServer);
    }
    None
}

/// The selected keys, with the creation of the room among them where it is
/// always wanted.
pub open spec fn completed(selection: Seq<StateKey>, always_create: bool) -> Seq<StateKey> {
    if always_create && !selection.contains(create_key()) {
        selection.push(create_key())
    } else {
        selection
    }
}

/// Lists the selected keys.
pub fn complete(selection: Vec<(String, String)>, always_create: bool) -> (types: AuthTypes)
    requires
        completed(keys(selection@), always_create).len() <= MAX_AUTH_EVENTS,
    ensures
        auth_types(types) == completed(keys(selection@), always_create),
{
    let mut types = no_auth_types();
    let mut i: usize = 0;
    assert(auth_types(types) =~= keys(selection@).take(0));
    while i < selection.len()
        invariant
            i <= selection@.len(),
            selection@.len() <= MAX_AUTH_EVENTS,
            auth_types(types) == keys(selection@).take(i as int),
        decreases selection.len() - i,
    {
        let pair = &selection[i];
        push_auth_type(&mut types, pair.0.clone(), pair.1.clone());
        assert(keys(selection@).take(i + 1) =~= keys(selection@).take(i as int).push(keys(selection@)[i as int]));
        i += 1;
    }
    assert(auth_types(types) =~= keys(selection@));
    if always_create && !contains_auth_type(&types, "m.room.create", "") {
        push_auth_type(&mut types, "m.room.create".to_owned(), "".to_owned());
    }
    types
}

/// Gets the list of relevant auth events required to authorise the event of
/// the given type.
///
/// Returns a list of event types and state keys, or the field of the content
/// that does not respect the expected format for the event type.
pub fn auth_types_for_event(
    event_type: &str,
    sender: &str,
    state_key: Option<&str>,
    content: &str,
    rules: &RoomRules,
    always_create: bool,
) -> (r: Result<AuthTypes, MalformedContent>)
    ensures
        match r {
            Err(e) => malformed(event_type@, said(content@)) == Some(e),
            Ok(types) => {
                &&& malformed(event_type@, said(content@)) is None
                &&& auth_types(types) == completed(
                    selected(
                        event_type@,
                        sender@,
                        optional_str(state_key),
                        said(content@),
                        if rules.room_create_event_id_as_room_id {
                            StateResVersion::V2_1
                        } else {
                            StateResVersion::V2
                        },
                    ),
                    always_create,
                )
                &&& auth_types(types).len() <= MAX_AUTH_EVENTS
            },
        },
{
    let value = parse(content);
    match find_malformed(event_type, &value) {
        Some(e) => {
            return Err(e);
        },
        None => {},
    }
    let version = if rules.room_create_event_id_as_room_id {
        StateResVersion::V2_1
    } else {
        StateResVersion::V2
    };
    let selection = select(event_type, sender, state_key, &value, version);
    assert(selection@.len() == keys(selection@).len());
    Ok(complete(selection, always_create))
}

/// The creation of the room authorises every other event up to version 2 of
/// state resolution, and none from version 2.1 on.
pub proof fn lemma_create_is_selected(
    event_type: Seq<char>,
    sender: Seq<char>,
    state_key: Option<Seq<char>>,
    content: Json,
    version: StateResVersion,
)
    requires
        event_type != "m.room.create"@,
    ensures
        selected(event_type, sender, state_key, content, version).contains(create_key()) <==> !(version is V2_1),
{
    reveal_strlit("m.room.create");
    reveal_strlit("m.room.member");
    reveal_strlit("m.room.power_levels");
    reveal_strlit("m.room.join_rules");
    reveal_strlit("m.room.third_party_invite");
    let selection = selected(event_type, sender, state_key, content, version);
    if version is V2_1 {
        assert forall|i: int| 0 <= i < selection.len() implies (#[trigger] selection[i]).0 != "m.room.create"@ by {
            assert(selection[i].0.len() != 13 || selection[i].0[7] == 'm');
        }
    } else {
        assert(selection[0] == create_key());
    }
}

/// Where the creation of the room is always wanted, it is listed; it is never
/// listed more than once.
pub proof fn lemma_create_is_listed_once(
    event_type: Seq<char>,
    sender: Seq<char>,
    state_key: Option<Seq<char>>,
    content: Json,
    version: StateResVersion,
    always_create: bool,
)
    ensures
        ({
            let listed = completed(selected(event_type, sender, state_key, content, version), always_create);
            &&& always_create ==> listed.contains(create_key())
            &&& forall|i: int, j: int|
                0 <= i < j < listed.len() && #[trigger] listed[i] == create_key() ==> #[trigger] listed[j] != create_key()
        }),
{
    reveal_strlit("m.room.create");
    reveal_strlit("m.room.member");
    reveal_strlit("m.room.power_levels");
    reveal_strlit("m.room.join_rules");
    reveal_strlit("m.room.third_party_invite");
    let selection = selected(event_type, sender, state_key, content, version);
    let listed = completed(selection, always_create);
    if always_create && !selection.contains(create_key()) {
        assert(listed[selection.len() as int] == create_key());
    }
    assert forall|i: int| 0 < i < selection.len() implies #[trigger] selection[i] != create_key() by {
        assert(selection[i].0.len() != 13 || selection[i].0[7] == 'm');
    }
    assert forall|i: int, j: int| 0 <= i < j < listed.len() && #[trigger] listed[i] == create_key() implies #[trigger] listed[j]
        != create_key() by {
        if j == selection.len() {
            assert(selection[i] == create_key());
        } else {
            assert(selection[j] != create_key());
        }
    }
}

/// Whether a value is a third party invite that names its token.
pub open spec fn names_token(value: Json) -> bool {
    value matches Json::Object(invite) && invite.contains_key("signed"@) && (invite["signed"@] matches Json::Object(
        signed,
    ) && signed.contains_key("token"@) && signed["token"@] is Text)
}

/// Which contents are refused. Those of other events than memberships never are.
/// A membership content is refused for its membership exactly where that is no
/// text; for its third party invite only where there is one, other than null, that
/// names no token; and for the user who authorised a join only in a join, where
/// there is something else than null or a text. What is not there is no reason to
/// refuse a content but for the membership.
pub proof fn lemma_which_contents_are_refused(
    event_type: &str,
    content: serde_json::Value,
    found: Option<MalformedContent>,
)
    requires
        call_ensures(find_malformed, (event_type, &content), found),
    ensures
        event_type@ != "m.room.member"@ ==> found is None,
        event_type@ == "m.room.member"@ && !(json(content) is Object) ==> found == Some(MalformedContent::Membership),
        event_type@ == "m.room.member"@ && json(content) is Object ==> ({
            let m = json(content)->Object_0;
            let invite = "third_party_invite"@;
            let by = "join_authorised_via_users_server"@;
            let has_membership = m.contains_key("membership"@) && m["membership"@] is Text;
            let good_invite = !m.contains_key(invite) || m[invite] is Null || names_token(m[invite]);
            let good_by = !m.contains_key(by) || m[by] is Null || m[by] is Text;
            let joins = has_membership && m["membership"@] == Json::Text("join"@);
            &&& found == Some(MalformedContent::Membership) <==> !has_membership
            &&& found == Some(MalformedContent::ThirdPartyInvite) <==> has_membership && !good_invite
            &&& found == Some(MalformedContent::JoinAuthorisedViaUsersServer) <==> joins && good_invite && !good_by
            &&& has_membership && !m.contains_key(invite) && !m.contains_key(by) ==> found is None
        }),
{
    if json(content) is Object {
        let m = json(content)->Object_0;
        assert(json(content).member("membership"@) is Some <==> m.contains_key("membership"@));
        assert(json(content).member("third_party_invite"@) is Some <==> m.contains_key("third_party_invite"@));
    }
}

/// What the state that authorises an event holds. For every event but the
/// creation of the room: the membership of the sender and the power levels. For a
/// membership event: the membership that it is about, where that is not the
/// sender's; the join rules exactly for a join, an invite and a knock; the third
/// party invite whose token it names; and the membership of the user who
/// authorised a join. For any other event nothing more than the first two and the
/// creation of the room.
pub proof fn lemma_what_is_selected(
    event_type: Seq<char>,
    sender: Seq<char>,
    state_key: Option<Seq<char>>,
    members: Map<Seq<char>, Json>,
    version: StateResVersion,
)
    ensures
        ({
            let types = selected(event_type, sender, state_key, Json::Object(members), version);
            let membership = members["membership"@];
            let has_membership = members.contains_key("membership"@);
            &&& event_type == "m.room.create"@ <==> types.len() == 0
            &&& event_type != "m.room.create"@ ==> types.contains(("m.room.member"@, sender)) && types.contains(
                ("m.room.power_levels"@, ""@),
            )
            &&& event_type == "m.room.member"@ && state_key is Some ==> types.contains(
                ("m.room.member"@, state_key->Some_0),
            )
            &&& types.contains(("m.room.join_rules"@, ""@)) <==> event_type == "m.room.member"@ && has_membership && (
            membership == Json::Text("join"@) || membership == Json::Text("invite"@) || membership == Json::Text(
                "knock"@,
            ))
            &&& event_type != "m.room.member"@ && event_type != "m.room.create"@ ==> types.len() == if version is V2_1 {
                2nat
            } else {
                3nat
            }
            &&& event_type == "m.room.member"@ ==> types.len() == (if version is V2_1 {
                2int
            } else {
                3
            }) + (if state_key is Some && state_key->Some_0 != sender {
                1int
            } else {
                0
            }) + (if has_membership && (membership == Json::Text("join"@) || membership == Json::Text("invite"@)
                || membership == Json::Text("knock"@)) {
                1int
            } else {
                0
            }) + (if members.contains_key("third_party_invite"@) && names_token(members["third_party_invite"@]) {
                1int
            } else {
                0
            }) + (if has_membership && membership == Json::Text("join"@) && members.contains_key(
                "join_authorised_via_users_server"@,
            ) && members["join_authorised_via_users_server"@] is Text {
                1int
            } else {
                0
            })
            &&& (event_type == "m.room.member"@ && has_membership && membership == Json::Text("join"@)
                && members.contains_key("join_authorised_via_users_server"@)
                && members["join_authorised_via_users_server"@] is Text) ==> types.contains(
                ("m.room.member"@, members["join_authorised_via_users_server"@]->Text_0),
            )
            &&& (event_type == "m.room.member"@ && members.contains_key("third_party_invite"@) && names_token(
                members["third_party_invite"@],
            )) ==> types.contains(
                (
                    "m.room.third_party_invite"@,
                    members["third_party_invite"@]->Object_0["signed"@]->Object_0["token"@]->Text_0,
                ),
            )
        }),
{
    reveal_strlit("m.room.create");
    reveal_strlit("m.room.member");
    reveal_strlit("m.room.power_levels");
    reveal_strlit("m.room.join_rules");
    reveal_strlit("m.room.third_party_invite");
    assert("m.room.create"@[7] == 'c' && "m.room.member"@[7] == 'm');
    let content = Json::Object(members);
    let types = selected(event_type, sender, state_key, content, version);
    if event_type != "m.room.create"@ {
        let common = common_types(sender, version);
        let n = common.len() as int;
        assert("m.room.member"@.len() == 13 && "m.room.power_levels"@.len() == 19 && "m.room.join_rules"@.len() == 17
            && "m.room.create"@.len() == 13 && "m.room.third_party_invite"@.len() == 25);
        assert(types[n - 2] == ("m.room.member"@, sender));
        assert(types[n - 1] == ("m.room.power_levels"@, ""@));
        assert(types.contains(types[n - 2]));
        assert(types.contains(types[n - 1]));
        if event_type == "m.room.member"@ {
            let target = target_types(sender, state_key);
            let membership = content.text_member("membership"@);
            let rules = join_rules_types(membership);
            let invite = invite_types(content);
            let by = authoriser_types(membership, content);
            let first = common + target;
            let second = first + rules;
            let third = second + invite;
            assert(types == third + by);
            if target.len() > 0 {
                assert(types[n] == target[0]);
                assert(types.contains(target[0]));
            }
            if rules.len() > 0 {
                assert(types[first.len() as int] == rules[0]);
                assert(types.contains(rules[0]));
            }
            if invite.len() > 0 {
                assert(types[second.len() as int] == invite[0]);
                assert(types.contains(invite[0]));
            }
            if by.len() > 0 {
                assert(types[third.len() as int] == by[0]);
                assert(types.contains(by[0]));
            }
            if rules.len() == 0 && types.contains(("m.room.join_rules"@, ""@)) {
                let i = choose|i: int| 0 <= i < types.len() && types[i] == ("m.room.join_rules"@, ""@);
                if i < n {
                    assert(types[i] == common[i]);
                } else if i < first.len() {
                    assert(types[i] == target[i - n]);
                } else if i < third.len() {
                    assert(types[i] == invite[i - first.len()]);
                } else {
                    assert(types[i] == by[i - third.len()]);
                }
                assert(types[i].0.len() != 17);
            }
        } else if types.contains(("m.room.join_rules"@, ""@)) {
            let i = choose|i: int| 0 <= i < types.len() && types[i] == ("m.room.join_rules"@, ""@);
            assert(types[i].0.len() != 17);
        }
    }
}

/// To want the creation of the room always changes nothing but that it may be
/// added at the end; without that wish the selection stays.
pub proof fn lemma_what_is_completed(selection: Seq<StateKey>, always_create: bool)
    ensures
        !always_create ==> completed(selection, always_create) == selection,
        always_create ==> completed(selection, always_create).contains(("m.room.create"@, ""@)),
        completed(selection, always_create).take(selection.len() as int) == selection,
        completed(selection, always_create).len() <= selection.len() + 1,
        selection.contains(("m.room.create"@, ""@)) ==> completed(selection, always_create) == selection,
{
    let listed = completed(selection, always_create);
    assert(listed.take(selection.len() as int) =~= selection);
    if listed.len() > selection.len() {
        assert(listed[selection.len() as int] == ("m.room.create"@, ""@));
    }
}

/// What the state that authorises an event is, by the rules of the room: a room
/// whose id names its creation does without it, unless it is always wanted; any
/// other event has the membership of the sender and the power levels; and an event
/// that is no membership is never refused.
pub proof fn lemma_auth_types_by_the_rules(
    event_type: &str,
    sender: &str,
    state_key: Option<&str>,
    content: &str,
    rules: RoomRules,
    always_create: bool,
    r: Result<AuthTypes, MalformedContent>,
)
    requires
        call_ensures(auth_types_for_event, (event_type, sender, state_key, content, &rules, always_create), r),
    ensures
        event_type@ != "m.room.member"@ ==> r is Ok,
        r is Ok && always_create ==> auth_types(r->Ok_0).contains(("m.room.create"@, ""@)),
        r is Ok && !always_create && event_type@ != "m.room.create"@ ==> (auth_types(r->Ok_0).contains(
            ("m.room.create"@, ""@),
        ) <==> !rules.room_create_event_id_as_room_id),
        r is Ok && !always_create && event_type@ == "m.room.create"@ ==> auth_types(r->Ok_0).len() == 0,
        r is Ok && event_type@ != "m.room.create"@ ==> auth_types(r->Ok_0).contains(("m.room.member"@, sender@))
            && auth_types(r->Ok_0).contains(("m.room.power_levels"@, ""@)),
        (said(content@) is Object && said(content@)->Object_0.contains_key("membership"@)
            && said(content@)->Object_0["membership"@] is Text && !said(content@)->Object_0.contains_key(
            "third_party_invite"@,
        ) && !said(content@)->Object_0.contains_key("join_authorised_via_users_server"@)) ==> r is Ok,
{
    let version = if rules.room_create_event_id_as_room_id {
        StateResVersion::V2_1
    } else {
        StateResVersion::V2
    };
    let selection = selected(event_type@, sender@, optional_str(state_key), said(content@), version);
    lemma_what_is_completed(selection, always_create);
    if event_type@ != "m.room.create"@ {
        lemma_create_is_selected(event_type@, sender@, optional_str(state_key), said(content@), version);
        let n = common_types(sender@, version).len() as int;
        assert(selection[n - 2] == ("m.room.member"@, sender@));
        assert(selection[n - 1] == ("m.room.power_levels"@, ""@));
        let listed = completed(selection, always_create);
        assert(listed[n - 2] == listed.take(selection.len() as int)[n - 2]);
        assert(listed[n - 1] == listed.take(selection.len() as int)[n - 1]);
        if r is Ok {
            assert(auth_types(r->Ok_0)[n - 2] == ("m.room.member"@, sender@));
            assert(auth_types(r->Ok_0)[n - 1] == ("m.room.power_levels"@, ""@));
        }
    }
}

/// What is listed is the selection as it was given; the creation of the room comes
/// last where it is always wanted and was not selected, and is never listed for
/// that reason otherwise.
pub proof fn lemma_what_is_listed(selection: Vec<(String, String)>, always_create: bool, types: AuthTypes)
    requires
        call_ensures(complete, (selection, always_create), types),
    ensures
        auth_types(types).len() >= selection@.len(),
        forall|i: int|
            0 <= i < selection@.len() ==> #[trigger] auth_types(types)[i] == (selection@[i].0@, selection@[i].1@),
        !always_create ==> auth_types(types).len() == selection@.len(),
        always_create ==> auth_types(types).contains(("m.room.create"@, ""@)),
        auth_types(types).len() > selection@.len() ==> auth_types(types).len() == selection@.len() + 1
            && auth_types(types).last() == ("m.room.create"@, ""@),
        forall|i: int|
            0 <= i < selection@.len() && ((#[trigger] selection@[i]).0@, selection@[i].1@) == ("m.room.create"@, ""@)
                ==> auth_types(types).len() == selection@.len(),
{
    let selected = keys(selection@);
    let listed = auth_types(types);
    lemma_what_is_completed(selected, always_create);
    assert(selected.len() == selection@.len());
    assert forall|i: int| 0 <= i < selection@.len() implies #[trigger] listed[i] == (
        selection@[i].0@,
        selection@[i].1@,
    ) by {
        assert(listed.take(selected.len() as int)[i] == selected[i]);
    }
    assert forall|i: int|
        0 <= i < selection@.len() && ((#[trigger] selection@[i]).0@, selection@[i].1@) == ("m.room.create"@, ""@)
        implies listed.len() == selection@.len() by {
        assert(selected[i] == ("m.room.create"@, ""@));
        assert(selected.contains(selected[i]));
    }
}

/// What the state that authorises a membership event is, by its content: it is
/// refused for the field that is malformed, in the order in which the fields are
/// read, and otherwise has the membership that it is about, the join rules exactly
/// for a join, an invite and a knock, the third party invite that it names, and the
/// membership of the user who authorised a join.
pub proof fn lemma_auth_types_of_a_membership(
    sender: &str,
    state_key: Option<&str>,
    content: &str,
    rules: RoomRules,
    always_create: bool,
    r: Result<AuthTypes, MalformedContent>,
    value: serde_json::Value,
    found: Option<MalformedContent>,
)
    requires
        call_ensures(auth_types_for_event, ("m.room.member", sender, state_key, content, &rules, always_create), r),
        json(value) == said(content@),
        call_ensures(find_malformed, ("m.room.member", &value), found),
    ensures
        r is Ok <==> found is None,
        r is Err ==> found == Some(r->Err_0),
        r is Ok && state_key is Some ==> auth_types(r->Ok_0).contains(("m.room.member"@, state_key->Some_0@)),
        r is Ok ==> said(content@) is Object && {
            let m = said(content@)->Object_0;
            let types = auth_types(r->Ok_0);
            &&& m.contains_key("membership"@) && m["membership"@] is Text
            &&& types.contains(("m.room.join_rules"@, ""@)) <==> m["membership"@] == Json::Text("join"@)
                || m["membership"@] == Json::Text("invite"@) || m["membership"@] == Json::Text("knock"@)
            &&& m["membership"@] == Json::Text("join"@) && m.contains_key("join_authorised_via_users_server"@)
                && m["join_authorised_via_users_server"@] is Text ==> types.contains(
                ("m.room.member"@, m["join_authorised_via_users_server"@]->Text_0),
            )
            &&& m.contains_key("third_party_invite"@) && names_token(m["third_party_invite"@]) ==> types.contains(
                (
                    "m.room.third_party_invite"@,
                    m["third_party_invite"@]->Object_0["signed"@]->Object_0["token"@]->Text_0,
                ),
            )
        },
{
    lemma_which_contents_are_refused("m.room.member", value, found);
    if r is Ok {
        let version = if rules.room_create_event_id_as_room_id {
            StateResVersion::V2_1
        } else {
            StateResVersion::V2
        };
        let m = said(content@)->Object_0;
        let selection = selected("m.room.member"@, sender@, optional_str(state_key), Json::Object(m), version);
        let types = auth_types(r->Ok_0);
        lemma_what_is_selected("m.room.member"@, sender@, optional_str(state_key), m, version);
        lemma_what_is_completed(selection, always_create);
        reveal_strlit("m.room.create");
        reveal_strlit("m.room.join_rules");
        assert("m.room.create"@.len() != "m.room.join_rules"@.len());
        assert forall|key: StateKey| selection.contains(key) implies types.contains(key) by {
            let i = choose|i: int| 0 <= i < selection.len() && selection[i] == key;
            assert(types.take(selection.len() as int)[i] == types[i]);
        }
        let rules_key = ("m.room.join_rules"@, ""@);
        if types.contains(rules_key) {
            let i = choose|i: int| 0 <= i < types.len() && types[i] == rules_key;
            if i < selection.len() {
                assert(types.take(selection.len() as int)[i] == types[i]);
                assert(selection.contains(rules_key));
            }
        }
    }
}

} // verus!
