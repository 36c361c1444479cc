//! What the version of a room settles.

use crate::text::decimal;
use vstd::prelude::*;

verus! {

/// How the second version of state resolution runs.
#[derive(Clone, Copy, Debug, PartialEq, Eq, Structural)]
pub struct StateResV2Rules {
    pub begin_iterative_auth_checks_with_empty_state_map: bool,
    pub consider_conflicted_state_subgraph: bool,
}

/// The rules of a room version that the decisions of this library turn on.
#[derive(Clone, Copy, Debug, PartialEq, Eq, Structural)]
pub struct RoomRules {
    /// The rules of the second version of state resolution, for the room
    /// versions that use it.
    pub state_res_v2: Option<StateResV2Rules>,
    /// Whether the room id is made of the id of the `m.room.create` event.
    pub room_create_event_id_as_room_id: bool,
    /// Whether an event carries its own id.
    pub require_event_id: bool,
    /// Whether the server named in the event id must have signed the event.
    pub check_event_id_server: bool,
    /// Whether the server of the user who authorised a join must have signed
    /// the event.
    pub check_join_authorised_via_users_server: bool,
}

/// The number of a room version, where it is one of the specified ones.
pub open spec fn version_number(version: Seq<char>) -> Option<nat> {
    if exists|n: nat| 1 <= n <= 12 && version == #[trigger] decimal(n) {
        Some(choose|n: nat| 1 <= n <= 12 && version == #[trigger] decimal(n))
    } else {
        None
    }
}

/// The rules of the room version with a number.
pub open spec fn rules_of_number(n: nat) -> RoomRules {
    RoomRules {
        state_res_v2: if n == 1 {
            None
        } else {
            Some(
                StateResV2Rules {
                    begin_iterative_auth_checks_with_empty_state_map: n >= 12,
                    consider_conflicted_state_subgraph: n >= 12,
                },
            )
        },
        room_create_event_id_as_room_id: n >= 12,
        require_event_id: n <= 2,
        check_event_id_server: n <= 2,
        check_join_authorised_via_users_server: n >= 8,
    }
}

/// The rules of a room version, where they are known.
pub open spec fn rules_of_version(version: Seq<char>) -> Option<RoomRules> {
    match version_number(version) {
        Some(n) => Some(rules_of_number(n)),
        None => None,
    }
}

/// `ruma::RoomVersionId::rules`, as far as [`RoomRules`] holds them: the rules of
/// the twelve specified room versions, and none for any other text.
#[verifier::external_body]
fn room_version_rules(version: &str) -> (rules: Option<RoomRules>)
    ensures
        rules == rules_of_version(version@),
{
    let rules = ruma::RoomVersionId::try_from(version).ok()?.rules()?;
    Some(RoomRules {
        state_res_v2: rules.state_res.v2_rules().map(|v2| StateResV2Rules {
            begin_iterative_auth_checks_with_empty_state_map: v2.begin_iterative_auth_checks_with_empty_state_map,
            consider_conflicted_state_subgraph: v2.consider_conflicted_state_subgraph,
        }),
        room_create_event_id_as_room_id: rules.authorization.room_create_event_id_as_room_id,
        require_event_id: rules.event_format.require_event_id,
        check_event_id_server: rules.signatures.check_event_id_server,
        check_join_authorised_via_users_server: rules.signatures.check_join_authorised_via_users_server,
    })
}

/// The room version is not supported.
#[derive(Clone, Copy, Debug, PartialEq, Eq, Structural)]
pub struct UnsupportedRoomVersion;

/// The rules of a room version.
pub fn rules(version: &str) -> (r: Result<RoomRules, UnsupportedRoomVersion>)
    ensures
        r == (match rules_of_version(version@) {
            Some(rules) => Ok::<RoomRules, UnsupportedRoomVersion>(rules),
            None => Err(UnsupportedRoomVersion),
        }),
{
    match room_version_rules(version) {
        Some(rules) => Ok(rules),
        None => Err(UnsupportedRoomVersion),
    }
}

/// A room version has one number: the rules go by it.
pub proof fn lemma_rules_of_specified_version(n: nat)
    requires
        1 <= n <= 12,
    ensures
        rules_of_version(decimal(n)) == Some(rules_of_number(n)),
{
    let version = decimal(n);
    assert(version == decimal(n));
    let m = version_number(version)->Some_0;
    assert(1 <= m <= 12 && version == decimal(m));
    reveal_with_fuel(decimal, 3);
    assert(version[version.len() - 1] == decimal(m)[decimal(m).len() - 1]);
}

/// What a look-up of a room version answers: the specified versions have rules,
/// and these only. An event carries its id up to version 2, the user who
/// authorised a join is checked from version 8 on, and the room id names the
/// creation of the room from version 12 on, as state resolution begins with an
/// empty state and takes the conflicted subgraph; version 1 alone has no second
/// version of state resolution.
pub proof fn lemma_rules_change_with_the_version(n: nat, version: &str, r: Result<RoomRules, UnsupportedRoomVersion>)
    requires
        1 <= n <= 12,
        version@ == decimal(n),
        call_ensures(rules, (version,), r),
    ensures
        r is Ok,
        r->Ok_0.require_event_id <==> n < 3,
        r->Ok_0.check_event_id_server <==> n < 3,
        r->Ok_0.check_join_authorised_via_users_server <==> n > 7,
        r->Ok_0.room_create_event_id_as_room_id <==> n > 11,
        r->Ok_0.state_res_v2 is None <==> n < 2,
        n > 1 ==> (r->Ok_0.state_res_v2->Some_0.begin_iterative_auth_checks_with_empty_state_map <==> n > 11),
        n > 1 ==> (r->Ok_0.state_res_v2->Some_0.consider_conflicted_state_subgraph <==> n > 11),
{
    lemma_rules_of_specified_version(n);
}

/// A text that is no specified version has no rules.
pub proof fn lemma_other_versions_are_refused(version: &str, r: Result<RoomRules, UnsupportedRoomVersion>)
    requires
        forall|n: nat| 1 <= n <= 12 ==> version@ != #[trigger] decimal(n),
        call_ensures(rules, (version,), r),
    ensures
        r is Err,
{
}

} // verus!
