//! What an inspection of one event reports.

use crate::power_sort::AuthEvent;
use crate::signatures::SignatureSummary;
use crate::state_map::{StateEntry, StateKey};
use crate::text::{
    begins, decimal_value, ends, field_line, holds, lemma_holds_within, lemma_parts_are_held, optional_str, optional_text,
    push_field, push_truth, same, truth,
};
use ruma::events::room::member::RoomMemberEventContent;
use vstd::prelude::*;

verus! {

/// Why the version of a room is not known.
pub enum VersionLookupError<E> {
    /// The room has no event that created it.
    NotFound,
    Other(E),
}

/// The line for a room without an event that created it.
pub open spec fn no_create_line() -> Seq<char> {
    "Warning: No m.room.create found, defaulting to Room Version 1\n"@
}

/// The version of a room from the look-up of it: a room without an event that
/// created it counts as version 1, and the report warns of that.
pub fn get_room_version_id<E>(lookup: Result<String, VersionLookupError<E>>, out: &mut String) -> (r: Result<
    String,
    E,
>)
    ensures
        match lookup {
            Ok(version) => r == Ok::<String, E>(version) && final(out)@ == old(out)@,
            Err(VersionLookupError::NotFound) => (r matches Ok(version) && version@ == "1"@) && final(out)@ == old(
                out,
            )@ + no_create_line(),
            Err(VersionLookupError::Other(e)) => r == Err::<String, E>(e) && final(out)@ == old(out)@,
        },
{
    match lookup {
        Ok(version) => Ok(version),
        Err(VersionLookupError::NotFound) => {
            out.append("Warning: No m.room.create found, defaulting to Room Version 1\n");
            Ok("1".to_owned())
        },
        Err(VersionLookupError::Other(e)) => Err(e),
    }
}

/// The membership that the content of a membership event states, where the
/// content is one.
pub uninterp spec fn membership_of(content: Seq<char>) -> Option<Seq<char>>;

/// `serde_json::from_str` into a `ruma` `RoomMemberEventContent`, and its
/// membership. Which contents can be read is not stated: the contract claims
/// only that the membership depends on nothing but the content.
#[verifier::external_body]
fn read_membership(content: &str) -> (membership: Option<String>)
    ensures
        membership is Some ==> membership_of(content@) == Some(membership->Some_0@),
        membership is None ==> membership_of(content@) is None,
{
    serde_json::from_str::<RoomMemberEventContent>(content).ok().map(|content| content.membership.to_string())
}

/// An event, as far as the report names it.
pub struct InspectedPdu {
    pub event_id: String,
    pub room_id: String,
    pub kind: String,
    pub state_key: Option<String>,
    pub sender: String,
    /// The content, as JSON text.
    pub content: String,
}

/// The line for a text that there may not be.
pub open spec fn optional_line(label: Seq<char>, value: Option<Seq<char>>) -> Seq<char> {
    match value {
        Some(text) => field_line(label, text),
        None => seq![],
    }
}

/// What the report says an event is.
pub open spec fn header(pdu: InspectedPdu, membership: Option<Seq<char>>, room_version: Seq<char>) -> Seq<char> {
    field_line("Event: "@, pdu.event_id@) + field_line("Room: "@, pdu.room_id@) + field_line("Type: "@, pdu.kind@)
        + optional_line("Membership: "@, membership) + optional_line(
        "State key: "@,
        optional_text(pdu.state_key),
    ) + field_line("Sender: "@, pdu.sender@) + field_line("Room Version: "@, room_version)
}

fn push_optional(out: &mut String, label: &str, value: Option<&str>)
    ensures
        final(out)@ == old(out)@ + optional_line(
            label@,
            optional_str(value),
        ),
{
    match value {
        Some(text) => push_field(out, label, text),
        None => {
            assert(out@ =~= old(out)@ + seq![]);
        },
    }
}

/// Writes what an event is, with the membership that it states.
pub fn write_header(pdu: &InspectedPdu, membership: Option<&str>, room_version: &str) -> (text: String)
    ensures
        text@ == header(
            *pdu,
            optional_str(membership),
            room_version@,
        ),
{
    let mut text = String::new();
    push_field(&mut text, "Event: ", pdu.event_id.as_str());
    assert(text@ =~= field_line("Event: "@, pdu.event_id@));
    push_field(&mut text, "Room: ", pdu.room_id.as_str());
    push_field(&mut text, "Type: ", pdu.kind.as_str());
    push_optional(&mut text, "Membership: ", membership);
    push_optional(
        &mut text,
        "State key: ",
        match &pdu.state_key {
            Some(key) => Some(key.as_str()),
            None => None,
        },
    );
    push_field(&mut text, "Sender: ", pdu.sender.as_str());
    push_field(&mut text, "Room Version: ", room_version);
    text
}

/// The membership that the report gives for an event: for a membership event
/// whose content can be read.
pub open spec fn shown_membership(pdu: InspectedPdu) -> Option<Seq<char>> {
    if pdu.kind@ == "m.room.member"@ {
        membership_of(pdu.content@)
    } else {
        None
    }
}

/// Reports what an event is.
fn push_header(out: &mut String, pdu: &InspectedPdu, room_version: &str)
    ensures
        final(out)@ == old(out)@ + header(*pdu, shown_membership(*pdu), room_version@),
{
    let membership = if same(pdu.kind.as_str(), "m.room.member") {
        read_membership(pdu.content.as_str())
    } else {
        None
    };
    let text = write_header(
        pdu,
        match &membership {
            Some(membership) => Some(membership.as_str()),
            None => None,
        },
        room_version,
    );
    out.append(text.as_str());
}

/// What a full check of the signatures and the hash of an event found to hold.
#[derive(Clone, Copy, Debug, PartialEq, Eq, Structural)]
pub enum Verified {
    All,
    Signatures,
}

/// The line for a full check of an event.
pub open spec fn full_check_line(verification: Result<Verified, Seq<char>>) -> Seq<char> {
    match verification {
        Ok(Verified::All) => "Verify: OK\n"@,
        Ok(Verified::Signatures) => "Verify: REDACTED / HASH FAILED\n"@,
        Err(e) => "Verify: FAILED ("@ + e + ")\n"@,
    }
}

/// Reports on the signatures of an event: which one fails, or where none does,
/// what a full check of the event found.
fn push_verification(
    out: &mut String,
    summary: &SignatureSummary,
    verification: Option<Result<Verified, String>>,
)
    requires
        !summary.has_failure ==> verification is Some,
    ensures
        final(out)@ == old(out)@ + if summary.has_failure {
            field_line("Verify: SIGNATURE FAILED: "@, summary.words@)
        } else {
            full_check_line(
                match verification->Some_0 {
                    Ok(verified) => Ok(verified),
                    Err(e) => Err(e@),
                },
            )
        },
{
    if summary.has_failure {
        push_field(out, "Verify: SIGNATURE FAILED: ", summary.words.as_str());
        return;
    }
    match verification {
        Some(Ok(Verified::All)) => out.append("Verify: OK\n"),
        Some(Ok(Verified::Signatures)) => out.append("Verify: REDACTED / HASH FAILED\n"),
        Some(Err(e)) => {
            out.append("Verify: FAILED (");
            out.append(e.as_str());
            out.append(")\n");
            assert(out@ =~= old(out)@ + ("Verify: FAILED ("@ + e@ + ")\n"@));
        },
        None => {},
    }
}

/// An auth event that was fetched, or why it could not be.
pub struct FetchedAuthEvent<P> {
    pub id: String,
    pub event: Result<AuthEvent<P>, String>,
}

/// The line for an auth event that could not be fetched.
pub open spec fn missing_auth_line(id: Seq<char>, error: Seq<char>) -> Seq<char> {
    "Warning: Failed to fetch auth event "@ + id + ": "@ + error + "\n"@
}

/// The lines for the auth events that could not be fetched.
pub open spec fn missing_auth_lines<P>(fetched: Seq<FetchedAuthEvent<P>>) -> Seq<char>
    decreases fetched.len(),
{
    if fetched.len() == 0 {
        seq![]
    } else {
        missing_auth_lines(fetched.drop_last()) + (match fetched.last().event {
            Ok(_) => seq![],
            Err(e) => missing_auth_line(fetched.last().id@, e@),
        })
    }
}

/// What an auth event is about; an event without a state key counts as having
/// an empty one.
pub open spec fn auth_key<P>(event: AuthEvent<P>) -> StateKey {
    (
        event.kind@,
        match event.state_key {
            Some(key) => key@,
            None => ""@,
        },
    )
}

/// The auth events that were fetched, by what they are about, in their order.
pub open spec fn found_auth_events<P>(fetched: Seq<FetchedAuthEvent<P>>) -> Seq<(StateKey, P)>
    decreases fetched.len(),
{
    if fetched.len() == 0 {
        seq![]
    } else {
        let rest = found_auth_events(fetched.drop_last());
        match fetched.last().event {
            Ok(event) => rest.push((auth_key(event), event.pdu)),
            Err(_) => rest,
        }
    }
}

/// What the entries of a list map their keys to, in their order.
pub open spec fn keyed<P>(entries: Seq<StateEntry<P>>) -> Seq<(StateKey, P)> {
    entries.map_values(|entry: StateEntry<P>| (entry.key(), entry.value))
}

/// Files an auth event under what it is about.
pub(crate) fn file_auth_event<P>(event: AuthEvent<P>) -> (entry: StateEntry<P>)
    ensures
        entry.key() == auth_key(event),
        entry.value == event.pdu,
{
    let state_key = match event.state_key {
        Some(key) => key,
        None => "".to_owned(),
    };
    StateEntry { event_type: event.kind, state_key, value: event.pdu }
}

/// Files the auth events that were fetched under what they are about, and
/// reports those that could not be.
pub fn file_auth_events<P>(fetched: Vec<FetchedAuthEvent<P>>, out: &mut String) -> (entries: Vec<StateEntry<P>>)
    ensures
        keyed(entries@) == found_auth_events(fetched@),
        final(out)@ == old(out)@ + missing_auth_lines(fetched@),
{
    let ghost all = fetched@;
    let ghost start = out@;
    let mut entries: Vec<StateEntry<P>> = Vec::new();
    proof {
        assert(keyed(entries@) =~= found_auth_events(all.take(0)));
        assert(out@ =~= start + missing_auth_lines(all.take(0)));
    }
    for item in iter: fetched
        invariant
            iter.seq() == all,
            keyed(entries@) == found_auth_events(all.take(iter.index() as int)),
            out@ == start + missing_auth_lines(all.take(iter.index() as int)),
    {
        let ghost at = iter.index() as int;
        let ghost written = out@;
        let ghost prior = entries@;
        let ghost lines = missing_auth_lines(all.take(at));
        proof {
            assert(item == all[at]);
            assert(all.take(at + 1).drop_last() =~= all.take(at));
        }
        match item.event {
            Ok(event) => {
                let entry = file_auth_event(event);
                let ghost pair = (entry.key(), entry.value);
                entries.push(entry);
                assert(keyed(entries@) =~= keyed(prior).push(pair));
                assert(lines + Seq::<char>::empty() =~= lines);
            },
            Err(e) => {
                let mut line = "Warning: Failed to fetch auth event ".to_owned();
                line.append(item.id.as_str());
                line.append(": ");
                line.append(e.as_str());
                line.append("\n");
                out.append(line.as_str());
                assert(start + lines + line@ =~= start + (lines + line@));
            },
        }
    }
    assert(all.take(all.len() as int) =~= all);
    entries
}

/// The first entry with a key, if any.
pub open spec fn first_with_key<P>(entries: Seq<(StateKey, P)>, key: StateKey) -> Option<P>
    decreases entries.len(),
{
    if entries.len() == 0 {
        None
    } else if entries[0].0 == key {
        Some(entries[0].1)
    } else {
        first_with_key(entries.drop_first(), key)
    }
}

/// Looks an auth event up by what it is about; the first one counts.
pub fn find_auth_event<'a, P>(
    entries: &'a Vec<StateEntry<P>>,
    event_type: &str,
    state_key: &str,
) -> (found: Option<&'a P>)
    ensures
        match found {
            Some(pdu) => first_with_key(keyed(entries@), (event_type@, state_key@)) == Some(*pdu),
            None => first_with_key(keyed(entries@), (event_type@, state_key@)) is None,
        },
{
    let ghost key = (event_type@, state_key@);
    let ghost all = keyed(entries@);
    let mut i: usize = 0;
    assert(all.skip(0) =~= all);
    while i < entries.len()
        invariant
            i <= entries@.len(),
            key == (event_type@, state_key@),
            all == keyed(entries@),
            first_with_key(all, key) == first_with_key(all.skip(i as int), key),
        decreases entries.len() - i,
    {
        let entry = &entries[i];
        proof {
            assert(all[i as int] == (entry.key(), entry.value));
            assert(all.skip(i as int)[0] == all[i as int]);
            assert(all.skip(i as int).drop_first() =~= all.skip(i + 1));
        }
        if same(entry.event_type.as_str(), event_type) && same(entry.state_key.as_str(), state_key) {
            return Some(&entry.value);
        }
        i += 1;
    }
    None
}

/// The line for the authorisation of an event; nothing is wrong with one that
/// passes.
pub open spec fn auth_check_line(fault: Option<Seq<char>>) -> Seq<char> {
    match fault {
        None => "Auth check: OK\n"@,
        Some(e) => "Auth check: FAIL ("@ + e + ")\n"@,
    }
}

/// Reports whether an event is authorised.
fn push_auth_check(out: &mut String, result: Result<(), String>)
    ensures
        final(out)@ == old(out)@ + auth_check_line(
            match result {
                Ok(()) => None,
                Err(e) => Some(e@),
            },
        ),
{
    match result {
        Ok(()) => out.append("Auth check: OK\n"),
        Err(e) => {
            let mut line = "Auth check: FAIL (".to_owned();
            line.append(e.as_str());
            line.append(")\n");
            out.append(line.as_str());
        },
    }
}

/// The line for where an event is kept. Whether it was rejected is not known.
pub open spec fn status_line(in_timeline: bool, is_outlier: bool, is_soft_failed: bool) -> Seq<char> {
    "Status: timeline="@ + truth(in_timeline) + " outlier="@ + truth(is_outlier) + " rejected=unknown soft_failed="@
        + truth(is_soft_failed) + "\n"@
}

/// Reports where an event is kept.
fn push_status(out: &mut String, in_timeline: bool, is_outlier: bool, is_soft_failed: bool)
    ensures
        final(out)@ == old(out)@ + status_line(in_timeline, is_outlier, is_soft_failed),
{
    let mut line = "Status: timeline=".to_owned();
    push_truth(&mut line, in_timeline);
    line.append(" outlier=");
    push_truth(&mut line, is_outlier);
    line.append(" rejected=unknown soft_failed=");
    push_truth(&mut line, is_soft_failed);
    line.append("\n");
    out.append(line.as_str());
}

/// What the parts of an inspection found.
pub struct Inspection {
    pub room_version: String,
    pub signatures: SignatureSummary,
    /// What a full check of the event found, where no signature fails.
    pub verification: Option<Result<Verified, String>>,
    /// What [`file_auth_events`] reported.
    pub auth_warnings: String,
    pub auth_check: Result<(), String>,
    pub in_timeline: bool,
    pub is_outlier: bool,
    pub is_soft_failed: bool,
}

impl Inspection {
    /// The line on the signatures and the hash of the event.
    pub open spec fn verification_line(self) -> Seq<char> {
        if self.signatures.has_failure {
            field_line("Verify: SIGNATURE FAILED: "@, self.signatures.words@)
        } else {
            full_check_line(
                match self.verification->Some_0 {
                    Ok(verified) => Ok(verified),
                    Err(e) => Err(e@),
                },
            )
        }
    }

    /// The report on an event.
    pub open spec fn report(self, pdu: InspectedPdu) -> Seq<char> {
        header(pdu, shown_membership(pdu), self.room_version@) + self.verification_line() + self.auth_warnings@
            + auth_check_line(
            match self.auth_check {
                Ok(()) => None,
                Err(e) => Some(e@),
            },
        ) + status_line(self.in_timeline, self.is_outlier, self.is_soft_failed)
    }
}

/// Reports what an inspection of an event found. What [`get_room_version_id`]
/// warns of comes before it.
pub fn verify_pdu(out: &mut String, pdu: &InspectedPdu, inspection: Inspection)
    requires
        !inspection.signatures.has_failure ==> inspection.verification is Some,
    ensures
        final(out)@ == old(out)@ + inspection.report(*pdu),
{
    let mut text = String::new();
    push_header(&mut text, pdu, inspection.room_version.as_str());
    assert(text@ =~= header(*pdu, shown_membership(*pdu), inspection.room_version@));
    push_verification(&mut text, &inspection.signatures, inspection.verification);
    text.append(inspection.auth_warnings.as_str());
    push_auth_check(&mut text, inspection.auth_check);
    push_status(&mut text, inspection.in_timeline, inspection.is_outlier, inspection.is_soft_failed);
    out.append(text.as_str());
}

/// What the line for where an event is kept tells. It begins with the word for the
/// timeline, whatever the other two are; the word for an outlier follows, and then
/// the word for a soft failure, each by its own flag alone. Whether the event was
/// rejected is unknown.
pub proof fn lemma_status_line_tells(in_timeline: bool, is_outlier: bool, is_soft_failed: bool)
    ensures
        ({
            let line = status_line(in_timeline, is_outlier, is_soft_failed);
            let rest = line.skip(
                if in_timeline {
                    21
                } else {
                    22
                },
            );
            let last = rest.skip(
                if is_outlier {
                    13
                } else {
                    14
                },
            );
            &&& begins(line, "Status: timeline=true"@) <==> in_timeline
            &&& begins(line, "Status: timeline=false"@) <==> !in_timeline
            &&& begins(rest, " outlier=true"@) <==> is_outlier
            &&& begins(rest, " outlier=false"@) <==> !is_outlier
            &&& last == " rejected=unknown soft_failed=true\n"@ <==> is_soft_failed
            &&& last == " rejected=unknown soft_failed=false\n"@ <==> !is_soft_failed
            &&& ends(line, "soft_failed=true\n"@) <==> is_soft_failed
            &&& ends(line, "soft_failed=false\n"@) <==> !is_soft_failed
        }),
{
    reveal_strlit("Status: timeline=");
    reveal_strlit("Status: timeline=true");
    reveal_strlit("Status: timeline=false");
    reveal_strlit("true");
    reveal_strlit("false");
    reveal_strlit(" outlier=");
    reveal_strlit(" outlier=true");
    reveal_strlit(" outlier=false");
    reveal_strlit(" rejected=unknown soft_failed=");
    reveal_strlit(" rejected=unknown soft_failed=true\n");
    reveal_strlit(" rejected=unknown soft_failed=false\n");
    reveal_strlit("soft_failed=true\n");
    reveal_strlit("soft_failed=false\n");
    reveal_strlit("\n");
    let line = status_line(in_timeline, is_outlier, is_soft_failed);
    let first: int = if in_timeline {
        21
    } else {
        22
    };
    let second: int = if is_outlier {
        13
    } else {
        14
    };
    let rest = line.skip(first);
    let last = rest.skip(second);
    let n = line.len() as int;
    assert(line[17] == truth(in_timeline)[0]);
    if in_timeline {
        assert(line.take(21) =~= "Status: timeline=true"@);
        assert(line.take(22)[17] == 't' && "Status: timeline=false"@[17] == 'f');
    } else {
        assert(line.take(22) =~= "Status: timeline=false"@);
        assert(line.take(21)[17] == 'f' && "Status: timeline=true"@[17] == 't');
    }
    assert(rest =~= " outlier="@ + truth(is_outlier) + " rejected=unknown soft_failed="@ + truth(is_soft_failed)
        + "\n"@);
    if is_outlier {
        assert(rest.take(13) =~= " outlier=true"@);
        assert(rest.take(14)[9] == 't' && " outlier=false"@[9] == 'f');
    } else {
        assert(rest.take(14) =~= " outlier=false"@);
        assert(rest.take(13)[9] == 'f' && " outlier=true"@[9] == 't');
    }
    assert(last =~= " rejected=unknown soft_failed="@ + truth(is_soft_failed) + "\n"@);
    if is_soft_failed {
        assert(last =~= " rejected=unknown soft_failed=true\n"@);
        assert(line.skip(n - 17) =~= "soft_failed=true\n"@);
        assert(line.skip(n - 18)[14] == 'r' && "soft_failed=false\n"@[14] == 'l');
    } else {
        assert(last =~= " rejected=unknown soft_failed=false\n"@);
        assert(line.skip(n - 18) =~= "soft_failed=false\n"@);
        assert(line.skip(n - 17)[15] == 'e' && "soft_failed=true\n"@[12] == 't');
        assert(line.skip(n - 17)[12] == 'a');
    }
}

/// Events that are kept differently are reported differently.
pub proof fn lemma_status_lines_differ(
    in_timeline: bool,
    is_outlier: bool,
    is_soft_failed: bool,
    other_timeline: bool,
    other_outlier: bool,
    other_soft_failed: bool,
)
    requires
        status_line(in_timeline, is_outlier, is_soft_failed) == status_line(
            other_timeline,
            other_outlier,
            other_soft_failed,
        ),
    ensures
        in_timeline == other_timeline,
        is_outlier == other_outlier,
        is_soft_failed == other_soft_failed,
{
    lemma_status_line_tells(in_timeline, is_outlier, is_soft_failed);
    lemma_status_line_tells(other_timeline, other_outlier, other_soft_failed);
}

/// What the report says an event is: line by line its id, its room, its type, the
/// membership and the state key where there are any, the sender and the version of
/// the room, in this order, and nothing else.
pub proof fn lemma_what_the_header_says(
    pdu: InspectedPdu,
    membership: Option<&str>,
    room_version: &str,
    text: String,
)
    requires
        call_ensures(write_header, (&pdu, membership, room_version), text),
    ensures
        begins(
            text@,
            ("Event: "@ + pdu.event_id@ + "\n"@) + ("Room: "@ + pdu.room_id@ + "\n"@) + ("Type: "@ + pdu.kind@ + "\n"@),
        ),
        ends(text@, ("Sender: "@ + pdu.sender@ + "\n"@) + ("Room Version: "@ + room_version@ + "\n"@)),
        membership matches Some(membership) ==> holds(text@, "Membership: "@ + membership@ + "\n"@),
        pdu.state_key matches Some(key) ==> holds(text@, "State key: "@ + key@ + "\n"@),
        membership is Some && pdu.state_key is Some ==> holds(
            text@,
            ("Membership: "@ + membership->Some_0@ + "\n"@) + ("State key: "@ + pdu.state_key->Some_0@ + "\n"@),
        ),
        text@.len() == pdu.event_id@.len() + pdu.room_id@.len() + pdu.kind@.len() + pdu.sender@.len()
            + room_version@.len() + 46 + (match membership {
            Some(membership) => membership@.len() + 13,
            None => 0,
        }) + (match pdu.state_key {
            Some(key) => key@.len() + 12,
            None => 0,
        }),
{
    let first = field_line("Event: "@, pdu.event_id@) + field_line("Room: "@, pdu.room_id@) + field_line(
        "Type: "@,
        pdu.kind@,
    );
    let member_line = optional_line("Membership: "@, optional_str(membership));
    let key_line = optional_line("State key: "@, optional_text(pdu.state_key));
    let last = field_line("Sender: "@, pdu.sender@) + field_line("Room Version: "@, room_version@);
    assert(text@ =~= first + (member_line + key_line) + last);
    lemma_parts_are_held(first, member_line + key_line, last);
    assert(text@ =~= first + member_line + (key_line + last));
    lemma_parts_are_held(first, member_line, key_line + last);
    assert(text@ =~= (first + member_line) + key_line + last);
    lemma_parts_are_held(first + member_line, key_line, last);
    lemma_label_lengths();
}

proof fn lemma_label_lengths()
    ensures
        "Event: "@.len() == 7,
        "Room: "@.len() == 6,
        "Type: "@.len() == 6,
        "Membership: "@.len() == 12,
        "State key: "@.len() == 11,
        "Sender: "@.len() == 8,
        "Room Version: "@.len() == 14,
        "\n"@.len() == 1,
{
    reveal_strlit("Event: ");
    reveal_strlit("Room: ");
    reveal_strlit("Type: ");
    reveal_strlit("Membership: ");
    reveal_strlit("State key: ");
    reveal_strlit("Sender: ");
    reveal_strlit("Room Version: ");
    reveal_strlit("\n");
}

/// The membership is shown for membership events only, and is the one that the
/// content states.
pub proof fn lemma_whose_membership_is_shown(pdu: InspectedPdu)
    ensures
        pdu.kind@ != "m.room.member"@ ==> shown_membership(pdu) is None,
        pdu.kind@ == "m.room.member"@ ==> shown_membership(pdu) == membership_of(pdu.content@),
{
}

/// What the line for a full check tells: that all holds exactly where all does,
/// that the hash failed exactly where only the signatures hold, and otherwise what
/// went wrong.
pub proof fn lemma_full_check_line_tells(verification: Result<Verified, Seq<char>>)
    ensures
        full_check_line(verification) == "Verify: OK\n"@ <==> verification == Ok::<Verified, Seq<char>>(Verified::All),
        full_check_line(verification) == "Verify: REDACTED / HASH FAILED\n"@ <==> verification == Ok::<
            Verified,
            Seq<char>,
        >(Verified::Signatures),
        begins(full_check_line(verification), "Verify: FAILED ("@) <==> verification is Err,
        verification matches Err(e) ==> full_check_line(verification).len() == e.len() + 18 && full_check_line(
            verification,
        ).subrange(16, (16 + e.len()) as int) == e && ends(full_check_line(verification), ")\n"@),
{
    reveal_strlit("Verify: OK\n");
    reveal_strlit("Verify: REDACTED / HASH FAILED\n");
    reveal_strlit("Verify: FAILED (");
    reveal_strlit(")\n");
    let line = full_check_line(verification);
    match verification {
        Ok(Verified::All) => {
            assert("Verify: OK\n"@.len() != "Verify: REDACTED / HASH FAILED\n"@.len());
        },
        Ok(Verified::Signatures) => {
            assert("Verify: OK\n"@.len() != "Verify: REDACTED / HASH FAILED\n"@.len());
            assert(line.take(16)[8] == 'R' && "Verify: FAILED ("@[8] == 'F');
        },
        Err(e) => {
            assert(line[8] == 'F');
            assert("Verify: OK\n"@[8] == 'O' && "Verify: REDACTED / HASH FAILED\n"@[8] == 'R');
            assert(line.take(16) =~= "Verify: FAILED ("@);
            assert(line.subrange(16, (16 + e.len()) as int) =~= e);
            assert(line.skip(line.len() - 2) =~= ")\n"@);
        },
    }
}

/// What the line for the authorisation tells: that the event passes exactly where
/// nothing is wrong with it, and otherwise what is.
pub proof fn lemma_auth_check_line_tells(fault: Option<Seq<char>>)
    ensures
        auth_check_line(fault) == "Auth check: OK\n"@ <==> fault is None,
        begins(auth_check_line(fault), "Auth check: FAIL ("@) <==> fault is Some,
        fault matches Some(e) ==> auth_check_line(fault).len() == e.len() + 20 && auth_check_line(fault).subrange(
            18,
            (18 + e.len()) as int,
        ) == e && ends(auth_check_line(fault), ")\n"@),
{
    reveal_strlit("Auth check: OK\n");
    reveal_strlit("Auth check: FAIL (");
    reveal_strlit(")\n");
    let line = auth_check_line(fault);
    match fault {
        None => {},
        Some(e) => {
            assert(line[12] == 'F' && "Auth check: OK\n"@[12] == 'O');
            assert(line.take(18) =~= "Auth check: FAIL ("@);
            assert(line.subrange(18, (18 + e.len()) as int) =~= e);
            assert(line.skip(line.len() - 2) =~= ")\n"@);
        },
    }
}

/// Auth events are filed and reported one after the other: those of two lists as
/// those of the one and then those of the other. One that was fetched is filed
/// under its type and its state key, or an empty one, and not reported; one that
/// was not is reported by its id with the reason, and not filed.
pub proof fn lemma_auth_events_one_by_one<P>(
    fetched: Seq<FetchedAuthEvent<P>>,
    more: Seq<FetchedAuthEvent<P>>,
    one: FetchedAuthEvent<P>,
)
    ensures
        found_auth_events(fetched + more) == found_auth_events(fetched) + found_auth_events(more),
        missing_auth_lines(fetched + more) == missing_auth_lines(fetched) + missing_auth_lines(more),
        one.event matches Ok(event) ==> {
            let found = found_auth_events(seq![one]);
            &&& missing_auth_lines(seq![one]).len() == 0
            &&& found.len() == 1
            &&& found[0].0.0 == event.kind@
            &&& event.state_key matches Some(key) ==> found[0].0.1 == key@
            &&& event.state_key is None ==> found[0].0.1.len() == 0
            &&& found[0].1 == event.pdu
        },
        one.event matches Err(e) ==> {
            let line = missing_auth_lines(seq![one]);
            &&& found_auth_events(seq![one]).len() == 0
            &&& begins(line, "Warning: Failed to fetch auth event "@ + one.id@)
            &&& ends(line, ": "@ + e@ + "\n"@)
            &&& line.len() == one.id@.len() + e@.len() + 39
        },
    decreases more.len(),
{
    reveal_strlit("");
    reveal_strlit("\n");
    reveal_strlit(": ");
    reveal_strlit("Warning: Failed to fetch auth event ");
    let single = seq![one];
    assert(single.drop_last() =~= seq![]);
    assert(single.last() == one);
    assert(found_auth_events::<P>(seq![]) =~= seq![]);
    assert(missing_auth_lines::<P>(seq![]) =~= seq![]);
    match one.event {
        Ok(event) => {
            assert(missing_auth_lines(single) =~= seq![]);
        },
        Err(e) => {
            let line = missing_auth_lines(single);
            let first = "Warning: Failed to fetch auth event "@ + one.id@;
            let last = ": "@ + e@ + "\n"@;
            assert(line =~= first + last);
            assert(line.take(first.len() as int) =~= first);
            assert(line.skip(line.len() - last.len()) =~= last);
        },
    }
    if more.len() == 0 {
        assert(fetched + more =~= fetched);
        assert(found_auth_events(fetched) + found_auth_events(more) =~= found_auth_events(fetched));
        assert(missing_auth_lines(fetched) + missing_auth_lines(more) =~= missing_auth_lines(fetched));
    } else {
        lemma_auth_events_one_by_one(fetched, more.drop_last(), one);
        assert((fetched + more).drop_last() =~= fetched + more.drop_last());
        assert(found_auth_events(fetched + more) =~= found_auth_events(fetched) + found_auth_events(more));
        assert(missing_auth_lines(fetched + more) =~= missing_auth_lines(fetched) + missing_auth_lines(more));
    }
}

/// What filing auth events does: what was written stays, and each auth event is
/// either filed or reported, so that with all of them fetched nothing is written
/// and each is filed in its place, by its type, its state key and itself.
pub proof fn lemma_what_filing_does<P>(
    fetched: Vec<FetchedAuthEvent<P>>,
    out: &mut String,
    entries: Vec<StateEntry<P>>,
)
    requires
        call_ensures(file_auth_events::<P>, (fetched, out), entries),
    ensures
        begins(final(out)@, old(out)@),
        entries@.len() <= fetched@.len(),
        (forall|i: int| 0 <= i < fetched@.len() ==> (#[trigger] fetched@[i]).event is Ok) ==> {
            &&& final(out)@ == old(out)@
            &&& entries@.len() == fetched@.len()
            &&& forall|i: int|
                0 <= i < entries@.len() ==> {
                    let event = fetched@[i].event->Ok_0;
                    &&& (#[trigger] entries@[i]).value == event.pdu
                    &&& entries@[i].event_type@ == event.kind@
                    &&& event.state_key matches Some(key) ==> entries@[i].state_key@ == key@
                    &&& event.state_key is None ==> entries@[i].state_key@.len() == 0
                }
        },
        (forall|i: int| 0 <= i < fetched@.len() ==> (#[trigger] fetched@[i]).event is Err) ==> entries@.len() == 0,
{
    reveal_strlit("");
    lemma_filed_one_for_one(fetched@);
    let found = found_auth_events(fetched@);
    assert(keyed(entries@).len() == entries@.len());
    assert(final(out)@.take(old(out)@.len() as int) =~= old(out)@);
    if forall|i: int| 0 <= i < fetched@.len() ==> (#[trigger] fetched@[i]).event is Ok {
        assert(final(out)@ =~= old(out)@);
        assert forall|i: int| 0 <= i < entries@.len() implies ({
            let event = fetched@[i].event->Ok_0;
            &&& (#[trigger] entries@[i]).value == event.pdu
            &&& entries@[i].event_type@ == event.kind@
            &&& event.state_key matches Some(key) ==> entries@[i].state_key@ == key@
            &&& event.state_key is None ==> entries@[i].state_key@.len() == 0
        }) by {
            assert(keyed(entries@)[i] == (entries@[i].key(), entries@[i].value));
            assert(found[i] == (auth_key(fetched@[i].event->Ok_0), fetched@[i].event->Ok_0.pdu));
        }
    }
}

proof fn lemma_filed_one_for_one<P>(fetched: Seq<FetchedAuthEvent<P>>)
    ensures
        found_auth_events(fetched).len() <= fetched.len(),
        (forall|i: int| 0 <= i < fetched.len() ==> (#[trigger] fetched[i]).event is Ok) ==> {
            &&& missing_auth_lines(fetched).len() == 0
            &&& found_auth_events(fetched).len() == fetched.len()
            &&& forall|i: int|
                0 <= i < fetched.len() ==> #[trigger] found_auth_events(fetched)[i] == (
                    auth_key(fetched[i].event->Ok_0),
                    fetched[i].event->Ok_0.pdu,
                )
        },
        (forall|i: int| 0 <= i < fetched.len() ==> (#[trigger] fetched[i]).event is Err) ==> found_auth_events(
            fetched,
        ).len() == 0,
    decreases fetched.len(),
{
    if fetched.len() > 0 {
        let front = fetched.drop_last();
        lemma_filed_one_for_one(front);
        assert(fetched[fetched.len() - 1] == fetched.last());
        assert forall|i: int| 0 <= i < front.len() implies front[i] == #[trigger] fetched[i] by {}
        if forall|i: int| 0 <= i < fetched.len() ==> (#[trigger] fetched[i]).event is Ok {
            assert forall|i: int| 0 <= i < front.len() implies (#[trigger] front[i]).event is Ok by {
                assert(fetched[i].event is Ok);
            }
            assert(fetched.last().event is Ok);
        }
        if forall|i: int| 0 <= i < fetched.len() ==> (#[trigger] fetched[i]).event is Err {
            assert forall|i: int| 0 <= i < front.len() implies (#[trigger] front[i]).event is Err by {
                assert(fetched[i].event is Err);
            }
            assert(fetched.last().event is Err);
        }
    }
}

proof fn lemma_place_of_key<P>(entries: Seq<(StateKey, P)>, key: StateKey) -> (place: int)
    ensures
        first_with_key(entries, key) is None ==> forall|i: int| 0 <= i < entries.len() ==> (#[trigger] entries[i]).0 != key,
        first_with_key(entries, key) matches Some(value) ==> {
            &&& 0 <= place < entries.len()
            &&& entries[place] == (key, value)
            &&& forall|i: int| 0 <= i < place ==> (#[trigger] entries[i]).0 != key
        },
    decreases entries.len(),
{
    if entries.len() == 0 || entries[0].0 == key {
        0
    } else {
        let rest = entries.drop_first();
        let place = lemma_place_of_key(rest, key);
        assert forall|i: int| 0 < i < entries.len() implies #[trigger] entries[i] == rest[i - 1] by {}
        if first_with_key(rest, key) is Some {
            assert(entries[place + 1] == rest[place]);
            assert forall|i: int| 0 <= i < place + 1 implies (#[trigger] entries[i]).0 != key by {
                if i > 0 {
                    assert(rest[i - 1].0 != key);
                }
            }
        }
        place + 1
    }
}

/// Which auth event is found: the first one of the type and state key that were
/// asked for, and none exactly where there is none of both.
pub proof fn lemma_which_auth_event_is_found<'a, P>(
    entries: Vec<StateEntry<P>>,
    event_type: &str,
    state_key: &str,
    found: Option<&'a P>,
) -> (place: int)
    requires
        call_ensures(find_auth_event::<P>, (&entries, event_type, state_key), found),
    ensures
        found matches Some(pdu) ==> {
            &&& 0 <= place < entries@.len()
            &&& entries@[place].event_type@ == event_type@
            &&& entries@[place].state_key@ == state_key@
            &&& entries@[place].value == *pdu
            &&& forall|i: int|
                0 <= i < place ==> (#[trigger] entries@[i]).event_type@ != event_type@ || entries@[i].state_key@
                    != state_key@
        },
        found is None ==> forall|i: int|
            0 <= i < entries@.len() ==> (#[trigger] entries@[i]).event_type@ != event_type@ || entries@[i].state_key@
                != state_key@,
{
    let key = (event_type@, state_key@);
    let all = keyed(entries@);
    let place = lemma_place_of_key(all, key);
    assert forall|i: int| 0 <= i < entries@.len() implies all[i] == (
        ((#[trigger] entries@[i]).event_type@, entries@[i].state_key@),
        entries@[i].value,
    ) by {}
    if found is Some {
        assert(all[place] == (key, *found->Some_0));
        assert(entries@[place].value == *found->Some_0);
        assert forall|i: int| 0 <= i < place implies (#[trigger] entries@[i]).event_type@ != event_type@
            || entries@[i].state_key@ != state_key@ by {
            assert(all[i].0 != key);
        }
    } else {
        assert forall|i: int| 0 <= i < entries@.len() implies (#[trigger] entries@[i]).event_type@ != event_type@
            || entries@[i].state_key@ != state_key@ by {
            assert(all[i].0 != key);
        }
    }
    place
}

/// The version of a room is the one that was looked up, and one where the room has
/// no event that created it; only then is something written. Any other error stays
/// one.
pub proof fn lemma_which_version_a_room_has<E>(
    lookup: Result<String, VersionLookupError<E>>,
    out: &mut String,
    r: Result<String, E>,
)
    requires
        call_ensures(get_room_version_id::<E>, (lookup, out), r),
    ensures
        r is Err <==> lookup is Err && lookup->Err_0 is Other,
        lookup matches Ok(version) ==> r->Ok_0 == version,
        lookup is Err && lookup->Err_0 is Other ==> r->Err_0 == lookup->Err_0->Other_0,
        lookup is Err && lookup->Err_0 is NotFound ==> decimal_value(r->Ok_0@) == 1 && r->Ok_0@.len() == 1,
        !(lookup is Err && lookup->Err_0 is NotFound) <==> final(out)@ == old(out)@,
        begins(final(out)@, old(out)@),
        lookup is Err && lookup->Err_0 is NotFound ==> holds(final(out)@, "Warning: No m.room.create found"@),
{
    reveal_strlit("1");
    reveal_strlit("Warning: No m.room.create found");
    reveal_strlit("Warning: No m.room.create found, defaulting to Room Version 1\n");
    assert("1"@.drop_last() =~= seq![]);
    assert(decimal_value(seq![]) == 0);
    assert(decimal_value("1"@) == 1) by {
        assert("1"@.last() == '1');
    }
    assert(final(out)@.take(old(out)@.len() as int) =~= old(out)@);
    if lookup is Err && lookup->Err_0 is NotFound {
        let tail = no_create_line().skip(31);
        assert(no_create_line() =~= "Warning: No m.room.create found"@ + tail);
        assert(final(out)@ =~= old(out)@ + "Warning: No m.room.create found"@ + tail);
        lemma_parts_are_held(old(out)@, "Warning: No m.room.create found"@, tail);
        assert(final(out)@.len() > old(out)@.len());
    }
}

/// What the report on an event tells, after what was written before: it begins
/// with the id of the event and ends with where the event is kept; it names the
/// sender, the signatures that fail or what the full check found, the warnings, and
/// whether the event is authorised.
pub proof fn lemma_what_the_report_tells(out: &mut String, pdu: InspectedPdu, inspection: Inspection)
    requires
        call_ensures(verify_pdu, (out, &pdu, inspection), ()),
        !inspection.signatures.has_failure ==> inspection.verification is Some,
    ensures
        begins(final(out)@, old(out)@ + "Event: "@ + pdu.event_id@ + "\n"@),
        holds(final(out)@, "Sender: "@ + pdu.sender@ + "\n"@),
        holds(final(out)@, "Room Version: "@ + inspection.room_version@ + "\n"@),
        inspection.signatures.has_failure ==> holds(
            final(out)@,
            "Verify: SIGNATURE FAILED: "@ + inspection.signatures.words@ + "\n"@,
        ),
        !inspection.signatures.has_failure && inspection.verification->Some_0 is Ok
            && inspection.verification->Some_0->Ok_0 is All ==> holds(final(out)@, "Verify: OK\n"@),
        !inspection.signatures.has_failure && inspection.verification->Some_0 is Ok
            && inspection.verification->Some_0->Ok_0 is Signatures ==> holds(
            final(out)@,
            "Verify: REDACTED / HASH FAILED\n"@,
        ),
        !inspection.signatures.has_failure && inspection.verification->Some_0 is Err ==> holds(
            final(out)@,
            "Verify: FAILED ("@ + inspection.verification->Some_0->Err_0@ + ")\n"@,
        ),
        holds(final(out)@, inspection.auth_warnings@),
        begins(
            final(out)@,
            old(out)@ + header(pdu, shown_membership(pdu), inspection.room_version@) + inspection.verification_line()
                + inspection.auth_warnings@,
        ),
        inspection.auth_check is Ok ==> holds(final(out)@, "Auth check: OK\nStatus: "@),
        inspection.auth_check matches Err(e) ==> holds(final(out)@, "Auth check: FAIL ("@ + e@ + ")\nStatus: "@),
        ends(final(out)@, "soft_failed=true\n"@) <==> inspection.is_soft_failed,
        ends(final(out)@, "soft_failed=false\n"@) <==> !inspection.is_soft_failed,
        holds(final(out)@, "Status: timeline=true"@) || !inspection.in_timeline,
        holds(final(out)@, "Status: timeline=false"@) || inspection.in_timeline,
        holds(final(out)@, " outlier=true"@) || !inspection.is_outlier,
        holds(final(out)@, " outlier=false"@) || inspection.is_outlier,
        final(out)@.len() == old(out)@.len() + header(pdu, shown_membership(pdu), inspection.room_version@).len()
            + inspection.verification_line().len() + inspection.auth_warnings@.len() + (match inspection.auth_check {
            Ok(()) => 15,
            Err(e) => e@.len() + 20,
        }) + 57 + (if inspection.in_timeline {
            4int
        } else {
            5
        }) + (if inspection.is_outlier {
            4int
        } else {
            5
        }) + (if inspection.is_soft_failed {
            4int
        } else {
            5
        }),
{
    reveal_strlit("Auth check: OK\n");
    lemma_auth_check_line_tells(
        match inspection.auth_check {
            Ok(()) => None,
            Err(e) => Some(e@),
        },
    );
    let head = header(pdu, shown_membership(pdu), inspection.room_version@);
    let checked = inspection.verification_line();
    let warnings = inspection.auth_warnings@;
    let fault = match inspection.auth_check {
        Ok(()) => None,
        Err(e) => Some(e@),
    };
    let auth = auth_check_line(fault);
    let status = status_line(inspection.in_timeline, inspection.is_outlier, inspection.is_soft_failed);
    let whole = final(out)@;
    let start = old(out)@;
    assert(whole == start + (head + checked + warnings + auth + status));
    lemma_status_line_tells(inspection.in_timeline, inspection.is_outlier, inspection.is_soft_failed);
    lemma_status_holds(inspection.in_timeline, inspection.is_outlier, inspection.is_soft_failed);
    lemma_report_parts(start, head, checked, warnings, auth, status);
    lemma_header_holds(pdu, shown_membership(pdu), inspection.room_version@);
    lemma_begins_within(start, head, whole, "Event: "@ + pdu.event_id@ + "\n"@);
    assert(start + "Event: "@ + pdu.event_id@ + "\n"@ =~= start + ("Event: "@ + pdu.event_id@ + "\n"@));
    lemma_holds_within(whole, head, "Sender: "@ + pdu.sender@ + "\n"@);
    lemma_holds_within(whole, head, "Room Version: "@ + inspection.room_version@ + "\n"@);
    lemma_ends_within(whole, status, "soft_failed=true\n"@);
    lemma_ends_within(whole, status, "soft_failed=false\n"@);
    if inspection.in_timeline {
        lemma_holds_within(whole, status, "Status: timeline=true"@);
    } else {
        lemma_holds_within(whole, status, "Status: timeline=false"@);
    }
    if inspection.is_outlier {
        lemma_holds_within(whole, status, " outlier=true"@);
    } else {
        lemma_holds_within(whole, status, " outlier=false"@);
    }
    lemma_auth_then_status(fault);
}

proof fn lemma_report_parts(
    start: Seq<char>,
    head: Seq<char>,
    checked: Seq<char>,
    warnings: Seq<char>,
    auth: Seq<char>,
    status: Seq<char>,
)
    requires
        status.len() >= 8,
    ensures
        ({
            let whole = start + (head + checked + warnings + auth + status);
            &&& begins(whole, start + head)
            &&& begins(whole, start + head + checked + warnings)
            &&& holds(whole, head)
            &&& holds(whole, checked)
            &&& holds(whole, warnings)
            &&& holds(whole, auth + status.take(8))
            &&& holds(whole, status)
            &&& ends(whole, status)
        }),
{
    let whole = start + (head + checked + warnings + auth + status);
    let before = start + head + checked + warnings;
    assert(whole =~= start + head + (checked + warnings + auth + status));
    lemma_parts_are_held(start, head, checked + warnings + auth + status);
    assert(whole =~= (start + head) + checked + (warnings + auth + status));
    lemma_parts_are_held(start + head, checked, warnings + auth + status);
    assert(whole =~= (start + head + checked) + warnings + (auth + status));
    lemma_parts_are_held(start + head + checked, warnings, auth + status);
    assert(whole =~= before + auth + status);
    lemma_parts_are_held(before, auth, status);
    assert(auth + status =~= (auth + status.take(8)) + status.skip(8));
    assert(whole =~= before + (auth + status.take(8)) + status.skip(8));
    lemma_parts_are_held(before, auth + status.take(8), status.skip(8));
}

proof fn lemma_begins_within(start: Seq<char>, head: Seq<char>, whole: Seq<char>, part: Seq<char>)
    requires
        begins(whole, start + head),
        begins(head, part),
    ensures
        begins(whole, start + part),
{
    let n = (start.len() + part.len()) as int;
    assert(whole.take(n) =~= whole.take((start + head).len() as int).take(n));
    assert((start + head).take(n) =~= start + head.take(part.len() as int));
}

proof fn lemma_ends_within(whole: Seq<char>, status: Seq<char>, part: Seq<char>)
    requires
        ends(whole, status),
        part.len() <= status.len(),
    ensures
        ends(whole, part) <==> ends(status, part),
{
    let n = whole.len() - status.len();
    assert(whole.skip(whole.len() - part.len()) =~= whole.skip(n).skip(status.len() - part.len()));
}

proof fn lemma_auth_then_status(fault: Option<Seq<char>>)
    ensures
        fault is None ==> auth_check_line(fault) + "Status: "@ == "Auth check: OK\nStatus: "@,
        fault matches Some(e) ==> auth_check_line(fault) + "Status: "@ == "Auth check: FAIL ("@ + e + ")\nStatus: "@,
{
    reveal_strlit("Status: ");
    match fault {
        None => {
            reveal_strlit("Auth check: OK\n");
            reveal_strlit("Auth check: OK\nStatus: ");
            assert(auth_check_line(fault) + "Status: "@ =~= "Auth check: OK\nStatus: "@);
        },
        Some(e) => {
            reveal_strlit(")\n");
            reveal_strlit(")\nStatus: ");
            assert(")\n"@ + "Status: "@ =~= ")\nStatus: "@);
            assert(auth_check_line(fault) + "Status: "@ =~= "Auth check: FAIL ("@ + e + (")\n"@ + "Status: "@));
        },
    }
}

proof fn lemma_header_holds(pdu: InspectedPdu, membership: Option<Seq<char>>, room_version: Seq<char>)
    ensures
        begins(header(pdu, membership, room_version), "Event: "@ + pdu.event_id@ + "\n"@),
        holds(header(pdu, membership, room_version), "Sender: "@ + pdu.sender@ + "\n"@),
        holds(header(pdu, membership, room_version), "Room Version: "@ + room_version + "\n"@),
{
    let head = header(pdu, membership, room_version);
    let first = "Event: "@ + pdu.event_id@ + "\n"@;
    let middle = field_line("Room: "@, pdu.room_id@) + field_line("Type: "@, pdu.kind@) + optional_line(
        "Membership: "@,
        membership,
    ) + optional_line("State key: "@, optional_text(pdu.state_key));
    let sender = "Sender: "@ + pdu.sender@ + "\n"@;
    let version = "Room Version: "@ + room_version + "\n"@;
    assert(head =~= first + middle + (sender + version));
    lemma_parts_are_held(first, middle, sender + version);
    assert(head =~= (first + middle) + sender + version);
    lemma_parts_are_held(first + middle, sender, version);
}

proof fn lemma_status_holds(in_timeline: bool, is_outlier: bool, is_soft_failed: bool)
    ensures
        ({
            let line = status_line(in_timeline, is_outlier, is_soft_failed);
            &&& line.len() == 57 + truth(in_timeline).len() + truth(is_outlier).len() + truth(is_soft_failed).len()
            &&& "true"@.len() == 4 && "false"@.len() == 5
            &&& "soft_failed=true\n"@.len() < "soft_failed=false\n"@.len() == 18
            &&& line.take(8) == "Status: "@
            &&& in_timeline ==> holds(line, "Status: timeline=true"@)
            &&& !in_timeline ==> holds(line, "Status: timeline=false"@)
            &&& is_outlier ==> holds(line, " outlier=true"@)
            &&& !is_outlier ==> holds(line, " outlier=false"@)
        }),
{
    reveal_strlit("true");
    reveal_strlit("false");
    reveal_strlit("Status: timeline=");
    reveal_strlit(" outlier=");
    reveal_strlit(" rejected=unknown soft_failed=");
    reveal_strlit("\n");
    reveal_strlit("soft_failed=true\n");
    reveal_strlit("soft_failed=false\n");
    reveal_strlit("Status: timeline=true");
    reveal_strlit("Status: timeline=false");
    reveal_strlit("Status: ");
    reveal_strlit(" outlier=true");
    reveal_strlit(" outlier=false");
    let line = status_line(in_timeline, is_outlier, is_soft_failed);
    lemma_status_line_tells(in_timeline, is_outlier, is_soft_failed);
    let first: int = if in_timeline {
        21
    } else {
        22
    };
    let second: int = if is_outlier {
        13
    } else {
        14
    };
    let rest = line.skip(first);
    assert(line =~= seq![] + line.take(first) + rest);
    lemma_parts_are_held(seq![], line.take(first), rest);
    assert(line =~= line.take(first) + rest.take(second) + rest.skip(second));
    lemma_parts_are_held(line.take(first), rest.take(second), rest.skip(second));
    assert(line.take(8) =~= line.take(first).take(8));
    assert(line.take(8) =~= "Status: "@);
}

} // verus!
