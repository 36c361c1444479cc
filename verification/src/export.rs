//! What an export of the event graph of a room says of one event.

use crate::json::{
    all_plain, as_json_text, fields, insert_flag, insert_number, insert_text, into_object, members, read_as_object,
    to_text, to_value, Json, JsonObject,
};
use crate::text::{all_digits, decimal, decimal_value, lemma_decimal_reads_back, optional_str};
use vstd::prelude::*;

verus! {

/// Whether an event is kept apart from the timeline: an outlier, an event that
/// cannot be read, and one that failed softly.
pub open spec fn separated(readable: bool, is_outlier: bool, is_soft_failed: bool) -> bool {
    is_outlier || !readable || is_soft_failed
}

/// Whether the export has to know the state before an event: for the events of
/// the timeline.
pub fn wants_shortstatehash(readable: bool, is_outlier: bool, is_soft_failed: bool) -> (wants: bool)
    ensures
        wants == !separated(readable, is_outlier, is_soft_failed),
{
    readable && !is_outlier && !is_soft_failed
}

/// The members of an event with what the server knows of it.
pub open spec fn annotated(
    members: Map<Seq<char>, Json>,
    event_id: Option<Seq<char>>,
    is_outlier: bool,
    is_soft_failed: bool,
    shortstatehash: Option<u64>,
) -> Map<Seq<char>, Json> {
    let marked = if is_outlier {
        members.insert("__outlier"@, Json::Bool(true))
    } else {
        members
    };
    match event_id {
        None => marked,
        Some(id) => {
            let named = marked.insert("event_id"@, Json::Text(id));
            if is_soft_failed {
                named.insert("__soft_failed"@, Json::Bool(true))
            } else if is_outlier {
                named
            } else {
                match shortstatehash {
                    Some(hash) => named.insert("__shortstatehash"@, Json::Number(decimal(hash as nat))),
                    None => named,
                }
            }
        },
    }
}

/// An event, ready to be exported.
pub struct Decorated {
    pub object: JsonObject,
    pub is_separated: bool,
    /// The state before the event, for an event of the timeline of which it is
    /// known.
    pub shortstatehash: Option<u64>,
}

/// An event could not be turned into JSON.
#[derive(Clone, Copy, Debug, PartialEq, Eq, Structural)]
pub struct ExportError;

/// Adds to an event what the server knows of it. `event_id` is that of the
/// event where it can be read; whether it failed softly and the state before it
/// count only where they are known of such an event.
pub fn decorate_object(
    object: JsonObject,
    event_id: Option<&str>,
    is_outlier: bool,
    is_soft_failed: bool,
    shortstatehash: Option<u64>,
) -> (decorated: Decorated)
    ensures
        fields(decorated.object) == annotated(
            fields(object),
            optional_str(event_id),
            is_outlier,
            is_soft_failed,
            shortstatehash,
        ),
        decorated.is_separated == separated(event_id is Some, is_outlier, is_soft_failed),
        decorated.shortstatehash == if decorated.is_separated {
            None
        } else {
            shortstatehash
        },
{
    let mut object = object;
    if is_outlier {
        insert_flag(&mut object, "__outlier", true);
    }
    let mut is_separated = is_outlier;
    let mut hash: Option<u64> = None;
    match event_id {
        Some(id) => {
            insert_text(&mut object, "event_id", id);
            if is_soft_failed {
                insert_flag(&mut object, "__soft_failed", true);
                is_separated = true;
            }
            if !is_separated {
                match shortstatehash {
                    Some(ssh) => {
                        insert_number(&mut object, "__shortstatehash", ssh);
                        hash = Some(ssh);
                    },
                    None => {},
                }
            }
        },
        None => {
            is_separated = true;
        },
    }
    Decorated { object, is_separated, shortstatehash: hash }
}

/// Decorates an event for the export.
pub fn decorate_pdu_for_export(
    pdu_json: &ruma::CanonicalJsonObject,
    event_id: Option<&str>,
    is_outlier: bool,
    is_soft_failed: bool,
    shortstatehash: Option<u64>,
) -> (r: Result<Decorated, ExportError>)
    ensures
        match r {
            Err(_) => read_as_object(Json::Object(members(*pdu_json))) is None,
            Ok(decorated) => {
                &&& read_as_object(Json::Object(members(*pdu_json))) matches Some(copy) && fields(decorated.object) == annotated(
                    copy,
                    optional_str(event_id),
                    is_outlier,
                    is_soft_failed,
                    shortstatehash,
                )
                &&& decorated.is_separated == separated(event_id is Some, is_outlier, is_soft_failed)
                &&& decorated.shortstatehash == if decorated.is_separated {
                    None
                } else {
                    shortstatehash
                }
            },
        },
        all_plain(members(*pdu_json)) ==> r is Ok && read_as_object(Json::Object(members(*pdu_json))) == Some(members(*pdu_json)),
{
    let value = match to_value(pdu_json) {
        Ok(value) => value,
        Err(_) => {
            return Err(ExportError);
        },
    };
    match into_object(value) {
        Ok(object) => Ok(decorate_object(object, event_id, is_outlier, is_soft_failed, shortstatehash)),
        Err(_) => Err(ExportError),
    }
}

/// The line of the export for an event.
pub open spec fn line_of(fields: Map<Seq<char>, Json>) -> Seq<char> {
    as_json_text(fields) + "\n"@
}

/// Writes the line of the export for an event.
pub fn export_line(object: &JsonObject) -> (r: Result<String, ExportError>)
    ensures
        r matches Ok(line) && line@ == line_of(fields(*object)) && !line@.drop_last().contains('\n'),
{
    match to_text(object) {
        Ok(text) => {
            let mut line = text;
            let ghost before = line@;
            line.append("\n");
            proof {
                reveal_strlit("\n");
                assert(line@.drop_last() =~= before);
            }
            Ok(line)
        },
        Err(_) => Err(ExportError),
    }
}

/// For which events the state before them is wanted: for those that can be read,
/// are no outliers and have not failed softly.
pub proof fn lemma_whose_state_is_wanted(readable: bool, is_outlier: bool, is_soft_failed: bool, wants: bool)
    requires
        call_ensures(wants_shortstatehash, (readable, is_outlier, is_soft_failed), wants),
    ensures
        wants ==> readable && !is_outlier && !is_soft_failed,
        !wants ==> !readable || is_outlier || is_soft_failed,
        wants <==> !separated(readable, is_outlier, is_soft_failed),
{
}

/// What the export adds to an event. A member of any other name stays. An outlier
/// is marked as one, an event that can be read is given its id, one of those that
/// failed softly is marked as such, and one of the timeline is given the number of
/// the state before it, where that is known; nothing else is marked or given.
pub proof fn lemma_what_the_export_adds(
    members: Map<Seq<char>, Json>,
    event_id: Option<Seq<char>>,
    is_outlier: bool,
    is_soft_failed: bool,
    shortstatehash: Option<u64>,
    name: Seq<char>,
)
    ensures
        ({
            let fields = annotated(members, event_id, is_outlier, is_soft_failed, shortstatehash);
            let kept = fields.contains_key(name) == members.contains_key(name) && fields[name] == members[name];
            let in_timeline = event_id is Some && !is_outlier && !is_soft_failed;
            &&& name != "__outlier"@ && name != "event_id"@ && name != "__soft_failed"@ && name != "__shortstatehash"@
                ==> kept
            &&& is_outlier ==> fields.contains_key("__outlier"@) && fields["__outlier"@] == Json::Bool(true)
            &&& !is_outlier && name == "__outlier"@ ==> kept
            &&& event_id matches Some(id) ==> fields.contains_key("event_id"@) && fields["event_id"@] == Json::Text(id)
            &&& event_id is None && name == "event_id"@ ==> kept
            &&& event_id is Some && is_soft_failed ==> fields.contains_key("__soft_failed"@) && fields["__soft_failed"@]
                == Json::Bool(true)
            &&& (event_id is None || !is_soft_failed) && name == "__soft_failed"@ ==> kept
            &&& in_timeline && shortstatehash is Some ==> {
                &&& fields.contains_key("__shortstatehash"@)
                &&& fields["__shortstatehash"@] is Number
                &&& decimal_value(fields["__shortstatehash"@]->Number_0) == shortstatehash->Some_0
                &&& all_digits(fields["__shortstatehash"@]->Number_0)
            }
            &&& (!in_timeline || shortstatehash is None) && name == "__shortstatehash"@ ==> kept
        }),
{
    reveal_strlit("__outlier");
    reveal_strlit("event_id");
    reveal_strlit("__soft_failed");
    reveal_strlit("__shortstatehash");
    assert("__outlier"@.len() == 9 && "event_id"@.len() == 8 && "__soft_failed"@.len() == 13
        && "__shortstatehash"@.len() == 16);
    if shortstatehash is Some {
        lemma_decimal_reads_back(shortstatehash->Some_0 as nat);
    }
}

/// The line of an event is its JSON text and the end of the line.
pub proof fn lemma_the_line_is_the_text(object: JsonObject, r: Result<String, ExportError>)
    requires
        call_ensures(export_line, (&object,), r),
    ensures
        r is Ok,
        r matches Ok(line) ==> line@.len() == as_json_text(fields(object)).len() + 1 && line@.last() == '\n'
            && line@.drop_last() == as_json_text(fields(object)) && !line@.drop_last().contains('\n'),
{
    reveal_strlit("\n");
    assert(line_of(fields(object)).drop_last() =~= as_json_text(fields(object)));
}

/// An event is kept apart from the timeline exactly where it is an outlier, cannot
/// be read or failed softly; and the state before it is carried on only for the
/// timeline.
pub proof fn lemma_what_is_decorated(
    object: JsonObject,
    event_id: Option<&str>,
    is_outlier: bool,
    is_soft_failed: bool,
    shortstatehash: Option<u64>,
    decorated: Decorated,
)
    requires
        call_ensures(decorate_object, (object, event_id, is_outlier, is_soft_failed, shortstatehash), decorated),
    ensures
        is_outlier || event_id is None || is_soft_failed <==> decorated.is_separated,
        decorated.is_separated ==> decorated.shortstatehash is None,
        !decorated.is_separated ==> decorated.shortstatehash == shortstatehash,
        event_id matches Some(id) ==> fields(decorated.object).contains_key("event_id"@) && fields(
            decorated.object,
        )["event_id"@] == Json::Text(id@),
        is_outlier ==> fields(decorated.object).contains_key("__outlier"@) && fields(decorated.object)["__outlier"@]
            == Json::Bool(true),
{
    lemma_what_the_export_adds(
        fields(object),
        optional_str(event_id),
        is_outlier,
        is_soft_failed,
        shortstatehash,
        "event_id"@,
    );
}

/// What decorating an event comes to: it fails only where the event cannot be read
/// as an object, never on plain JSON; and it is kept apart exactly where it is an
/// outlier, cannot be read or failed softly.
pub proof fn lemma_what_decorating_comes_to(
    pdu_json: ruma::CanonicalJsonObject,
    event_id: Option<&str>,
    is_outlier: bool,
    is_soft_failed: bool,
    shortstatehash: Option<u64>,
    r: Result<Decorated, ExportError>,
    name: Seq<char>,
)
    requires
        call_ensures(
            decorate_pdu_for_export,
            (&pdu_json, event_id, is_outlier, is_soft_failed, shortstatehash),
            r,
        ),
    ensures
        r is Ok <==> read_as_object(Json::Object(members(pdu_json))) is Some,
        all_plain(members(pdu_json)) ==> r is Ok,
        r matches Ok(decorated) ==> {
            &&& decorated.is_separated <==> is_outlier || event_id is None || is_soft_failed
            &&& decorated.is_separated ==> decorated.shortstatehash is None
            &&& !decorated.is_separated ==> decorated.shortstatehash == shortstatehash
            &&& event_id matches Some(id) ==> fields(decorated.object).contains_key("event_id"@) && fields(
                decorated.object,
            )["event_id"@] == Json::Text(id@)
            &&& is_outlier ==> fields(decorated.object).contains_key("__outlier"@) && fields(
                decorated.object,
            )["__outlier"@] == Json::Bool(true)
            &&& (all_plain(members(pdu_json)) && name != "__outlier"@ && name != "event_id"@ && name
                != "__soft_failed"@ && name != "__shortstatehash"@) ==> fields(decorated.object).contains_key(name)
                == members(pdu_json).contains_key(name) && fields(decorated.object)[name] == members(pdu_json)[name]
        },
{
    if r is Ok {
        let copy = read_as_object(Json::Object(members(pdu_json)))->Some_0;
        lemma_what_the_export_adds(
            copy,
            optional_str(event_id),
            is_outlier,
            is_soft_failed,
            shortstatehash,
            name,
        );
    }
}

} // verus!
