//! Second chances for events that were rejected.

use crate::json::{canonical_flag, canonical_text, members, remove_member, Json};
use crate::power_sort::AuthEvent;
use crate::state_map::{StateEntry, StateKey};
use crate::text::same;
use crate::verify_pdu::{auth_key, file_auth_event, keyed};
use std::collections::VecDeque;
use vstd::prelude::*;

verus! {

/// An event that is kept outside of the timeline.
pub struct StoredPdu {
    pub event_id: String,
    pub pdu_json: ruma::CanonicalJsonObject,
}

/// Whether an event is of a room and marked as rejected.
pub open spec fn rejected_in(event: Map<Seq<char>, Json>, room_id: Seq<char>) -> bool {
    &&& Json::Object(event).member("room_id"@) == Some(Json::Text(room_id))
    &&& Json::Object(event).member("rejected"@) == Some(Json::Bool(true))
}

fn is_rejected_in(event: &ruma::CanonicalJsonObject, room_id: &str) -> (rejected: bool)
    ensures
        rejected == rejected_in(members(*event), room_id@),
{
    let in_room = match canonical_text(event, "room_id") {
        Some(text) => same(text, room_id),
        None => false,
    };
    if !in_room {
        return false;
    }
    match canonical_flag(event, "rejected") {
        Some(flag) => flag,
        None => false,
    }
}

/// The events of a list that are of a room and marked as rejected.
pub open spec fn rejected_outliers(outliers: Seq<StoredPdu>, room_id: Seq<char>) -> Seq<StoredPdu> {
    outliers.filter(|outlier: StoredPdu| rejected_in(members(outlier.pdu_json), room_id))
}

/// A scan over the rejected events of a room.
pub struct UnrejectScan {
    pending: VecDeque<StoredPdu>,
    promoted_any: bool,
}

/// What became of an event that was looked at again.
pub enum Verdict {
    /// The event could not be read, or is not authorised now either.
    StaysRejected,
    Authorised,
}

/// Begins a scan over the outliers that are in a room and marked as rejected.
pub fn unreject_rejected_events(outliers: Vec<StoredPdu>, room_id: &str) -> (scan: UnrejectScan)
    ensures
        scan.pending() == rejected_outliers(outliers@, room_id@),
        !scan.promoted(),
{
    let ghost all = outliers@;
    let ghost chosen = |outlier: StoredPdu| rejected_in(members(outlier.pdu_json), room_id@);
    let mut pending: VecDeque<StoredPdu> = VecDeque::new();
    proof {
        reveal(Seq::filter);
        assert(pending@ =~= all.take(0).filter(chosen));
    }
    for outlier in iter: outliers
        invariant
            iter.seq() == all,
            chosen == (|outlier: StoredPdu| rejected_in(members(outlier.pdu_json), room_id@)),
            pending@ == all.take(iter.index() as int).filter(chosen),
    {
        let ghost at = iter.index() as int;
        proof {
            reveal(Seq::filter);
            assert(outlier == all[at]);
            assert(all.take(at + 1).drop_last() =~= all.take(at));
            assert(all.take(at + 1).last() == outlier);
        }
        if is_rejected_in(&outlier.pdu_json, room_id) {
            pending.push_back(outlier);
        }
    }
    assert(all.take(all.len() as int) =~= all);
    UnrejectScan { pending, promoted_any: false }
}

impl UnrejectScan {
    /// The events that have not been looked at yet, in their order.
    pub closed spec fn pending(self) -> Seq<StoredPdu> {
        self.pending@
    }

    /// Whether an event has been found authorised.
    pub closed spec fn promoted(self) -> bool {
        self.promoted_any
    }

    /// The next event to look at, until there is none.
    pub fn next_rejected(&mut self) -> (next: Option<StoredPdu>)
        ensures
            final(self).promoted() == old(self).promoted(),
            match next {
                Some(outlier) => old(self).pending().len() > 0 && outlier == old(self).pending()[0]
                    && final(self).pending() == old(self).pending().drop_first(),
                None => old(self).pending().len() == 0 && final(self).pending() == old(self).pending(),
            },
    {
        self.pending.pop_front()
    }

    /// Takes the verdict on an event. One that is authorised now comes back
    /// without its mark, to be stored as an ordinary outlier and handled as an
    /// incoming event of the timeline.
    pub fn judge(&mut self, outlier: StoredPdu, verdict: Verdict) -> (promoted: Option<StoredPdu>)
        ensures
            final(self).pending() == old(self).pending(),
            final(self).promoted() == (old(self).promoted() || verdict is Authorised),
            promoted is Some <==> verdict is Authorised,
            promoted matches Some(next) ==> next.event_id@ == outlier.event_id@ && members(next.pdu_json) == members(
                outlier.pdu_json,
            ).remove("rejected"@),
    {
        match verdict {
            Verdict::StaysRejected => None,
            Verdict::Authorised => {
                let mut pdu_json = outlier.pdu_json;
                remove_member(&mut pdu_json, "rejected");
                self.promoted_any = true;
                Some(StoredPdu { event_id: outlier.event_id, pdu_json })
            },
        }
    }

    /// Whether to scan once more: another rejected event may depend on one that
    /// was found authorised.
    pub fn must_scan_again(&self) -> (again: bool)
        ensures
            again == self.promoted(),
    {
        self.promoted_any
    }
}

/// What auth events are about, in their order.
pub open spec fn filed<P>(events: Seq<AuthEvent<P>>) -> Seq<(StateKey, P)> {
    events.map_values(|event: AuthEvent<P>| (auth_key(event), event.pdu))
}

/// Files the auth events of a rejected event under what they are about. All
/// auth events have a state key.
pub fn auth_events_by_key<P>(events: Vec<AuthEvent<P>>) -> (entries: Vec<StateEntry<P>>)
    requires
        forall|i: int| 0 <= i < events@.len() ==> (#[trigger] events@[i]).state_key is Some,
    ensures
        keyed(entries@) == filed(events@),
{
    let ghost all = events@;
    let mut entries: Vec<StateEntry<P>> = Vec::new();
    assert(keyed(entries@) =~= filed(all.take(0)));
    for event in iter: events
        invariant
            iter.seq() == all,
            keyed(entries@) == filed(all.take(iter.index() as int)),
    {
        let ghost at = iter.index() as int;
        let ghost prior = entries@;
        assert(event == all[at]);
        let entry = file_auth_event(event);
        let ghost pair = (entry.key(), entry.value);
        entries.push(entry);
        proof {
            assert(keyed(entries@) =~= keyed(prior).push(pair));
            assert(filed(all.take(at + 1)) =~= filed(all.take(at)).push(pair));
        }
    }
    assert(all.take(all.len() as int) =~= all);
    entries
}

/// An event whose mark was taken off is not chosen again, in any room.
pub proof fn lemma_cleared_event_is_not_chosen_again(event: Map<Seq<char>, Json>, room_id: Seq<char>)
    ensures
        !rejected_in(event.remove("rejected"@), room_id),
{
}

/// The ids of the stored events that are of a room and marked as rejected.
pub open spec fn rejected_ids(stored: Map<Seq<char>, Map<Seq<char>, Json>>, room_id: Seq<char>) -> Set<Seq<char>> {
    stored.dom().filter(|id: Seq<char>| rejected_in(stored[id], room_id))
}

/// To store a rejected event without its mark leaves one rejected event fewer
/// in the room, so scans that promote an event cannot go on for ever.
pub proof fn lemma_promotion_shrinks_the_rejected(
    stored: Map<Seq<char>, Map<Seq<char>, Json>>,
    room_id: Seq<char>,
    id: Seq<char>,
)
    requires
        stored.dom().finite(),
        rejected_ids(stored, room_id).contains(id),
    ensures
        rejected_ids(stored.insert(id, stored[id].remove("rejected"@)), room_id) == rejected_ids(stored, room_id).remove(
            id,
        ),
        rejected_ids(stored.insert(id, stored[id].remove("rejected"@)), room_id).len() < rejected_ids(
            stored,
            room_id,
        ).len(),
{
    let next = stored.insert(id, stored[id].remove("rejected"@));
    lemma_cleared_event_is_not_chosen_again(stored[id], room_id);
    assert(rejected_ids(next, room_id) =~= rejected_ids(stored, room_id).remove(id));
    assert(rejected_ids(stored, room_id).finite());
}

/// To store a rejected event of a room without its mark leaves the rejected
/// events of every other room as they are.
pub proof fn lemma_promotion_leaves_other_rooms_alone(
    stored: Map<Seq<char>, Map<Seq<char>, Json>>,
    room_id: Seq<char>,
    other_room_id: Seq<char>,
    id: Seq<char>,
)
    requires
        rejected_ids(stored, room_id).contains(id),
        room_id != other_room_id,
    ensures
        rejected_ids(stored.insert(id, stored[id].remove("rejected"@)), other_room_id) == rejected_ids(
            stored,
            other_room_id,
        ),
{
    let next = stored.insert(id, stored[id].remove("rejected"@));
    lemma_cleared_event_is_not_chosen_again(stored[id], other_room_id);
    assert(rejected_ids(next, other_room_id) =~= rejected_ids(stored, other_room_id));
}

/// Which events are looked at again: those whose members say that they are of the
/// room and that they are rejected.
pub proof fn lemma_who_is_rejected_in(event: Map<Seq<char>, Json>, room_id: Seq<char>)
    ensures
        rejected_in(event, room_id) <==> {
            &&& event.contains_key("room_id"@)
            &&& event["room_id"@] == Json::Text(room_id)
            &&& event.contains_key("rejected"@)
            &&& event["rejected"@] == Json::Bool(true)
        },
{
}

/// What a scan looks at: those outliers that say of themselves that they are of
/// the room and rejected, all of them and no others. Nothing is promoted yet, so no
/// further scan is called for.
pub proof fn lemma_what_a_scan_looks_at(outliers: Vec<StoredPdu>, room_id: &str, scan: UnrejectScan, i: int)
    requires
        call_ensures(unreject_rejected_events, (outliers, room_id), scan),
    ensures
        !scan.promoted(),
        scan.pending().len() <= outliers@.len(),
        0 <= i < outliers@.len() ==> {
            let event = members(outliers@[i].pdu_json);
            scan.pending().contains(outliers@[i]) <==> {
                &&& event.contains_key("room_id"@)
                &&& event["room_id"@] == Json::Text(room_id@)
                &&& event.contains_key("rejected"@)
                &&& event["rejected"@] == Json::Bool(true)
            }
        },
        0 <= i < scan.pending().len() ==> outliers@.contains(scan.pending()[i]),
{
    let chosen = |outlier: StoredPdu| rejected_in(members(outlier.pdu_json), room_id@);
    let kept = outliers@.filter(chosen);
    outliers@.lemma_filter_len(chosen);
    if 0 <= i < outliers@.len() {
        if rejected_in(members(outliers@[i].pdu_json), room_id@) {
            assert(chosen(outliers@[i]));
            outliers@.lemma_filter_contains(chosen, i);
        }
        if kept.contains(outliers@[i]) {
            let k = choose|k: int| 0 <= k < kept.len() && kept[k] == outliers@[i];
            outliers@.lemma_filter_pred(chosen, k);
        }
    }
    if 0 <= i < kept.len() {
        assert(kept.contains(kept[i]));
        outliers@.lemma_filter_contains_rev(chosen, kept[i]);
    }
}

/// The rejected events of two lists are those of the one and then those of the
/// other, in their order.
pub proof fn lemma_rejected_in_their_order(outliers: Seq<StoredPdu>, more: Seq<StoredPdu>, room_id: Seq<char>)
    ensures
        rejected_outliers(outliers + more, room_id) == rejected_outliers(outliers, room_id) + rejected_outliers(
            more,
            room_id,
        ),
    decreases more.len(),
{
    reveal(Seq::filter);
    let chosen = |outlier: StoredPdu| rejected_in(members(outlier.pdu_json), room_id);
    if more.len() == 0 {
        assert(outliers + more =~= outliers);
        assert(rejected_outliers(outliers, room_id) + rejected_outliers(more, room_id) =~= rejected_outliers(
            outliers,
            room_id,
        ));
    } else {
        lemma_rejected_in_their_order(outliers, more.drop_last(), room_id);
        assert((outliers + more).drop_last() =~= outliers + more.drop_last());
        assert(rejected_outliers(outliers + more, room_id) =~= rejected_outliers(outliers, room_id)
            + rejected_outliers(more, room_id));
    }
}

/// A scan hands out the event that has waited longest, and each once.
pub proof fn lemma_the_longest_waiting_is_next(scan: &mut UnrejectScan, next: Option<StoredPdu>)
    requires
        call_ensures(UnrejectScan::next_rejected, (scan,), next),
    ensures
        next is None <==> old(scan).pending().len() == 0,
        next matches Some(outlier) ==> old(scan).pending() == seq![outlier] + final(scan).pending(),
        final(scan).promoted() == old(scan).promoted(),
{
    if next is Some {
        assert(old(scan).pending() =~= seq![next->Some_0] + final(scan).pending());
    }
}

/// What a verdict does: an event that stays rejected changes nothing. One that is
/// authorised comes back under its id with every member but its mark, and calls
/// for a further scan; nothing takes that back.
pub proof fn lemma_what_a_verdict_does(
    scan: &mut UnrejectScan,
    outlier: StoredPdu,
    verdict: Verdict,
    promoted: Option<StoredPdu>,
    again: bool,
    name: Seq<char>,
)
    requires
        call_ensures(UnrejectScan::judge, (scan, outlier, verdict), promoted),
        call_ensures(UnrejectScan::must_scan_again, (final(scan),), again),
    ensures
        verdict is Authorised ==> again,
        old(scan).promoted() ==> again,
        verdict is StaysRejected ==> promoted is None && again == old(scan).promoted(),
        final(scan).pending() == old(scan).pending(),
        verdict is Authorised ==> promoted is Some,
        promoted matches Some(next) ==> {
            &&& next.event_id@ == outlier.event_id@
            &&& !members(next.pdu_json).contains_key("rejected"@)
            &&& name != "rejected"@ ==> members(next.pdu_json).contains_key(name) == members(
                outlier.pdu_json,
            ).contains_key(name)
            &&& members(next.pdu_json).contains_key(name) ==> members(next.pdu_json)[name] == members(
                outlier.pdu_json,
            )[name]
        },
{
}

/// The auth events of a rejected event are filed each in its place, under its type
/// and its state key.
pub proof fn lemma_auth_events_keep_their_places<P>(
    events: Vec<AuthEvent<P>>,
    entries: Vec<StateEntry<P>>,
    i: int,
)
    requires
        call_ensures(auth_events_by_key::<P>, (events,), entries),
        forall|i: int| 0 <= i < events@.len() ==> (#[trigger] events@[i]).state_key is Some,
        0 <= i < events@.len(),
    ensures
        entries@.len() == events@.len(),
        entries@[i].event_type@ == events@[i].kind@,
        entries@[i].state_key@ == events@[i].state_key->Some_0@,
        entries@[i].value == events@[i].pdu,
{
    assert(keyed(entries@).len() == entries@.len());
    assert(filed(events@).len() == events@.len());
    assert(keyed(entries@)[i] == (entries@[i].key(), entries@[i].value));
    assert(filed(events@)[i] == (auth_key(events@[i]), events@[i].pdu));
}

} // verus!
