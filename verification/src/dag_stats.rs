//! What an export of the event graph of a room counts.

use crate::export::{
    annotated, decorate_pdu_for_export, export_line, lemma_what_the_export_adds, line_of, separated, ExportError,
};
use crate::ids::{texts, IdSet};
use crate::json::{all_plain, as_json_text, members, read_as_object, Json};
use crate::text::{decimal_value, optional_text};
use std::collections::HashSet;
use vstd::prelude::*;

verus! {

broadcast use vstd::std_specs::hash::group_hash_axioms;

/// An event that could be read, as far as the export counts it.
pub struct ExportPdu {
    pub event_id: String,
    pub kind: String,
    pub state_key: Option<String>,
    pub prev_events: Vec<String>,
    pub depth: u64,
}

/// The counts of an export.
pub struct DagExportStats {
    pub count: u64,
    pub total_prev_events: u64,
    pub state_events: u64,
    pub missing_hash: u64,
    pub unique_hashes: HashSet<u64>,
    pub last_ssh: Option<u64>,
    pub last_is_state_event: bool,
    pub last_event_id: Option<String>,
    pub last_event_type: Option<String>,
    pub last_state_key: Option<String>,
    pub max_depth: u64,
    pub min_depth: u64,
    pub all_event_ids: IdSet,
    pub referenced_as_prev: IdSet,
}

/// What a [`DagExportStats`] says.
pub struct DagExportView {
    pub count: u64,
    pub total_prev_events: u64,
    pub state_events: u64,
    pub missing_hash: u64,
    pub unique_hashes: Set<u64>,
    pub last_ssh: Option<u64>,
    pub last_is_state_event: bool,
    pub last_event_id: Option<Seq<char>>,
    pub last_event_type: Option<Seq<char>>,
    pub last_state_key: Option<Seq<char>>,
    pub max_depth: u64,
    pub min_depth: u64,
    pub all_event_ids: Set<Seq<char>>,
    pub referenced_as_prev: Set<Seq<char>>,
}

impl View for DagExportStats {
    type V = DagExportView;

    open spec fn view(&self) -> DagExportView {
        DagExportView {
            count: self.count,
            total_prev_events: self.total_prev_events,
            state_events: self.state_events,
            missing_hash: self.missing_hash,
            unique_hashes: self.unique_hashes@,
            last_ssh: self.last_ssh,
            last_is_state_event: self.last_is_state_event,
            last_event_id: optional_text(self.last_event_id),
            last_event_type: optional_text(self.last_event_type),
            last_state_key: optional_text(self.last_state_key),
            max_depth: self.max_depth,
            min_depth: self.min_depth,
            all_event_ids: self.all_event_ids@,
            referenced_as_prev: self.referenced_as_prev@,
        }
    }
}

/// One more, as far as the number reaches.
pub open spec fn plus_one(n: u64) -> u64 {
    saturating_sum(n, 1)
}

/// The sum of two numbers, as far as the number reaches.
pub open spec fn saturating_sum(a: u64, b: nat) -> u64 {
    if a + b > u64::MAX {
        u64::MAX
    } else {
        (a + b) as u64
    }
}

/// The counts before the first event.
pub open spec fn no_events() -> DagExportView {
    DagExportView {
        count: 0,
        total_prev_events: 0,
        state_events: 0,
        missing_hash: 0,
        unique_hashes: Set::empty(),
        last_ssh: None,
        last_is_state_event: false,
        last_event_id: None,
        last_event_type: None,
        last_state_key: None,
        max_depth: 0,
        min_depth: u64::MAX,
        all_event_ids: Set::empty(),
        referenced_as_prev: Set::empty(),
    }
}

/// An event on its way into the export.
pub struct ExportItem {
    /// The members of the event.
    pub json: Map<Seq<char>, Json>,
    /// The event, where it can be read.
    pub pdu: Option<ExportPdu>,
    pub is_outlier: bool,
    pub is_soft_failed: bool,
    /// The state before the event, where it is known.
    pub shortstatehash: Option<u64>,
}

impl ExportItem {
    /// Whether the event is kept apart from the timeline.
    pub open spec fn is_separated(self) -> bool {
        separated(self.pdu is Some, self.is_outlier, self.is_soft_failed)
    }

    /// What the export says of the event, where it can be turned into JSON.
    pub open spec fn fields(self) -> Option<Map<Seq<char>, Json>> {
        match read_as_object(Json::Object(self.json)) {
            Some(copy) => Some(
                annotated(
                    copy,
                    match self.pdu {
                        Some(pdu) => Some(pdu.event_id@),
                        None => None,
                    },
                    self.is_outlier,
                    self.is_soft_failed,
                    self.shortstatehash,
                ),
            ),
            None => None,
        }
    }

    /// The line of the event, where it can be turned into JSON.
    pub open spec fn line(self) -> Option<Seq<char>> {
        match self.fields() {
            Some(fields) => Some(line_of(fields)),
            None => None,
        }
    }
}

/// An event that was handed to the export.
pub open spec fn item_of(
    pdu_json: ruma::CanonicalJsonObject,
    pdu: Option<&ExportPdu>,
    is_outlier: bool,
    is_soft_failed: bool,
    shortstatehash: Option<u64>,
) -> ExportItem {
    ExportItem {
        json: members(pdu_json),
        pdu: match pdu {
            Some(pdu) => Some(*pdu),
            None => None,
        },
        is_outlier,
        is_soft_failed,
        shortstatehash,
    }
}

impl DagExportView {
    /// The counts once an event has been decorated: one of the timeline is
    /// counted, unless it cannot be turned into JSON.
    pub open spec fn with_item(self, item: ExportItem) -> DagExportView {
        if item.line() is None || item.is_separated() {
            self
        } else {
            self.with_event(item.pdu->Some_0, item.shortstatehash)
        }
    }

    /// The counts once the state before an event is known or found missing.
    pub open spec fn with_hash(self, shortstatehash: Option<u64>) -> DagExportView {
        match shortstatehash {
            Some(hash) => DagExportView {
                unique_hashes: self.unique_hashes.insert(hash),
                last_ssh: Some(hash),
                ..self
            },
            None => DagExportView { missing_hash: plus_one(self.missing_hash), ..self },
        }
    }

    /// The counts once an event is known to be a state event or not. The type
    /// and state key of the last state event stay when another event follows.
    pub open spec fn with_state(self, kind: Seq<char>, state_key: Option<Seq<char>>) -> DagExportView {
        if state_key is Some {
            DagExportView {
                state_events: plus_one(self.state_events),
                last_is_state_event: true,
                last_event_type: Some(kind),
                last_state_key: state_key,
                ..self
            }
        } else {
            DagExportView { last_is_state_event: false, ..self }
        }
    }

    /// The counts once the place of an event in the graph is known.
    pub open spec fn with_place(self, event_id: Seq<char>, prev_events: Seq<Seq<char>>, depth: u64) -> DagExportView {
        DagExportView {
            last_event_id: Some(event_id),
            all_event_ids: self.all_event_ids.insert(event_id),
            referenced_as_prev: self.referenced_as_prev.union(prev_events.to_set()),
            max_depth: if depth > self.max_depth {
                depth
            } else {
                self.max_depth
            },
            min_depth: if depth < self.min_depth {
                depth
            } else {
                self.min_depth
            },
            ..self
        }
    }

    /// The counts after an event of the timeline.
    pub open spec fn with_event(self, pdu: ExportPdu, shortstatehash: Option<u64>) -> DagExportView {
        self.with_hash(shortstatehash).with_state(pdu.kind@, optional_text(pdu.state_key)).with_place(
            pdu.event_id@,
            texts(pdu.prev_events@),
            pdu.depth,
        )
    }

    /// The counts after the line of an event of the timeline has been written.
    pub open spec fn with_line(self, prev_events: nat) -> DagExportView {
        DagExportView {
            count: plus_one(self.count),
            total_prev_events: saturating_sum(self.total_prev_events, prev_events),
            ..self
        }
    }

    /// What holds of the counts of every export.
    pub open spec fn consistent(self) -> bool {
        &&& self.last_is_state_event ==> self.last_event_id is Some && self.last_event_type is Some
            && self.last_state_key is Some
        &&& self.last_ssh matches Some(hash) ==> self.unique_hashes.contains(hash)
        &&& self.last_event_id matches Some(id) ==> self.all_event_ids.contains(id)
        &&& if self.last_event_id is None {
            self.min_depth == u64::MAX && self.max_depth == 0 && self.all_event_ids =~= Set::empty()
        } else {
            self.min_depth <= self.max_depth
        }
    }
}

impl Default for DagExportStats {
    fn default() -> (stats: Self)
        ensures
            stats.wf(),
            stats@ == no_events(),
    {
        let stats = DagExportStats {
            count: 0,
            total_prev_events: 0,
            state_events: 0,
            missing_hash: 0,
            unique_hashes: HashSet::new(),
            last_ssh: None,
            last_is_state_event: false,
            last_event_id: None,
            last_event_type: None,
            last_state_key: None,
            max_depth: 0,
            min_depth: u64::MAX,
            all_event_ids: IdSet::new(),
            referenced_as_prev: IdSet::new(),
        };
        assert(stats@.unique_hashes =~= no_events().unique_hashes);
        stats
    }
}

/// A line of the export.
pub struct ExportLine {
    pub text: String,
    /// Whether the line goes to the outliers.
    pub is_separated: bool,
}

impl DagExportStats {
    pub open spec fn wf(self) -> bool {
        self.all_event_ids.wf() && self.referenced_as_prev.wf() && self@.consistent()
    }

    /// Counts an event of the timeline.
    fn record(&mut self, pdu: &ExportPdu, shortstatehash: Option<u64>)
        requires
            old(self).wf(),
        ensures
            final(self).wf(),
            final(self)@ == old(self)@.with_event(*pdu, shortstatehash),
    {
        match shortstatehash {
            Some(hash) => {
                self.unique_hashes.insert(hash);
                self.last_ssh = Some(hash);
            },
            None => {
                self.missing_hash = self.missing_hash.saturating_add(1);
            },
        }
        if pdu.state_key.is_some() {
            self.state_events = self.state_events.saturating_add(1);
            self.last_is_state_event = true;
            self.last_event_type = Some(pdu.kind.clone());
            self.last_state_key = pdu.state_key.clone();
        } else {
            self.last_is_state_event = false;
        }
        self.last_event_id = Some(pdu.event_id.clone());
        self.all_event_ids.insert(pdu.event_id.as_str());
        let ghost referenced = self.referenced_as_prev@;
        let ghost prev = texts(pdu.prev_events@);
        let mut i: usize = 0;
        let ghost mid = *self;
        assert(referenced.union(prev.take(0).to_set()) =~= referenced);
        while i < pdu.prev_events.len()
            invariant
                i <= pdu.prev_events@.len(),
                prev == texts(pdu.prev_events@),
                self.referenced_as_prev.wf(),
                self.referenced_as_prev@ == referenced.union(prev.take(i as int).to_set()),
                *self == (DagExportStats { referenced_as_prev: self.referenced_as_prev, ..mid }),
            decreases pdu.prev_events.len() - i,
        {
            self.referenced_as_prev.insert(pdu.prev_events[i].as_str());
            proof {
                let a = prev.take(i as int);
                let b = prev.take(i + 1);
                assert(b =~= a.push(prev[i as int]));
                assert forall|x: Seq<char>| b.to_set().contains(x) == a.to_set().insert(prev[i as int]).contains(x) by {
                    if a.contains(x) {
                        let k = choose|k: int| 0 <= k < a.len() && a[k] == x;
                        assert(b[k] == x);
                    }
                    assert(b[i as int] == prev[i as int]);
                }
                assert(referenced.union(b.to_set()) =~= referenced.union(a.to_set()).insert(prev[i as int]));
            }
            i += 1;
        }
        assert(prev.take(i as int) =~= prev);
        if pdu.depth > self.max_depth {
            self.max_depth = pdu.depth;
        }
        if pdu.depth < self.min_depth {
            self.min_depth = pdu.depth;
        }
        proof {
            let want = old(self)@.with_event(*pdu, shortstatehash);
            assert(self@.unique_hashes =~= want.unique_hashes);
            assert(self@.all_event_ids =~= want.all_event_ids);
            assert(self@.referenced_as_prev =~= want.referenced_as_prev);
            assert(self@ == want);
        }
    }

    /// Decorates an event for the export, counts it where it belongs to the
    /// timeline, and writes its line.
    ///
    /// `pdu` is the event where it can be read. The line still has to go to its
    /// file, after which [`DagExportStats::line_written`] counts it.
    pub fn process_pdu(
        &mut self,
        pdu_json: &ruma::CanonicalJsonObject,
        pdu: Option<&ExportPdu>,
        is_outlier: bool,
        is_soft_failed: bool,
        shortstatehash: Option<u64>,
    ) -> (r: Result<ExportLine, ExportError>)
        requires
            old(self).wf(),
        ensures
            final(self).wf(),
            ({
                let item = item_of(*pdu_json, pdu, is_outlier, is_soft_failed, shortstatehash);
                &&& match r {
                    Err(_) => item.line() is None,
                    Ok(line) => item.line() == Some(line.text@) && line.is_separated == item.is_separated(),
                }
                &&& final(self)@ == old(self)@.with_item(item)
            }),
            all_plain(members(*pdu_json)) ==> r is Ok && read_as_object(Json::Object(members(*pdu_json))) == Some(
                members(*pdu_json),
            ),
    {
        let event_id = match pdu {
            Some(pdu) => Some(pdu.event_id.as_str()),
            None => None,
        };
        let decorated = match decorate_pdu_for_export(pdu_json, event_id, is_outlier, is_soft_failed, shortstatehash) {
            Ok(decorated) => decorated,
            Err(e) => {
                return Err(e);
            },
        };
        if !decorated.is_separated {
            match pdu {
                Some(pdu) => self.record(pdu, decorated.shortstatehash),
                None => {},
            }
        }
        match export_line(&decorated.object) {
            Ok(text) => Ok(ExportLine { text, is_separated: decorated.is_separated }),
            Err(e) => Err(e),
        }
    }

    /// Counts a line that has been written to its file.
    pub fn line_written(&mut self, is_separated: bool, pdu: Option<&ExportPdu>)
        requires
            old(self).wf(),
        ensures
            final(self).wf(),
            final(self)@ == if is_separated {
                old(self)@
            } else {
                old(self)@.with_line(
                    match pdu {
                        Some(pdu) => pdu.prev_events@.len(),
                        None => 0,
                    },
                )
            },
    {
        if !is_separated {
            self.count = self.count.saturating_add(1);
            match pdu {
                Some(pdu) => {
                    self.total_prev_events = self.total_prev_events.saturating_add(pdu.prev_events.len() as u64);
                },
                None => {},
            }
        }
    }
}

/// An event of the timeline and the state before it.
pub struct ExportedEvent {
    pub pdu: ExportPdu,
    pub shortstatehash: Option<u64>,
}

/// The counts after a run of events of the timeline, each with its line.
pub open spec fn exported(events: Seq<ExportedEvent>) -> DagExportView
    decreases events.len(),
{
    if events.len() == 0 {
        no_events()
    } else {
        let event = events.last();
        exported(events.drop_last()).with_event(event.pdu, event.shortstatehash).with_line(
            event.pdu.prev_events@.len(),
        )
    }
}

/// The number of previous events of a run of events.
pub open spec fn prev_events_of(events: Seq<ExportedEvent>) -> nat
    decreases events.len(),
{
    if events.len() == 0 {
        0
    } else {
        prev_events_of(events.drop_last()) + events.last().pdu.prev_events@.len()
    }
}

/// The number of events of a run that are state events.
pub open spec fn state_events_of(events: Seq<ExportedEvent>) -> nat
    decreases events.len(),
{
    if events.len() == 0 {
        0
    } else {
        state_events_of(events.drop_last()) + if events.last().pdu.state_key is Some {
            1nat
        } else {
            0nat
        }
    }
}

/// The number of events of a run of which the state before them is not known.
pub open spec fn unknown_states_of(events: Seq<ExportedEvent>) -> nat
    decreases events.len(),
{
    if events.len() == 0 {
        0
    } else {
        unknown_states_of(events.drop_last()) + if events.last().shortstatehash is None {
            1nat
        } else {
            0nat
        }
    }
}

/// What the counts mean, as far as the numbers reach: how many events there
/// are, how many previous events they have, how many are state events and of
/// how many the state before them is not known.
pub proof fn lemma_export_counts(events: Seq<ExportedEvent>)
    ensures
        exported(events).count == saturating_sum(0, events.len()),
        exported(events).total_prev_events == saturating_sum(0, prev_events_of(events)),
        exported(events).state_events == saturating_sum(0, state_events_of(events)),
        exported(events).missing_hash == saturating_sum(0, unknown_states_of(events)),
        exported(events).consistent(),
    decreases events.len(),
{
    if events.len() > 0 {
        lemma_export_counts(events.drop_last());
    }
}

/// What the sets and bounds of an export mean: which events it holds, which
/// ones they name as previous events, which states come before them, and
/// between which depths they lie.
pub proof fn lemma_export_holds(events: Seq<ExportedEvent>, i: int)
    requires
        0 <= i < events.len(),
    ensures
        exported(events).all_event_ids.contains(events[i].pdu.event_id@),
        texts(events[i].pdu.prev_events@).to_set().subset_of(exported(events).referenced_as_prev),
        events[i].shortstatehash matches Some(hash) ==> exported(events).unique_hashes.contains(hash),
        exported(events).min_depth <= events[i].pdu.depth <= exported(events).max_depth,
    decreases events.len(),
{
    if i < events.len() - 1 {
        lemma_export_holds(events.drop_last(), i);
    }
}

/// Nothing else is in the sets of an export, and its bounds are reached.
pub proof fn lemma_export_holds_nothing_else(events: Seq<ExportedEvent>)
    ensures
        forall|id: Seq<char>| #[trigger]
            exported(events).all_event_ids.contains(id) ==> exists|i: int|
                0 <= i < events.len() && (#[trigger] events[i]).pdu.event_id@ == id,
        forall|id: Seq<char>| #[trigger]
            exported(events).referenced_as_prev.contains(id) ==> exists|i: int|
                0 <= i < events.len() && texts((#[trigger] events[i]).pdu.prev_events@).contains(id),
        forall|hash: u64| #[trigger]
            exported(events).unique_hashes.contains(hash) ==> exists|i: int|
                0 <= i < events.len() && (#[trigger] events[i]).shortstatehash == Some(hash),
        events.len() > 0 ==> exists|i: int|
            0 <= i < events.len() && (#[trigger] events[i]).pdu.depth == exported(events).min_depth,
        events.len() > 0 ==> exported(events).max_depth == 0 || exists|i: int|
            0 <= i < events.len() && (#[trigger] events[i]).pdu.depth == exported(events).max_depth,
    decreases events.len(),
{
    if events.len() > 0 {
        let front = events.drop_last();
        let last = events.len() - 1;
        let whole = exported(events);
        let part = exported(front);
        lemma_export_holds_nothing_else(front);
        assert(events[last] == events.last());
        assert forall|id: Seq<char>| #[trigger] whole.all_event_ids.contains(id) implies exists|i: int|
            0 <= i < events.len() && (#[trigger] events[i]).pdu.event_id@ == id by {
            if part.all_event_ids.contains(id) {
                let i = choose|i: int| 0 <= i < front.len() && (#[trigger] front[i]).pdu.event_id@ == id;
                assert(events[i] == front[i]);
            }
        }
        assert forall|id: Seq<char>| #[trigger] whole.referenced_as_prev.contains(id) implies exists|i: int|
            0 <= i < events.len() && texts((#[trigger] events[i]).pdu.prev_events@).contains(id) by {
            if part.referenced_as_prev.contains(id) {
                let i = choose|i: int| 0 <= i < front.len() && texts((#[trigger] front[i]).pdu.prev_events@).contains(id);
                assert(events[i] == front[i]);
            }
        }
        assert forall|hash: u64| #[trigger] whole.unique_hashes.contains(hash) implies exists|i: int|
            0 <= i < events.len() && (#[trigger] events[i]).shortstatehash == Some(hash) by {
            if part.unique_hashes.contains(hash) {
                let i = choose|i: int| 0 <= i < front.len() && (#[trigger] front[i]).shortstatehash == Some(hash);
                assert(events[i] == front[i]);
            }
        }
        if front.len() > 0 {
            let lo = choose|i: int| 0 <= i < front.len() && (#[trigger] front[i]).pdu.depth == part.min_depth;
            assert(events[lo] == front[lo]);
            if part.max_depth != 0 {
                let hi = choose|i: int| 0 <= i < front.len() && (#[trigger] front[i]).pdu.depth == part.max_depth;
                assert(events[hi] == front[hi]);
            }
        } else {
            assert(part == no_events());
        }
    }
}

/// Numbers are added up as long as the sum fits, and stay at the greatest number
/// from there on.
pub proof fn lemma_sums_stop_at_the_end(a: u64, b: nat)
    ensures
        a + b <= 0xffff_ffff_ffff_ffff ==> saturating_sum(a, b) == a + b,
        a + b > 0xffff_ffff_ffff_ffff ==> saturating_sum(a, b) == 0xffff_ffff_ffff_ffff,
        plus_one(a) >= a,
        a < 0xffff_ffff_ffff_ffff ==> plus_one(a) == a + 1,
{
}

/// Before the first event nothing is counted and nothing is known.
pub proof fn lemma_nothing_is_counted_at_first(stats: DagExportStats)
    requires
        call_ensures(DagExportStats::default, (), stats),
    ensures
        stats.count == 0 && stats.total_prev_events == 0 && stats.state_events == 0 && stats.missing_hash == 0,
        stats.last_ssh is None && !stats.last_is_state_event,
        stats.last_event_id is None && stats.last_event_type is None && stats.last_state_key is None,
        forall|hash: u64| !(#[trigger] stats.unique_hashes@.contains(hash)),
        forall|id: Seq<char>| !(#[trigger] stats.all_event_ids@.contains(id)),
        forall|id: Seq<char>| !(#[trigger] stats.referenced_as_prev@.contains(id)),
        stats.max_depth == 0 && stats.min_depth == 0xffff_ffff_ffff_ffff,
        stats@ == exported(seq![]),
{
    assert(stats@.min_depth == u64::MAX && stats@.max_depth == 0);
    assert(stats@.last_ssh is None);
    assert(stats@.count == 0 && stats@.total_prev_events == 0 && stats@.state_events == 0 && stats@.missing_hash == 0);
    assert(!stats@.last_is_state_event);
    assert(stats@.last_event_id is None && stats@.last_event_type is None && stats@.last_state_key is None);
    assert(stats@.unique_hashes == Set::<u64>::empty());
    assert(stats@.all_event_ids == Set::<Seq<char>>::empty());
    assert(stats@.referenced_as_prev == Set::<Seq<char>>::empty());
}

/// What an export says of its last event: the id is that of the last event, and
/// it is called a state event exactly where the last event has a state key, whose
/// type and state key are then those of the last event.
pub proof fn lemma_the_last_event_is_the_last(events: Seq<ExportedEvent>)
    requires
        events.len() > 0,
    ensures
        exported(events).last_event_id == Some(events[events.len() - 1].pdu.event_id@),
        exported(events).last_is_state_event <==> events[events.len() - 1].pdu.state_key is Some,
        events[events.len() - 1].pdu.state_key is Some ==> exported(events).last_event_type == Some(
            events[events.len() - 1].pdu.kind@,
        ),
        events[events.len() - 1].pdu.state_key matches Some(key) ==> exported(events).last_state_key == Some(key@),
{
}

/// The type and state key that an export keeps are those of the last event that
/// has a state key, whatever events follow it, and there are none where no event
/// has one.
pub proof fn lemma_the_last_state_event_is_kept(events: Seq<ExportedEvent>, place: int)
    requires
        -1 <= place < events.len(),
        place >= 0 ==> events[place].pdu.state_key is Some,
        forall|i: int| place < i < events.len() ==> (#[trigger] events[i]).pdu.state_key is None,
    ensures
        place >= 0 ==> exported(events).last_event_type == Some(events[place].pdu.kind@),
        place >= 0 ==> exported(events).last_state_key == Some(events[place].pdu.state_key->Some_0@),
        place == -1 ==> exported(events).last_event_type is None && exported(events).last_state_key is None,
        place == -1 ==> exported(events).state_events == 0,
    decreases events.len(),
{
    if events.len() > 0 && place < events.len() - 1 {
        let front = events.drop_last();
        assert(events[events.len() - 1].pdu.state_key is None);
        assert forall|i: int| place < i < front.len() implies (#[trigger] front[i]).pdu.state_key is None by {
            assert(events[i].pdu.state_key is None);
        }
        lemma_the_last_state_event_is_kept(front, place);
    }
}

/// The state that an export keeps as the last one is that before the last event
/// of which it is known, whatever events follow it.
pub proof fn lemma_the_last_known_state_is_kept(events: Seq<ExportedEvent>, place: int)
    requires
        -1 <= place < events.len(),
        place >= 0 ==> events[place].shortstatehash is Some,
        forall|i: int| place < i < events.len() ==> (#[trigger] events[i]).shortstatehash is None,
    ensures
        place >= 0 ==> exported(events).last_ssh == events[place].shortstatehash,
        place == -1 ==> exported(events).last_ssh is None,
    decreases events.len(),
{
    if events.len() > 0 && place < events.len() - 1 {
        let front = events.drop_last();
        assert(events[events.len() - 1].shortstatehash is None);
        assert forall|i: int| place < i < front.len() implies (#[trigger] front[i]).shortstatehash is None by {
            assert(events[i].shortstatehash is None);
        }
        lemma_the_last_known_state_is_kept(front, place);
    }
}

/// How one event more changes the numbers: one event, its previous events, one
/// state event where it has a state key, and one unknown state where the state
/// before it is not known, all as long as the numbers fit.
pub proof fn lemma_one_event_more(events: Seq<ExportedEvent>, event: ExportedEvent)
    ensures
        ({
            let before = exported(events);
            let after = exported(events.push(event));
            &&& before.count < u64::MAX ==> after.count == before.count + 1
            &&& before.total_prev_events + event.pdu.prev_events@.len() <= u64::MAX ==> after.total_prev_events
                == before.total_prev_events + event.pdu.prev_events@.len()
            &&& event.pdu.state_key is None ==> after.state_events == before.state_events
            &&& event.pdu.state_key is Some && before.state_events < u64::MAX ==> after.state_events
                == before.state_events + 1
            &&& event.shortstatehash is Some ==> after.missing_hash == before.missing_hash
            &&& event.shortstatehash is None && before.missing_hash < u64::MAX ==> after.missing_hash
                == before.missing_hash + 1
            &&& after.min_depth <= before.min_depth && after.max_depth >= before.max_depth
        }),
{
    assert(events.push(event).drop_last() =~= events);
}

/// Which events are counted: an event that cannot be read, an outlier and one that
/// failed softly leave the counts as they are. Any other event with a line becomes
/// the last event.
pub proof fn lemma_which_events_are_counted(stats: DagExportView, item: ExportItem)
    ensures
        item.pdu is None || item.is_outlier || item.is_soft_failed ==> stats.with_item(item) == stats,
        item.pdu is None || item.is_outlier || item.is_soft_failed <==> item.is_separated(),
        item.line() is None ==> stats.with_item(item) == stats,
        item.line() is Some && item.pdu is Some && !item.is_outlier && !item.is_soft_failed ==> {
            let after = stats.with_item(item);
            let pdu = item.pdu->Some_0;
            &&& after.last_event_id == Some(pdu.event_id@)
            &&& after.all_event_ids.contains(pdu.event_id@)
            &&& after.last_is_state_event == pdu.state_key is Some
            &&& item.shortstatehash is Some ==> after.last_ssh == item.shortstatehash
            &&& after.min_depth <= pdu.depth <= after.max_depth
            &&& after.count == stats.count
        },
{
}

/// What is handed to the export is what the export sees.
pub proof fn lemma_the_item_is_what_was_handed_over(
    pdu_json: ruma::CanonicalJsonObject,
    pdu: Option<&ExportPdu>,
    is_outlier: bool,
    is_soft_failed: bool,
    shortstatehash: Option<u64>,
)
    ensures
        ({
            let item = item_of(pdu_json, pdu, is_outlier, is_soft_failed, shortstatehash);
            &&& item.json == members(pdu_json)
            &&& item.is_outlier == is_outlier
            &&& item.is_soft_failed == is_soft_failed
            &&& item.shortstatehash == shortstatehash
            &&& pdu is None <==> item.pdu is None
            &&& pdu matches Some(pdu) ==> item.pdu == Some(*pdu)
        }),
{
}

/// What the export of an event does: the line is kept apart exactly where the event
/// cannot be read, is an outlier or failed softly, and then nothing is counted;
/// otherwise the event becomes the last one. An event of plain JSON is never an
/// error.
pub proof fn lemma_what_exporting_an_event_does(
    stats: &mut DagExportStats,
    pdu_json: ruma::CanonicalJsonObject,
    pdu: Option<&ExportPdu>,
    is_outlier: bool,
    is_soft_failed: bool,
    shortstatehash: Option<u64>,
    r: Result<ExportLine, ExportError>,
)
    requires
        call_ensures(
            DagExportStats::process_pdu,
            (stats, &pdu_json, pdu, is_outlier, is_soft_failed, shortstatehash),
            r,
        ),
    ensures
        ({
            let apart = pdu is None || is_outlier || is_soft_failed;
            &&& all_plain(members(pdu_json)) ==> r is Ok
            &&& r is Err || apart ==> final(stats)@ == old(stats)@
            &&& r matches Ok(line) ==> line.is_separated == apart && line.text@.len() > 0 && line.text@.last() == '\n'
            &&& r matches Ok(line) ==> Some(line.text@) == item_of(
                pdu_json,
                pdu,
                is_outlier,
                is_soft_failed,
                shortstatehash,
            ).line()
            &&& r is Ok && !apart ==> {
                let event = pdu->Some_0;
                let after = final(stats)@;
                let before = old(stats)@;
                &&& after.last_event_id == Some(event.event_id@)
                &&& after.last_is_state_event <==> event.state_key is Some
                &&& event.state_key matches Some(key) ==> after.last_state_key == Some(key@) && after.last_event_type
                    == Some(event.kind@)
                &&& event.state_key is None ==> after.last_state_key == before.last_state_key && after.last_event_type
                    == before.last_event_type && after.state_events == before.state_events
                &&& shortstatehash is Some ==> after.last_ssh == shortstatehash && after.missing_hash
                    == before.missing_hash
                &&& shortstatehash is None ==> after.last_ssh == before.last_ssh && after.unique_hashes
                    == before.unique_hashes
                &&& shortstatehash matches Some(known) ==> forall|hash: u64| #[trigger]
                    after.unique_hashes.contains(hash) <==> before.unique_hashes.contains(hash) || hash == known
                &&& shortstatehash is None && before.missing_hash < u64::MAX ==> after.missing_hash
                    == before.missing_hash + 1
                &&& event.state_key is Some && before.state_events < u64::MAX ==> after.state_events
                    == before.state_events + 1
                &&& forall|id: Seq<char>| #[trigger]
                    after.all_event_ids.contains(id) <==> before.all_event_ids.contains(id) || id == event.event_id@
                &&& forall|id: Seq<char>| #[trigger]
                    after.referenced_as_prev.contains(id) <==> before.referenced_as_prev.contains(id) || texts(
                        event.prev_events@,
                    ).contains(id)
                &&& after.max_depth >= event.depth && after.max_depth >= before.max_depth && (after.max_depth
                    == event.depth || after.max_depth == before.max_depth)
                &&& after.min_depth <= event.depth && after.min_depth <= before.min_depth && (after.min_depth
                    == event.depth || after.min_depth == before.min_depth)
                &&& after.count == before.count && after.total_prev_events == before.total_prev_events
            }
        }),
{
    reveal_strlit("\n");
    let item = item_of(pdu_json, pdu, is_outlier, is_soft_failed, shortstatehash);
    lemma_which_events_are_counted(old(stats)@, item);
}

/// What counting a line does: one that is kept apart is not counted; any other
/// counts as one event with its previous events, as long as the numbers fit, and
/// changes nothing else.
pub proof fn lemma_what_counting_a_line_does(stats: &mut DagExportStats, is_separated: bool, pdu: Option<&ExportPdu>)
    requires
        call_ensures(DagExportStats::line_written, (stats, is_separated, pdu), ()),
    ensures
        ({
            let before = old(stats)@;
            let after = final(stats)@;
            &&& is_separated ==> after == before
            &&& !is_separated && before.count < u64::MAX ==> after.count == before.count + 1
            &&& !is_separated && pdu is None ==> after.total_prev_events == before.total_prev_events
            &&& !is_separated && pdu is Some && before.total_prev_events + pdu->Some_0.prev_events@.len() <= u64::MAX
                ==> after.total_prev_events == before.total_prev_events + pdu->Some_0.prev_events@.len()
            &&& after.state_events == before.state_events && after.missing_hash == before.missing_hash
                && after.unique_hashes == before.unique_hashes && after.last_ssh == before.last_ssh
            &&& after.last_event_id == before.last_event_id && after.last_event_type == before.last_event_type
                && after.last_state_key == before.last_state_key && after.last_is_state_event
                == before.last_is_state_event
            &&& after.max_depth == before.max_depth && after.min_depth == before.min_depth && after.all_event_ids
                == before.all_event_ids && after.referenced_as_prev == before.referenced_as_prev
        }),
{
}

/// What the counts say is what they hold, number by number and id by id.
pub proof fn lemma_the_view_is_what_is_held(stats: DagExportStats)
    ensures
        stats@.count == stats.count && stats@.total_prev_events == stats.total_prev_events,
        stats@.state_events == stats.state_events && stats@.missing_hash == stats.missing_hash,
        stats@.unique_hashes == stats.unique_hashes@ && stats@.last_ssh == stats.last_ssh,
        stats@.last_is_state_event == stats.last_is_state_event,
        stats@.last_event_id is Some <==> stats.last_event_id is Some,
        stats.last_event_id matches Some(id) ==> stats@.last_event_id == Some(id@),
        stats@.last_event_type is Some <==> stats.last_event_type is Some,
        stats.last_event_type matches Some(kind) ==> stats@.last_event_type == Some(kind@),
        stats@.last_state_key is Some <==> stats.last_state_key is Some,
        stats.last_state_key matches Some(key) ==> stats@.last_state_key == Some(key@),
        stats@.max_depth == stats.max_depth && stats@.min_depth == stats.min_depth,
        stats@.all_event_ids == stats.all_event_ids@ && stats@.referenced_as_prev == stats.referenced_as_prev@,
{
}

/// What the line of an event says: the members of the event as they are, with its
/// id where it can be read, a mark where it is an outlier, a mark where it can be
/// read and failed softly, and for the timeline the state before it where that is
/// known. An event that cannot be turned into JSON has no line.
pub proof fn lemma_what_the_line_says(item: ExportItem, name: Seq<char>)
    ensures
        read_as_object(Json::Object(item.json)) is None <==> item.line() is None,
        item.line() is Some ==> {
            let copy = read_as_object(Json::Object(item.json))->Some_0;
            let said = item.fields()->Some_0;
            let kept = said.contains_key(name) == copy.contains_key(name) && said[name] == copy[name];
            let in_timeline = item.pdu is Some && !item.is_outlier && !item.is_soft_failed;
            &&& item.fields() is Some
            &&& item.line()->Some_0 == as_json_text(said).push('\n')
            &&& name != "__outlier"@ && name != "event_id"@ && name != "__soft_failed"@ && name != "__shortstatehash"@
                ==> kept
            &&& item.is_outlier ==> said.contains_key("__outlier"@) && said["__outlier"@] == Json::Bool(true)
            &&& !item.is_outlier && name == "__outlier"@ ==> kept
            &&& item.pdu matches Some(pdu) ==> said.contains_key("event_id"@) && said["event_id"@] == Json::Text(
                pdu.event_id@,
            )
            &&& item.pdu is None && name == "event_id"@ ==> kept
            &&& item.pdu is Some && item.is_soft_failed ==> said.contains_key("__soft_failed"@)
                && said["__soft_failed"@] == Json::Bool(true)
            &&& (item.pdu is None || !item.is_soft_failed) && name == "__soft_failed"@ ==> kept
            &&& in_timeline && item.shortstatehash is Some ==> said.contains_key("__shortstatehash"@)
                && said["__shortstatehash"@] is Number && decimal_value(said["__shortstatehash"@]->Number_0)
                == item.shortstatehash->Some_0
            &&& !in_timeline && name == "__shortstatehash"@ ==> kept
        },
{
    reveal_strlit("\n");
    if item.fields() is Some {
        let copy = read_as_object(Json::Object(item.json))->Some_0;
        let event_id = match item.pdu {
            Some(pdu) => Some(pdu.event_id@),
            None => None,
        };
        lemma_what_the_export_adds(copy, event_id, item.is_outlier, item.is_soft_failed, item.shortstatehash, name);
        let text = as_json_text(item.fields()->Some_0);
        assert(line_of(item.fields()->Some_0) =~= text.push('\n'));
    }
}

} // verus!
