//! What a whole export of the event graph of a room holds.

use crate::dag_files::covered_ids;
use crate::dag_report::{stats_report, tip_status};
use crate::dag_stats::{exported, no_events, DagExportView, ExportItem, ExportedEvent};
use crate::json::Json;
use vstd::prelude::*;

verus! {

/// What an export has come to: its counts, and the lines of its two files.
pub struct ExportRun {
    pub stats: DagExportView,
    pub timeline: Seq<Seq<char>>,
    pub outliers: Seq<Seq<char>>,
}

impl ExportRun {
    /// The export after one more event, whose line is written where there is
    /// one.
    pub open spec fn after(self, item: ExportItem) -> ExportRun {
        match item.line() {
            None => self,
            Some(line) => if item.is_separated() {
                ExportRun { outliers: self.outliers.push(line), ..self }
            } else {
                ExportRun {
                    stats: self.stats.with_item(item).with_line(item.pdu->Some_0.prev_events@.len()),
                    timeline: self.timeline.push(line),
                    ..self
                }
            },
        }
    }
}

/// The export of a list of events.
pub open spec fn export_run(items: Seq<ExportItem>) -> ExportRun
    decreases items.len(),
{
    if items.len() == 0 {
        ExportRun { stats: no_events(), timeline: seq![], outliers: seq![] }
    } else {
        export_run(items.drop_last()).after(items.last())
    }
}

/// The lines of the events of a list that are kept apart from the timeline, or of
/// those that are not, in their order.
pub open spec fn lines_of(items: Seq<ExportItem>, is_separated: bool) -> Seq<Seq<char>>
    decreases items.len(),
{
    if items.len() == 0 {
        seq![]
    } else {
        let rest = lines_of(items.drop_last(), is_separated);
        match items.last().line() {
            Some(line) => if items.last().is_separated() == is_separated {
                rest.push(line)
            } else {
                rest
            },
            None => rest,
        }
    }
}

/// The events of a list that belong to the timeline and have a line.
pub open spec fn timeline_events(items: Seq<ExportItem>) -> Seq<ExportedEvent>
    decreases items.len(),
{
    if items.len() == 0 {
        seq![]
    } else {
        let rest = timeline_events(items.drop_last());
        let item = items.last();
        if item.line() is None || item.is_separated() {
            rest
        } else {
            rest.push(ExportedEvent { pdu: item.pdu->Some_0, shortstatehash: item.shortstatehash })
        }
    }
}

/// Outliers and the other events that are kept apart leave the timeline and the
/// counts alone: the counts are those of the events of the timeline, whose lines
/// make up its file in their order, and each event that is kept apart adds one
/// line to the other file.
pub proof fn lemma_separated_events_leave_the_timeline_alone(items: Seq<ExportItem>)
    ensures
        export_run(items).stats == exported(timeline_events(items)),
        export_run(items).timeline == lines_of(items, false),
        export_run(items).outliers == lines_of(items, true),
    decreases items.len(),
{
    if items.len() > 0 {
        lemma_separated_events_leave_the_timeline_alone(items.drop_last());
        let item = items.last();
        if !(item.line() is None || item.is_separated()) {
            let rest = timeline_events(items.drop_last());
            assert(timeline_events(items).drop_last() =~= rest);
        }
    }
}

/// What loading an event by its id gives; nothing where that fails.
pub type Load = spec_fn(Seq<char>) -> Option<ExportItem>;

/// The events that loading ids in their order gives.
pub open spec fn loaded(ids: Seq<Seq<char>>, load: Load) -> Seq<ExportItem>
    decreases ids.len(),
{
    if ids.len() == 0 {
        seq![]
    } else {
        let rest = loaded(ids.drop_last(), load);
        match load(ids.last()) {
            Some(item) => rest.push(item),
            None => rest,
        }
    }
}

/// The export of a room: the events of its timeline between the start and the
/// end, then its outliers as far as they are asked for.
pub open spec fn room_export(
    pdu_ids: Seq<Seq<char>>,
    start: i64,
    end: i64,
    load: Load,
    outlier_ids: Seq<Seq<char>>,
    load_outlier: Load,
) -> ExportRun {
    export_run(loaded(covered_ids(pdu_ids, start, end), load) + loaded(outlier_ids, load_outlier))
}

/// Outliers after other events change nothing but the file of the outliers.
proof fn lemma_run_with_outliers(items: Seq<ExportItem>, outliers: Seq<ExportItem>)
    requires
        forall|i: int| 0 <= i < outliers.len() ==> (#[trigger] outliers[i]).is_outlier,
    ensures
        export_run(items + outliers).stats == export_run(items).stats,
        export_run(items + outliers).timeline == export_run(items).timeline,
        export_run(items + outliers).outliers == export_run(items).outliers + lines_of(outliers, true),
        lines_of(outliers, true).len() <= outliers.len(),
        (forall|i: int| 0 <= i < outliers.len() ==> (#[trigger] outliers[i]).line() is Some) ==> lines_of(
            outliers,
            true,
        ).len() == outliers.len(),
    decreases outliers.len(),
{
    if outliers.len() == 0 {
        assert(items + outliers =~= items);
        assert(export_run(items).outliers + lines_of(outliers, true) =~= export_run(items).outliers);
    } else {
        let front = outliers.drop_last();
        assert forall|i: int| 0 <= i < front.len() implies (#[trigger] front[i]).is_outlier by {
            assert(outliers[i].is_outlier);
        }
        lemma_run_with_outliers(items, front);
        assert((items + outliers).drop_last() =~= items + front);
        assert((items + outliers).last() == outliers.last());
        assert(outliers[outliers.len() - 1].is_outlier);
        assert(export_run(items + outliers).outliers =~= export_run(items).outliers + lines_of(outliers, true));
        if forall|i: int| 0 <= i < outliers.len() ==> (#[trigger] outliers[i]).line() is Some {
            assert(outliers[outliers.len() - 1].line() is Some);
            assert forall|i: int| 0 <= i < front.len() implies (#[trigger] front[i]).line() is Some by {
                assert(outliers[i].line() is Some);
            }
        }
    }
}

proof fn lemma_loaded_outliers(ids: Seq<Seq<char>>, load: Load)
    requires
        forall|id: Seq<char>| (#[trigger] load(id)) is Some ==> load(id)->Some_0.is_outlier,
    ensures
        forall|i: int| 0 <= i < loaded(ids, load).len() ==> (#[trigger] loaded(ids, load)[i]).is_outlier,
    decreases ids.len(),
{
    if ids.len() > 0 {
        lemma_loaded_outliers(ids.drop_last(), load);
    }
}

/// To export the outliers too changes neither the file of the timeline nor the
/// report. It adds to the file of the outliers one line for each outlier that
/// can be loaded and turned into JSON, wherever the export starts and ends.
pub proof fn lemma_outliers_are_only_added(
    pdu_ids: Seq<Seq<char>>,
    start: i64,
    end: i64,
    load: Load,
    outlier_ids: Seq<Seq<char>>,
    load_outlier: Load,
    room_ssh: Option<u64>,
    found: Option<Seq<char>>,
    display_path: Seq<char>,
)
    requires
        forall|id: Seq<char>| (#[trigger] load_outlier(id)) is Some ==> load_outlier(id)->Some_0.is_outlier,
    ensures
        ({
            let without = room_export(pdu_ids, start, end, load, seq![], load_outlier);
            let with = room_export(pdu_ids, start, end, load, outlier_ids, load_outlier);
            let added = loaded(outlier_ids, load_outlier);
            &&& with.timeline == without.timeline
            &&& with.stats == without.stats
            &&& stats_report(
                with.stats,
                room_ssh,
                tip_status(with.stats, room_ssh, found),
                display_path,
            ) == stats_report(without.stats, room_ssh, tip_status(without.stats, room_ssh, found), display_path)
            &&& with.outliers == without.outliers + lines_of(added, true)
            &&& (forall|i: int| 0 <= i < added.len() ==> (#[trigger] added[i]).line() is Some) ==> lines_of(
                added,
                true,
            ).len() == added.len()
        }),
{
    let items = loaded(covered_ids(pdu_ids, start, end), load);
    let added = loaded(outlier_ids, load_outlier);
    lemma_loaded_outliers(outlier_ids, load_outlier);
    lemma_run_with_outliers(items, added);
    assert(items + loaded(seq![], load_outlier) =~= items);
}

/// The line of an outlier says that it is one.
pub proof fn lemma_outliers_are_marked(item: ExportItem)
    requires
        item.is_outlier,
        item.fields() is Some,
    ensures
        item.fields()->Some_0.contains_key("__outlier"@),
        item.fields()->Some_0["__outlier"@] == Json::Bool(true),
        item.is_separated(),
{
    reveal_strlit("__outlier");
    reveal_strlit("event_id");
    reveal_strlit("__soft_failed");
    assert("__outlier"@.len() != "event_id"@.len());
    assert("__outlier"@.len() != "__soft_failed"@.len());
}

/// What one event more does to an export. Without a line nothing changes. An
/// outlier, an event that cannot be read and one that failed softly add their line
/// to the file of the outliers and change nothing else; any other event adds its
/// line to the file of the timeline, counts as one, and is the last one.
pub proof fn lemma_one_item_more(items: Seq<ExportItem>, item: ExportItem)
    ensures
        ({
            let before = export_run(items);
            let after = export_run(items.push(item));
            let apart = item.pdu is None || item.is_outlier || item.is_soft_failed;
            &&& item.line() is None ==> after == before
            &&& item.line() is Some && apart ==> {
                &&& after.outliers.len() == before.outliers.len() + 1
                &&& after.outliers.drop_last() == before.outliers
                &&& after.outliers.last() == item.line()->Some_0
                &&& after.timeline == before.timeline
                &&& after.stats == before.stats
            }
            &&& item.line() is Some && !apart ==> {
                &&& after.timeline.len() == before.timeline.len() + 1
                &&& after.timeline.drop_last() == before.timeline
                &&& after.timeline.last() == item.line()->Some_0
                &&& after.outliers == before.outliers
                &&& before.stats.count < u64::MAX ==> after.stats.count == before.stats.count + 1
                &&& after.stats.last_event_id == Some(item.pdu->Some_0.event_id@)
            }
        }),
{
    assert(items.push(item).drop_last() =~= items);
    let before = export_run(items);
    let after = export_run(items.push(item));
    if item.line() is Some {
        let line = item.line()->Some_0;
        assert(before.outliers.push(line).drop_last() =~= before.outliers);
        assert(before.timeline.push(line).drop_last() =~= before.timeline);
    }
}

/// There is one count for each line of the timeline, as far as the number reaches.
pub proof fn lemma_each_line_is_counted(items: Seq<ExportItem>)
    ensures
        export_run(items).timeline.len() <= u64::MAX ==> export_run(items).stats.count == export_run(
            items,
        ).timeline.len(),
    decreases items.len(),
{
    if items.len() > 0 {
        lemma_each_line_is_counted(items.drop_last());
    }
}

/// The events of two lists of ids are loaded as those of the one and then those of
/// the other; an id gives its event, or nothing where it cannot be loaded.
pub proof fn lemma_ids_are_loaded_in_their_order(ids: Seq<Seq<char>>, more: Seq<Seq<char>>, load: Load, id: Seq<char>)
    ensures
        loaded(ids + more, load) == loaded(ids, load) + loaded(more, load),
        load(id) is None ==> loaded(seq![id], load).len() == 0,
        load(id) is Some ==> loaded(seq![id], load) == seq![load(id)->Some_0],
    decreases more.len(),
{
    let one = seq![id];
    assert(one.drop_last() =~= seq![]);
    assert(loaded(seq![], load) =~= seq![]);
    assert(loaded(one, load) =~= match load(id) {
        Some(item) => seq![item],
        None => seq![],
    });
    if more.len() == 0 {
        assert(ids + more =~= ids);
        assert(loaded(ids, load) + loaded(more, load) =~= loaded(ids, load));
    } else {
        lemma_ids_are_loaded_in_their_order(ids, more.drop_last(), load, id);
        assert((ids + more).drop_last() =~= ids + more.drop_last());
        assert(loaded(ids + more, load) =~= loaded(ids, load) + loaded(more, load));
    }
}

} // verus!
