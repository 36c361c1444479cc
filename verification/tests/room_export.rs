use roomdag::dag_files::{collect_outlier_ids, collect_pdu_ids, export_files, export_window, final_file, Outlier};
use roomdag::dag_report::{determine_tip_match, format_dag_stats_output, tip_question};
use roomdag::dag_stats::{DagExportStats, ExportPdu};
use roomdag::export::{decorate_pdu_for_export, export_line, wants_shortstatehash};
use ruma::{CanonicalJsonObject, CanonicalJsonValue};

fn object(text: &str) -> CanonicalJsonObject {
    serde_json::from_str(text).unwrap()
}

fn pdu(id: &str, state_key: Option<&str>, prev: &[&str], depth: u64) -> ExportPdu {
    ExportPdu {
        event_id: id.to_owned(),
        kind: "m.room.topic".to_owned(),
        state_key: state_key.map(str::to_owned),
        prev_events: prev.iter().map(|id| id.to_string()).collect(),
        depth,
    }
}

fn export(stats: &mut DagExportStats, pdu: &ExportPdu, hash: Option<u64>) -> String {
    let line = stats.process_pdu(&object("{\"type\":\"m.room.topic\"}"), Some(pdu), false, false, hash).unwrap();
    stats.line_written(line.is_separated, Some(pdu));
    line.text
}

#[test]
fn timeline_event_is_decorated() {
    let pdu_json = object("{\"depth\":4,\"type\":\"m.room.topic\"}");
    let decorated = decorate_pdu_for_export(&pdu_json, Some("$a"), false, false, Some(12)).unwrap();
    assert!(!decorated.is_separated);
    assert_eq!(decorated.shortstatehash, Some(12));
    assert_eq!(
        export_line(&decorated.object).unwrap(),
        "{\"__shortstatehash\":12,\"depth\":4,\"event_id\":\"$a\",\"type\":\"m.room.topic\"}\n"
    );
}

#[test]
fn timeline_event_without_known_state_is_decorated() {
    let decorated = decorate_pdu_for_export(&object("{}"), Some("$a"), false, false, None).unwrap();
    assert!(!decorated.is_separated);
    assert_eq!(decorated.shortstatehash, None);
    assert_eq!(export_line(&decorated.object).unwrap(), "{\"event_id\":\"$a\"}\n");
}

#[test]
fn soft_failed_event_is_kept_apart() {
    let decorated = decorate_pdu_for_export(&object("{}"), Some("$a"), false, true, Some(3)).unwrap();
    assert!(decorated.is_separated);
    assert_eq!(decorated.shortstatehash, None);
    assert_eq!(export_line(&decorated.object).unwrap(), "{\"__soft_failed\":true,\"event_id\":\"$a\"}\n");
}

#[test]
fn outlier_is_kept_apart() {
    let decorated = decorate_pdu_for_export(&object("{}"), Some("$a"), true, true, None).unwrap();
    assert!(decorated.is_separated);
    assert_eq!(
        export_line(&decorated.object).unwrap(),
        "{\"__outlier\":true,\"__soft_failed\":true,\"event_id\":\"$a\"}\n"
    );
}

#[test]
fn unreadable_event_is_kept_apart() {
    let decorated = decorate_pdu_for_export(&object("{\"x\":[1,null]}"), None, false, true, Some(3)).unwrap();
    assert!(decorated.is_separated);
    assert_eq!(export_line(&decorated.object).unwrap(), "{\"x\":[1,null]}\n");
}

#[test]
fn line_breaks_stay_within_their_texts() {
    let decorated = decorate_pdu_for_export(&object("{\"body\":\"a\\nb\"}"), None, false, false, None).unwrap();
    assert_eq!(export_line(&decorated.object).unwrap(), "{\"body\":\"a\\nb\"}\n");
}

#[test]
fn reserved_member_can_stop_an_export() {
    let text = CanonicalJsonValue::String("no json".to_owned());
    let inner = CanonicalJsonObject::from([("$serde_json::private::RawValue".to_owned(), text)]);
    let odd = CanonicalJsonObject::from([("x".to_owned(), CanonicalJsonValue::Object(inner))]);
    assert!(decorate_pdu_for_export(&odd, None, false, false, None).is_err());
    let mut stats = DagExportStats::default();
    assert!(stats.process_pdu(&odd, Some(&pdu("$a", None, &[], 1)), false, false, None).is_err());
    assert_eq!(stats.all_event_ids.len(), 0);
}

#[test]
fn state_is_wanted_for_the_timeline_only() {
    assert!(wants_shortstatehash(true, false, false));
    assert!(!wants_shortstatehash(false, false, false));
    assert!(!wants_shortstatehash(true, true, false));
    assert!(!wants_shortstatehash(true, false, true));
}

#[test]
fn counts_follow_the_events() {
    let mut stats = DagExportStats::default();
    export(&mut stats, &pdu("$a", Some(""), &[], 1), Some(5));
    export(&mut stats, &pdu("$b", None, &["$a"], 2), Some(6));
    let line = export(&mut stats, &pdu("$c", None, &["$a", "$b"], 3), None);
    assert_eq!(line, "{\"event_id\":\"$c\",\"type\":\"m.room.topic\"}\n");
    assert_eq!(stats.count, 3);
    assert_eq!(stats.total_prev_events, 3);
    assert_eq!(stats.state_events, 1);
    assert_eq!(stats.missing_hash, 1);
    assert_eq!(stats.unique_hashes.len(), 2);
    assert_eq!(stats.last_ssh, Some(6));
    assert!(!stats.last_is_state_event);
    assert_eq!(stats.last_event_id, Some("$c".to_owned()));
    assert_eq!(stats.last_event_type, Some("m.room.topic".to_owned()));
    assert_eq!(stats.last_state_key, Some(String::new()));
    assert_eq!((stats.min_depth, stats.max_depth), (1, 3));
    assert_eq!(stats.all_event_ids.len(), 3);
    assert_eq!(stats.referenced_as_prev.len(), 2);
}

#[test]
fn separated_events_are_not_counted() {
    let mut stats = DagExportStats::default();
    let event = pdu("$a", Some(""), &["$z"], 7);
    let line = stats.process_pdu(&object("{}"), Some(&event), true, false, None).unwrap();
    assert!(line.is_separated);
    stats.line_written(line.is_separated, Some(&event));
    let line = stats.process_pdu(&object("{}"), None, false, false, None).unwrap();
    assert!(line.is_separated);
    stats.line_written(line.is_separated, None);
    assert_eq!(stats.count, 0);
    assert_eq!(stats.total_prev_events, 0);
    assert_eq!(stats.all_event_ids.len(), 0);
    assert_eq!(stats.last_event_id, None);
    assert_eq!((stats.min_depth, stats.max_depth), (u64::MAX, 0));
}

#[test]
fn line_that_was_not_written_is_not_counted() {
    let mut stats = DagExportStats::default();
    let event = pdu("$a", None, &[], 7);
    assert!(stats.process_pdu(&object("{}"), Some(&event), false, false, Some(1)).is_ok());
    assert_eq!(stats.count, 0);
    assert_eq!(stats.all_event_ids.len(), 1);
}

#[test]
fn counts_saturate() {
    let mut stats = DagExportStats::default();
    stats.count = u64::MAX;
    stats.missing_hash = u64::MAX;
    export(&mut stats, &pdu("$a", None, &[], 1), None);
    assert_eq!(stats.count, u64::MAX);
    assert_eq!(stats.missing_hash, u64::MAX);
}

#[test]
fn report_of_a_small_room() {
    let mut stats = DagExportStats::default();
    export(&mut stats, &pdu("$a", Some(""), &[], 1), Some(5));
    export(&mut stats, &pdu("$b", None, &["$a"], 2), Some(6));
    export(&mut stats, &pdu("$c", None, &["$a"], 2), None);
    let out = format_dag_stats_output(&stats, Some(6), "✓ tip matches room state", "/tmp/x.jsonl");
    assert_eq!(
        out,
        "Wrote 3 PDUs to /tmp/x.jsonl\n```\nPDUs:           3\nState events:   1\nBranching:      0.666 avg \
         prev_events/PDU\nFrag factor:    1.500 (3 events / 2 depth, 2 heads)\nUnique states:  2\nMissing hash:   \
         1\nTip SSH:        6\nRoom SSH:       6\nStatus:         ✓ tip matches room state\n```\n"
    );
}

#[test]
fn report_of_an_empty_room() {
    let out = format_dag_stats_output(&DagExportStats::default(), None, "? unknown", "p");
    assert_eq!(
        out,
        "Wrote 0 PDUs to p\n```\nPDUs:           0\nState events:   0\nBranching:      0.000 avg prev_events/PDU\nFrag \
         factor:    0.000 (0 events / 0 depth, 0 heads)\nUnique states:  0\nMissing hash:   0\nStatus:         ? \
         unknown\n```\n"
    );
}

#[test]
fn ratios_saturate() {
    let mut stats = DagExportStats::default();
    stats.count = u64::MAX;
    stats.max_depth = 1;
    let out = format_dag_stats_output(&stats, None, "", "p");
    assert!(out.contains("Frag factor:    18446744073709551.615 (18446744073709551615 events / 1 depth, 0 heads)\n"));
}

#[test]
fn ratios_are_cut_off() {
    let mut stats = DagExportStats::default();
    stats.count = 20;
    stats.total_prev_events = 21;
    stats.max_depth = 19;
    stats.last_ssh = Some(5);
    let out = format_dag_stats_output(&stats, Some(6), "t", "p");
    assert!(out.contains("Branching:      1.050 avg prev_events/PDU\n"));
    assert!(out.contains("Frag factor:    1.052 (20 events / 19 depth, 0 heads)\n"));
    assert!(out.contains("Tip SSH:        5\nRoom SSH:       6\n"));
}

#[test]
fn heads_are_events_that_no_event_names() {
    let mut stats = DagExportStats::default();
    stats.count = 3;
    stats.max_depth = 3;
    for id in ["$a", "$b", "$c"] {
        stats.all_event_ids.insert(id);
    }
    for id in ["$a", "$z"] {
        stats.referenced_as_prev.insert(id);
    }
    let out = format_dag_stats_output(&stats, None, "t", "p");
    assert!(out.contains("Frag factor:    1.000 (3 events / 3 depth, 2 heads)\n"));
}

#[test]
fn tip_that_matches() {
    let mut stats = DagExportStats::default();
    export(&mut stats, &pdu("$a", Some("k"), &[], 1), Some(5));
    assert!(tip_question(&stats, Some(5)).is_none());
    assert_eq!(determine_tip_match(&stats, Some(5), None), "✓ tip matches room state");
}

#[test]
fn tip_that_is_unknown() {
    let mut stats = DagExportStats::default();
    assert_eq!(determine_tip_match(&stats, Some(5), None), "? unknown");
    export(&mut stats, &pdu("$a", Some("k"), &[], 1), Some(5));
    assert!(tip_question(&stats, None).is_none());
    assert_eq!(determine_tip_match(&stats, None, None), "? unknown");
}

#[test]
fn tip_that_is_a_state_event() {
    let mut stats = DagExportStats::default();
    export(&mut stats, &pdu("$a", Some("k"), &[], 1), Some(5));
    let question = tip_question(&stats, Some(8)).unwrap();
    assert_eq!((question.room_ssh, question.event_type.as_str(), question.state_key.as_str()), (8, "m.room.topic", "k"));
    assert_eq!(
        determine_tip_match(&stats, Some(8), Some("$a")),
        "✓ tip is state event — room state includes tip (pre=5 post=8)"
    );
    let diverges = "✗ tip DIVERGES — room state at (m.room.topic, k) does not point to tip event $a";
    assert_eq!(determine_tip_match(&stats, Some(8), Some("$b")), diverges);
    assert_eq!(determine_tip_match(&stats, Some(8), None), diverges);
}

#[test]
fn tip_that_is_not_a_state_event() {
    let mut stats = DagExportStats::default();
    export(&mut stats, &pdu("$a", None, &[], 1), Some(5));
    assert!(tip_question(&stats, Some(8)).is_none());
    assert_eq!(determine_tip_match(&stats, Some(8), Some("$a")), "✗ tip DIVERGES from room state");
}

#[test]
fn tip_without_metadata() {
    let mut stats = DagExportStats::default();
    stats.last_ssh = Some(5);
    stats.last_is_state_event = true;
    assert!(tip_question(&stats, Some(8)).is_none());
    assert_eq!(
        determine_tip_match(&stats, Some(8), None),
        "✗ tip DIVERGES from room state (state event but missing metadata)"
    );
}

fn window(start: i64, end: i64, len: usize) -> (usize, usize) {
    let window = export_window(start, end, len);
    (window.from, window.to)
}

#[test]
fn windows() {
    assert_eq!(window(0, -1, 10), (0, 10));
    assert_eq!(window(3, 5, 10), (3, 6));
    assert_eq!(window(-3, -1, 10), (7, 10));
    assert_eq!(window(-30, 2, 10), (0, 3));
    assert_eq!(window(0, 100, 10), (0, 10));
    assert_eq!(window(i64::MIN, i64::MAX, 4), (0, 4));
    assert_eq!(window(0, -1, 0), (0, 0));
    let (from, to) = window(8, 3, 10);
    assert_eq!(from, to);
    let (from, to) = window(20, -1, 10);
    assert_eq!(from, to);
}

#[test]
fn file_names() {
    let files = export_files("!abc:example.org:8448", Some("11"), "example.org");
    assert_eq!(files.timeline, "local-dag-abc_example.org_8448-v11-example.org.jsonl");
    assert_eq!(files.outliers, "local-dag-abc_example.org_8448-v11-example.org-outliers.jsonl");
    assert_eq!(export_files("!a:b", None, "s").timeline, "local-dag-a_b-vunknown-s.jsonl");
    assert_eq!(final_file("!a!:b", Some("1"), "s", 4, 90), "local-dag-a_b-v1-s-d4-90.jsonl");
    assert_eq!(final_file("!a:b", None, "s", u64::MAX, 0), "local-dag-a_b-vunknown-s-d0-0.jsonl");
}

#[test]
fn unreadable_entries_are_left_out() {
    let entries = vec![Ok("$a".to_owned()), Err("broken"), Ok("$b".to_owned())];
    assert_eq!(collect_pdu_ids(entries), vec!["$a".to_owned(), "$b".to_owned()]);
}

#[test]
fn outliers_of_other_rooms_are_left_out() {
    let outlier = |id: &str, room: &str| Outlier { event_id: id.to_owned(), room_id: room.to_owned() };
    let entries = vec![Ok(outlier("$a", "!r:s")), Ok(outlier("$b", "!q:s")), Err("broken"), Ok(outlier("$c", "!r:s"))];
    assert_eq!(collect_outlier_ids(entries, "!r:s"), vec!["$a".to_owned(), "$c".to_owned()]);
}

#[test]
fn rooms_of_several_versions_are_exported() {
    for (version, room) in [("5", "!five:s"), ("11", "!eleven:s"), ("12", "!31hneApxJ_1o-63DmFrpeqnkFfWppnzWso1JvH3ogLM")] {
        let ids = collect_pdu_ids::<String>(vec![Ok("$create".to_owned()), Ok("$join".to_owned())]);
        let window = export_window(0, -1, ids.len());
        let mut stats = DagExportStats::default();
        export(&mut stats, &pdu(&ids[window.from], Some(""), &[], 1), Some(1));
        export(&mut stats, &pdu(&ids[window.to - 1], Some("@s:s"), &["$create"], 2), Some(2));
        let name = final_file(room, Some(version), "s", stats.min_depth, stats.max_depth);
        assert!(name.ends_with(&format!("-v{version}-s-d1-2.jsonl")));
        let found = tip_question(&stats, Some(3)).map(|_| "$join");
        let tip = determine_tip_match(&stats, Some(3), found);
        assert_eq!(tip, "✓ tip is state event — room state includes tip (pre=2 post=3)");
        let report = format_dag_stats_output(&stats, Some(3), &tip, &name);
        assert!(report.starts_with(&format!("Wrote 2 PDUs to {name}\n")));
    }
}

/// Exports events one after the other, and returns the lines of the two files.
fn run(stats: &mut DagExportStats, events: &[(ExportPdu, bool)]) -> (String, String) {
    let mut files = (String::new(), String::new());
    for (event, is_outlier) in events {
        let line = stats.process_pdu(&object("{}"), Some(event), *is_outlier, false, Some(event.depth)).unwrap();
        if line.is_separated {
            files.1.push_str(&line.text);
        } else {
            files.0.push_str(&line.text);
        }
        stats.line_written(line.is_separated, Some(event));
    }
    files
}

#[test]
fn outliers_are_only_added() {
    let timeline = || vec![(pdu("$a", Some(""), &[], 1), false), (pdu("$b", None, &["$a"], 2), false)];
    let mut without = DagExportStats::default();
    let (lines, apart) = run(&mut without, &timeline());
    let mut events = timeline();
    events.push((pdu("$x", Some("k"), &["$b"], 90), true));
    events.push((pdu("$y", None, &[], 0), true));
    let mut with = DagExportStats::default();
    let (lines_too, more_apart) = run(&mut with, &events);
    assert_eq!(lines_too, lines);
    assert_eq!(
        more_apart,
        apart + "{\"__outlier\":true,\"event_id\":\"$x\"}\n{\"__outlier\":true,\"event_id\":\"$y\"}\n"
    );
    assert_eq!(
        format_dag_stats_output(&with, Some(2), "t", "p"),
        format_dag_stats_output(&without, Some(2), "t", "p")
    );
    assert_eq!((with.min_depth, with.max_depth), (without.min_depth, without.max_depth));
}
