use roomdag::power_sort::AuthEvent;
use roomdag::unreject::{auth_events_by_key, unreject_rejected_events, StoredPdu, Verdict};
use roomdag::verify_pdu::find_auth_event;
use ruma::CanonicalJsonObject;

fn stored(id: &str, text: &str) -> StoredPdu {
    let pdu_json: CanonicalJsonObject = serde_json::from_str(text).unwrap();
    StoredPdu { event_id: id.to_owned(), pdu_json }
}

fn outliers() -> Vec<StoredPdu> {
    vec![
        stored("$a", "{\"room_id\":\"!r:s\",\"rejected\":true}"),
        stored("$b", "{\"room_id\":\"!q:s\",\"rejected\":true}"),
        stored("$c", "{\"room_id\":\"!r:s\",\"rejected\":false}"),
        stored("$d", "{\"room_id\":\"!r:s\"}"),
        stored("$e", "{\"rejected\":true}"),
        stored("$f", "{\"room_id\":\"!r:s\",\"rejected\":\"true\"}"),
        stored("$g", "{\"room_id\":\"!r:s\",\"rejected\":true,\"x\":1}"),
    ]
}

#[test]
fn rejected_events_of_the_room_are_scanned() {
    let mut scan = unreject_rejected_events(outliers(), "!r:s");
    assert_eq!(scan.next_rejected().map(|o| o.event_id), Some("$a".to_owned()));
    assert_eq!(scan.next_rejected().map(|o| o.event_id), Some("$g".to_owned()));
    assert!(scan.next_rejected().is_none());
    assert!(!scan.must_scan_again());
}

#[test]
fn authorised_event_loses_its_mark() {
    let mut scan = unreject_rejected_events(outliers(), "!r:s");
    let first = scan.next_rejected().unwrap();
    assert!(scan.judge(first, Verdict::StaysRejected).is_none());
    assert!(!scan.must_scan_again());
    let second = scan.next_rejected().unwrap();
    let promoted = scan.judge(second, Verdict::Authorised).unwrap();
    assert_eq!(promoted.event_id, "$g");
    assert!(!promoted.pdu_json.contains_key("rejected"));
    assert_eq!(promoted.pdu_json.len(), 2);
    assert!(scan.must_scan_again());
    let mut again = unreject_rejected_events(vec![promoted], "!r:s");
    assert!(again.next_rejected().is_none());
}

#[test]
fn one_promotion_is_enough_to_scan_again() {
    let mut scan = unreject_rejected_events(outliers(), "!r:s");
    let first = scan.next_rejected().unwrap();
    assert!(scan.judge(first, Verdict::Authorised).is_some());
    let second = scan.next_rejected().unwrap();
    assert!(scan.judge(second, Verdict::StaysRejected).is_none());
    assert!(scan.must_scan_again());
}

#[test]
fn auth_events_are_found_by_what_they_are_about() {
    let event = |kind: &str, key: &str, pdu: u8| AuthEvent { kind: kind.to_owned(), state_key: Some(key.to_owned()), pdu };
    let entries = auth_events_by_key(vec![event("t", "", 1), event("t", "", 2), event("u", "k", 3)]);
    assert_eq!(find_auth_event(&entries, "t", ""), Some(&1));
    assert_eq!(find_auth_event(&entries, "u", "k"), Some(&3));
    assert_eq!(find_auth_event(&entries, "u", ""), None);
}
