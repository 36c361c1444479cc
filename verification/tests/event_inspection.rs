use roomdag::power_sort::AuthEvent;
use roomdag::rules::rules;
use roomdag::signatures::{
    check_signatures, required_keys, summarize, verify_signatures, CheckedKey, FetchedKey, KeyOutcome, SignatureSummary,
};
use roomdag::verify_pdu::{
    file_auth_events, find_auth_event, get_room_version_id, verify_pdu, write_header, FetchedAuthEvent, InspectedPdu,
    Inspection, Verified, VersionLookupError,
};
use ruma::serde::{base64::Standard, Base64};
use ruma::CanonicalJsonObject;

const PUBLIC_KEY: &str = "XGX0JRS2Af3be3knz2fBiRbApjm2Dh61gXDJA8kcJNI";

fn object(text: &str) -> CanonicalJsonObject {
    serde_json::from_str(text).unwrap()
}

fn public_key() -> Vec<u8> {
    Base64::<Standard>::parse(PUBLIC_KEY).unwrap().as_bytes().to_vec()
}

fn signed() -> CanonicalJsonObject {
    object(
        "{\"signatures\":{\"domain\":{\"ed25519:1\":\
         \"K8280/U9SSy9IVtjBuVeLr+HpOB4BQFWbg+UZaADMtTdGYI7Geitb76LTrr5QV/7Xg4ahLwYGYZzuHGZKM5ZAQ\"}}}",
    )
}

fn key(server: &str, key_id: &str, key: Option<Vec<u8>>) -> FetchedKey {
    FetchedKey { server: server.to_owned(), key_id: key_id.to_owned(), key }
}

fn checked(server: &str, outcome: KeyOutcome) -> CheckedKey {
    CheckedKey { server: server.to_owned(), key_id: "ed25519:1".to_owned(), outcome }
}

fn inspected(kind: &str, state_key: Option<&str>, content: &str) -> InspectedPdu {
    InspectedPdu {
        event_id: "$e".to_owned(),
        room_id: "!r:s".to_owned(),
        kind: kind.to_owned(),
        state_key: state_key.map(str::to_owned),
        sender: "@a:s".to_owned(),
        content: content.to_owned(),
    }
}

fn holds() -> SignatureSummary {
    SignatureSummary { has_failure: false, words: String::new() }
}

fn inspection(signatures: SignatureSummary, verification: Option<Result<Verified, String>>) -> Inspection {
    Inspection {
        room_version: "11".to_owned(),
        signatures,
        verification,
        auth_warnings: String::new(),
        auth_check: Ok(()),
        in_timeline: true,
        is_outlier: false,
        is_soft_failed: false,
    }
}

#[test]
fn signature_that_holds() {
    let rules = rules("11").unwrap();
    let summary = verify_signatures(&signed(), &rules, vec![key("domain", "ed25519:1", Some(public_key()))]);
    assert!(!summary.has_failure);
    assert_eq!(summary.words, "domain (ed25519:1): OK");
}

#[test]
fn event_id_is_not_signed_in_later_versions() {
    let mut event = signed();
    event.insert("event_id".to_owned(), ruma::CanonicalJsonValue::String("$x".to_owned()));
    let keys = || vec![key("domain", "ed25519:1", Some(public_key()))];
    assert!(!verify_signatures(&event, &rules("11").unwrap(), keys()).has_failure);
    assert!(verify_signatures(&event, &rules("1").unwrap(), keys()).has_failure);
}

#[test]
fn signature_that_fails() {
    let rules = rules("11").unwrap();
    let outcomes = check_signatures(&signed(), &rules, vec![key("domain", "ed25519:1", Some(vec![0; 3]))]);
    assert!(matches!(outcomes[0].outcome, KeyOutcome::Fails(_)));
    let summary = verify_signatures(&signed(), &rules, vec![key("domain", "ed25519:1", None)]);
    assert!(summary.has_failure);
    assert_eq!(summary.words, "domain (ed25519:1): MISSING KEY");
}

#[test]
fn outcomes_are_listed_in_order() {
    let summary = summarize(&vec![
        checked("a", KeyOutcome::Holds),
        checked("b", KeyOutcome::Fails("broken".to_owned())),
        checked("c", KeyOutcome::MissingKey),
    ]);
    assert!(summary.has_failure);
    assert_eq!(summary.words, "a (ed25519:1): OK, b (ed25519:1): broken, c (ed25519:1): MISSING KEY");
    let summary = summarize(&vec![checked("a", KeyOutcome::Holds), checked("b", KeyOutcome::Holds)]);
    assert!(!summary.has_failure);
    assert!(!summarize(&Vec::new()).has_failure);
}

#[test]
fn keys_of_the_sender_are_required() {
    let event = object(
        "{\"type\":\"m.room.message\",\"sender\":\"@a:one.org\",\"content\":{},\"signatures\":{\"one.org\":\
         {\"ed25519:b\":\"x\",\"ed25519:a\":\"y\",\"nonsense\":\"z\"},\"two.org\":{\"ed25519:c\":\"x\"}}}",
    );
    let keys = required_keys(&event, &rules("11").unwrap()).unwrap();
    let pairs: Vec<(&str, &str)> = keys.iter().map(|k| (k.server.as_str(), k.key_id.as_str())).collect();
    assert_eq!(pairs, vec![("one.org", "ed25519:a"), ("one.org", "ed25519:b")]);
}

#[test]
fn server_of_the_event_id_is_required_in_the_first_version() {
    let event = object(
        "{\"type\":\"m.room.message\",\"sender\":\"@a:one.org\",\"event_id\":\"$x:two.org\",\"content\":{},\
         \"signatures\":{\"one.org\":{\"ed25519:a\":\"y\"},\"two.org\":{\"ed25519:c\":\"x\"}}}",
    );
    let keys = required_keys(&event, &rules("1").unwrap()).unwrap();
    let pairs: Vec<(&str, &str)> = keys.iter().map(|k| (k.server.as_str(), k.key_id.as_str())).collect();
    assert_eq!(pairs, vec![("one.org", "ed25519:a"), ("two.org", "ed25519:c")]);
}

#[test]
fn event_without_signatures_requires_no_key() {
    assert!(required_keys(&object("{}"), &rules("11").unwrap()).unwrap().is_empty());
}

#[test]
fn event_without_sender_is_refused() {
    assert!(required_keys(&object("{\"signatures\":{},\"type\":\"x\"}"), &rules("11").unwrap()).is_err());
}

#[test]
fn room_version_is_passed_on() {
    let mut out = String::new();
    let version: Result<String, &str> = get_room_version_id(Ok("9".to_owned()), &mut out);
    assert_eq!(version, Ok("9".to_owned()));
    assert_eq!(out, "");
}

#[test]
fn room_without_create_counts_as_the_first_version() {
    let mut out = String::new();
    let version: Result<String, &str> = get_room_version_id(Err(VersionLookupError::NotFound), &mut out);
    assert_eq!(version, Ok("1".to_owned()));
    assert_eq!(out, "Warning: No m.room.create found, defaulting to Room Version 1\n");
}

#[test]
fn other_version_errors_are_passed_on() {
    let mut out = String::new();
    let version = get_room_version_id(Err(VersionLookupError::Other("down")), &mut out);
    assert_eq!(version, Err("down"));
    assert_eq!(out, "");
}

#[test]
fn report_on_a_membership_event() {
    let mut out = "first\n".to_owned();
    let pdu = inspected("m.room.member", Some("@a:s"), "{\"membership\":\"join\"}");
    verify_pdu(&mut out, &pdu, inspection(holds(), Some(Ok(Verified::All))));
    assert_eq!(
        out,
        "first\nEvent: $e\nRoom: !r:s\nType: m.room.member\nMembership: join\nState key: @a:s\nSender: @a:s\nRoom \
         Version: 11\nVerify: OK\nAuth check: OK\nStatus: timeline=true outlier=false rejected=unknown \
         soft_failed=false\n"
    );
}

#[test]
fn report_on_a_failing_event() {
    let mut out = String::new();
    let failing = SignatureSummary { has_failure: true, words: "s (k): MISSING KEY".to_owned() };
    let mut found = inspection(failing, None);
    found.auth_warnings = "warned\n".to_owned();
    found.auth_check = Err("no".to_owned());
    found.is_soft_failed = true;
    verify_pdu(&mut out, &inspected("m.room.message", None, "{\"membership\":\"join\"}"), found);
    assert_eq!(
        out,
        "Event: $e\nRoom: !r:s\nType: m.room.message\nSender: @a:s\nRoom Version: 11\nVerify: SIGNATURE FAILED: s (k): \
         MISSING KEY\nwarned\nAuth check: FAIL (no)\nStatus: timeline=true outlier=false rejected=unknown \
         soft_failed=true\n"
    );
}

#[test]
fn outcomes_of_a_full_check() {
    let mut out = String::new();
    let pdu = inspected("m.room.member", None, "{\"membership\":4}");
    verify_pdu(&mut out, &pdu, inspection(holds(), Some(Ok(Verified::Signatures))));
    assert!(out.contains("Verify: REDACTED / HASH FAILED\n"));
    assert!(!out.contains("Membership"));
    let mut out = String::new();
    verify_pdu(&mut out, &pdu, inspection(holds(), Some(Err("bad hash".to_owned()))));
    assert!(out.contains("Verify: FAILED (bad hash)\n"));
}

#[test]
fn header_names_the_membership_it_is_given() {
    let text = write_header(&inspected("t", Some(""), "{}"), Some("knock"), "3");
    assert_eq!(text, "Event: $e\nRoom: !r:s\nType: t\nMembership: knock\nState key: \nSender: @a:s\nRoom Version: 3\n");
}

#[test]
fn auth_events_are_filed_or_warned_of() {
    let event = |kind: &str, key: Option<&str>, pdu: u8| {
        Ok(AuthEvent { kind: kind.to_owned(), state_key: key.map(str::to_owned), pdu })
    };
    let fetched = vec![
        FetchedAuthEvent { id: "$1".to_owned(), event: event("t", Some("k"), 1) },
        FetchedAuthEvent { id: "$2".to_owned(), event: Err("gone".to_owned()) },
        FetchedAuthEvent { id: "$3".to_owned(), event: event("t", Some("k"), 3) },
        FetchedAuthEvent { id: "$4".to_owned(), event: event("u", None, 4) },
        FetchedAuthEvent { id: "$5".to_owned(), event: Err("down".to_owned()) },
    ];
    let mut out = String::new();
    let entries = file_auth_events(fetched, &mut out);
    assert_eq!(
        out,
        "Warning: Failed to fetch auth event $2: gone\nWarning: Failed to fetch auth event $5: down\n"
    );
    assert_eq!(find_auth_event(&entries, "t", "k"), Some(&1));
    assert_eq!(find_auth_event(&entries, "u", ""), Some(&4));
    assert_eq!(find_auth_event(&entries, "u", "k"), None);
}
