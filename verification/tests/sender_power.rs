use roomdag::power_sort::{
    create_event_id, power_query, AuthEvent, ChainEvent, NotAnEventId, PowerQuery, SenderWalk,
};

const CREATE: &str = "m.room.create";
const POWER: &str = "m.room.power_levels";
const MEMBER: &str = "m.room.member";

type Store = Vec<(&'static str, &'static str, Option<&'static str>, Vec<&'static str>)>;

fn owned(ids: &[&str]) -> Vec<String> {
    ids.iter().map(|id| id.to_string()).collect()
}

/// Walks to the end, and returns what was asked for.
fn finish(walk: &mut SenderWalk<String>, store: &Store) -> Vec<String> {
    let mut asked = Vec::new();
    while let Some(id) = walk.next_id().cloned() {
        let found = store.iter().find(|(known, ..)| *known == id);
        asked.push(id);
        walk.step(found.map(|(id, kind, state_key, auth)| ChainEvent {
            event: AuthEvent {
                kind: kind.to_string(),
                state_key: state_key.map(str::to_owned),
                pdu: id.to_string(),
            },
            auth_events: owned(auth),
        }));
    }
    asked
}

fn found(walk: &SenderWalk<String>) -> (Option<&str>, Option<&str>) {
    (walk.create().map(String::as_str), walk.power_levels().map(String::as_str))
}

#[test]
fn walk_finds_the_first_of_each() {
    let store = vec![
        ("$m", MEMBER, Some("@a:b"), vec![]),
        ("$p1", POWER, Some(""), vec![]),
        ("$p2", POWER, Some(""), vec![]),
        ("$c", CREATE, Some(""), vec![]),
        ("$c2", CREATE, Some(""), vec![]),
    ];
    let mut walk = SenderWalk::new(&owned(&["$gone", "$m", "$p1", "$p2", "$c", "$c2"]));
    let asked = finish(&mut walk, &store);
    assert_eq!(found(&walk), (Some("$c"), Some("$p1")));
    assert_eq!(asked, owned(&["$gone", "$m", "$p1", "$p2", "$c"]));
}

#[test]
fn walk_goes_back_through_the_chain() {
    let store = vec![
        ("$c", CREATE, Some(""), vec![]),
        ("$m1", MEMBER, Some("@a:b"), vec!["$c", "$m3"]),
        ("$m2", MEMBER, Some("@b:b"), vec!["$c", "$p"]),
        ("$m3", MEMBER, Some("@c:b"), vec!["$older"]),
        ("$p", POWER, Some(""), vec!["$older"]),
        ("$older", POWER, Some(""), vec![]),
    ];
    let mut walk = SenderWalk::new(&owned(&["$c", "$m1", "$m2"]));
    let asked = finish(&mut walk, &store);
    assert_eq!(found(&walk), (Some("$c"), Some("$p")));
    assert_eq!(asked, owned(&["$c", "$m1", "$m2", "$m3", "$p"]));
}

#[test]
fn power_levels_of_the_event_itself_come_first() {
    let store = vec![
        ("$m", MEMBER, Some("@a:b"), vec!["$older"]),
        ("$older", POWER, Some(""), vec![]),
        ("$c", CREATE, Some(""), vec![]),
        ("$p", POWER, Some(""), vec![]),
    ];
    let mut walk = SenderWalk::new(&owned(&["$m", "$c", "$p"]));
    assert_eq!(finish(&mut walk, &store), owned(&["$m", "$c", "$p"]));
    assert_eq!(found(&walk), (Some("$c"), Some("$p")));
}

#[test]
fn create_is_looked_for_among_the_auth_events_of_the_event_itself() {
    let store = vec![("$p", POWER, Some(""), vec!["$c"]), ("$c", CREATE, Some(""), vec![])];
    let mut walk = SenderWalk::new(&owned(&["$p"]));
    assert_eq!(finish(&mut walk, &store), owned(&["$p"]));
    assert_eq!(found(&walk), (None, Some("$p")));
    let store = vec![("$m", MEMBER, Some("@a:b"), vec!["$c"]), ("$c", CREATE, Some(""), vec![])];
    let mut walk = SenderWalk::new(&owned(&["$m"]));
    assert_eq!(finish(&mut walk, &store), owned(&["$m", "$c"]));
    assert_eq!(found(&walk), (None, None));
}

#[test]
fn no_event_is_asked_for_twice() {
    let store = vec![
        ("$a", MEMBER, Some("@a:b"), vec!["$b", "$c"]),
        ("$b", MEMBER, Some("@b:b"), vec!["$a", "$b"]),
        ("$c", MEMBER, Some("@c:b"), vec!["$a", "$d"]),
    ];
    let mut walk = SenderWalk::new(&owned(&["$a", "$b", "$a"]));
    assert_eq!(finish(&mut walk, &store), owned(&["$a", "$b", "$c", "$d"]));
    assert_eq!(found(&walk), (None, None));
}

#[test]
fn events_that_cannot_be_fetched_play_no_part() {
    let store = vec![
        ("$m", MEMBER, Some("@a:b"), vec!["$gone", "$lost", "$p", "$older"]),
        ("$c", CREATE, Some(""), vec![]),
        ("$older", POWER, Some(""), vec![]),
        ("$p", POWER, Some(""), vec![]),
    ];
    let mut walk = SenderWalk::new(&owned(&["$gone", "$m", "$away", "$c"]));
    finish(&mut walk, &store);
    let mut other = SenderWalk::new(&owned(&["$m", "$c"]));
    finish(&mut other, &store);
    assert_eq!(found(&walk), (Some("$c"), Some("$p")));
    assert_eq!(found(&other), found(&walk));
}

#[test]
fn known_create_is_not_replaced() {
    let store = vec![
        ("$c", CREATE, Some(""), vec![]),
        ("$p", POWER, Some(""), vec![]),
        ("$m", MEMBER, Some("@a:b"), vec![]),
    ];
    let mut walk = SenderWalk::with_create("$known".to_owned(), &owned(&["$c", "$p", "$m"]));
    assert_eq!(finish(&mut walk, &store), owned(&["$c", "$p"]));
    assert_eq!(found(&walk), (Some("$known"), Some("$p")));
}

#[test]
fn other_state_keys_do_not_count() {
    let store = vec![
        ("$c1", CREATE, Some("x"), vec![]),
        ("$c2", CREATE, None, vec![]),
        ("$p", POWER, None, vec![]),
    ];
    let mut walk = SenderWalk::new(&owned(&["$c1", "$c2", "$p"]));
    finish(&mut walk, &store);
    assert_eq!(found(&walk), (None, None));
}

#[test]
fn room_id_gives_the_create_event() {
    let room = "!31hneApxJ_1o-63DmFrpeqnkFfWppnzWso1JvH3ogLM";
    assert_eq!(create_event_id(room), Ok("$31hneApxJ_1o-63DmFrpeqnkFfWppnzWso1JvH3ogLM".to_owned()));
    assert_eq!(create_event_id(""), Err(NotAnEventId));
    assert_eq!(create_event_id("#alias:example.org"), Err(NotAnEventId));
    assert_eq!(create_event_id("!room:not a server"), Err(NotAnEventId));
}

#[test]
fn question_follows_from_the_creators() {
    let asked = power_query::<u8, u8, String>(Some(&1), None);
    assert!(matches!(asked, Ok(PowerQuery::UsersDefault { power_levels: Some(1) })));
    let asked = power_query::<u8, u8, String>(Some(&1), Some(Ok(7)));
    assert!(matches!(asked, Ok(PowerQuery::OfSender { power_levels: Some(1), creators: 7 })));
    let asked = power_query::<u8, u8, String>(None, Some(Ok(7)));
    assert!(matches!(asked, Ok(PowerQuery::OfSender { power_levels: None, creators: 7 })));
    let asked = power_query::<u8, u8, String>(None, Some(Err("bad".to_owned())));
    assert!(matches!(asked, Err(e) if e == "bad"));
}
