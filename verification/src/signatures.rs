//! Which signatures an event needs, and whether they hold.

use crate::ids::{ascending, lemma_listing, listing, texts};
use crate::json::{canonical_names, canonical_object, copy_object, members, remove_member, Json};
use crate::order::before;
use crate::rules::RoomRules;
use crate::text::begins;
use vstd::prelude::*;

verus! {

/// The servers that have to sign an event, in ascending order, or what is wrong
/// with the event.
pub uninterp spec fn required_servers_of(
    event: Map<Seq<char>, Json>,
    check_event_id_server: bool,
    check_join_authorised_via_users_server: bool,
) -> Result<Seq<Seq<char>>, Seq<char>>;

/// `ruma::signatures::required_server_signatures_to_verify_event`, with its
/// error in words. Which servers these are is not stated: the contract claims
/// only that they depend on nothing but the event and the two rules.
#[verifier::external_body]
fn required_servers(event: &ruma::CanonicalJsonObject, rules: &RoomRules) -> (r: Result<Vec<String>, String>)
    ensures
        r is Ok ==> required_servers_of(
            members(*event),
            rules.check_event_id_server,
            rules.check_join_authorised_via_users_server,
        ) == Ok::<Seq<Seq<char>>, Seq<char>>(texts(r->Ok_0@)),
        r is Err ==> required_servers_of(
            members(*event),
            rules.check_event_id_server,
            rules.check_join_authorised_via_users_server,
        ) == Err::<Seq<Seq<char>>, Seq<char>>(r->Err_0@),
{
    let mut signatures = ruma::room_version_rules::SignaturesRules::V1;
    signatures.check_event_id_server = rules.check_event_id_server;
    signatures.check_join_authorised_via_users_server = rules.check_join_authorised_via_users_server;
    ruma::signatures::required_server_signatures_to_verify_event(event, &signatures)
        .map(|servers| servers.iter().map(ToString::to_string).collect())
        .map_err(|e| e.to_string())
}

/// Whether a text is the id of a key that a server signs with.
pub uninterp spec fn is_signing_key_id(text: Seq<char>) -> bool;

/// What follows the first colon of a key id, where something comes before it.
pub open spec fn key_name(key_id: Seq<char>) -> Option<Seq<char>> {
    match key_id.index_of_first(':') {
        Some(i) => if i > 0 {
            Some(key_id.skip(i + 1))
        } else {
            None
        },
        None => None,
    }
}

/// Whether a name is made of one or more letters and digits of ASCII and
/// underscores.
pub open spec fn plain_name(name: Seq<char>) -> bool {
    name.len() > 0 && forall|i: int|
        0 <= i < name.len() ==> {
            ||| 'a' <= #[trigger] name[i] <= 'z'
            ||| 'A' <= name[i] <= 'Z'
            ||| '0' <= name[i] <= '9'
            ||| name[i] == '_'
        }
}

/// `ruma::ServerSigningKeyId::parse`. The contract claims that whether a text is
/// valid depends on nothing but the text; that it takes an algorithm, a colon
/// and a name that is not empty; and that every name of ASCII letters, digits
/// and underscores will do. Which other letters may stand in the name is not
/// stated.
#[verifier::external_body]
fn valid_signing_key_id(text: &str) -> (valid: bool)
    ensures
        valid == is_signing_key_id(text@),
        valid ==> key_name(text@) is Some && key_name(text@)->Some_0.len() > 0,
        key_name(text@) is Some && plain_name(key_name(text@)->Some_0) ==> valid,
{
    ruma::ServerSigningKeyId::parse(text).is_ok()
}

/// A key that has signed an event that its server has to sign.
pub struct RequiredKey {
    pub server: String,
    pub key_id: String,
}

/// The server and the id of each key of a list.
pub open spec fn key_pairs(keys: Seq<RequiredKey>) -> Seq<(Seq<char>, Seq<char>)> {
    keys.map_values(|key: RequiredKey| (key.server@, key.key_id@))
}

/// The signatures of an event, by server.
pub open spec fn signatures_of(event: Map<Seq<char>, Json>) -> Option<Map<Seq<char>, Json>> {
    match Json::Object(event).member("signatures"@) {
        Some(Json::Object(signatures)) => Some(signatures),
        _ => None,
    }
}

/// The keys that a server has signed an event with, in ascending order of their
/// ids.
pub open spec fn keys_of_server(signatures: Map<Seq<char>, Json>, server: Seq<char>) -> Seq<(Seq<char>, Seq<char>)> {
    match Json::Object(signatures).member(server) {
        Some(Json::Object(keys)) => listing(keys.dom()).filter(|id: Seq<char>| is_signing_key_id(id)).map_values(
            |id: Seq<char>| (server, id),
        ),
        _ => seq![],
    }
}

/// The keys that some servers have signed an event with, server by server.
pub open spec fn keys_of_servers(signatures: Map<Seq<char>, Json>, servers: Seq<Seq<char>>) -> Seq<
    (Seq<char>, Seq<char>),
>
    decreases servers.len(),
{
    if servers.len() == 0 {
        seq![]
    } else {
        keys_of_servers(signatures, servers.drop_last()) + keys_of_server(signatures, servers.last())
    }
}

/// Adds the keys that a server has signed an event with.
fn push_keys_of_server(keys: &mut Vec<RequiredKey>, signatures: &ruma::CanonicalJsonObject, server: &str)
    ensures
        key_pairs(final(keys)@) == key_pairs(old(keys)@) + keys_of_server(members(*signatures), server@),
{
    let ghost prior = key_pairs(keys@);
    match canonical_object(signatures, server) {
        None => {
            assert(key_pairs(keys@) =~= prior + keys_of_server(members(*signatures), server@));
        },
        Some(set) => {
            let names = canonical_names(set);
            let ghost list = texts(names@);
            let ghost valid = |id: Seq<char>| is_signing_key_id(id);
            let ghost pair = |id: Seq<char>| (server@, id);
            let mut i: usize = 0;
            proof {
                lemma_listing(list);
                reveal(Seq::filter);
                assert(key_pairs(keys@) =~= prior + list.take(0).filter(valid).map_values(pair));
            }
            while i < names.len()
                invariant
                    i <= names@.len(),
                    list == texts(names@),
                    valid == (|id: Seq<char>| is_signing_key_id(id)),
                    pair == (|id: Seq<char>| (server@, id)),
                    key_pairs(keys@) == prior + list.take(i as int).filter(valid).map_values(pair),
                decreases names.len() - i,
            {
                let name = &names[i];
                let ghost pairs = key_pairs(keys@);
                proof {
                    reveal(Seq::filter);
                    assert(list.take(i + 1).drop_last() =~= list.take(i as int));
                    assert(list.take(i + 1).last() == name@);
                }
                if valid_signing_key_id(name.as_str()) {
                    keys.push(RequiredKey { server: server.to_owned(), key_id: name.clone() });
                    assert(key_pairs(keys@) =~= pairs.push((server@, name@)));
                }
                i += 1;
                assert(key_pairs(keys@) =~= prior + list.take(i as int).filter(valid).map_values(pair));
            }
            assert(list.take(i as int) =~= list);
        },
    }
}

/// The keys whose signatures have to be checked, or what is wrong with the
/// event: those of the servers that have to sign it, as far as it bears their
/// signatures.
pub open spec fn required_keys_of(event: Map<Seq<char>, Json>, rules: RoomRules) -> Result<
    Seq<(Seq<char>, Seq<char>)>,
    Seq<char>,
> {
    match signatures_of(event) {
        None => Ok(seq![]),
        Some(signatures) => match required_servers_of(
            event,
            rules.check_event_id_server,
            rules.check_join_authorised_via_users_server,
        ) {
            Err(e) => Err(e),
            Ok(servers) => Ok(keys_of_servers(signatures, servers)),
        },
    }
}

/// Adds the keys that some servers have signed an event with.
fn keys_for_servers(signatures: &ruma::CanonicalJsonObject, servers: &Vec<String>) -> (keys: Vec<RequiredKey>)
    ensures
        key_pairs(keys@) == keys_of_servers(members(*signatures), texts(servers@)),
{
    let mut keys: Vec<RequiredKey> = Vec::new();
    let ghost list = texts(servers@);
    let mut i: usize = 0;
    assert(key_pairs(keys@) =~= keys_of_servers(members(*signatures), list.take(0)));
    while i < servers.len()
        invariant
            i <= servers@.len(),
            list == texts(servers@),
            key_pairs(keys@) == keys_of_servers(members(*signatures), list.take(i as int)),
        decreases servers.len() - i,
    {
        push_keys_of_server(&mut keys, signatures, servers[i].as_str());
        i += 1;
        proof {
            assert(list.take(i as int).drop_last() =~= list.take(i - 1));
            assert(list.take(i as int).last() == servers@[i - 1]@);
        }
    }
    assert(list.take(i as int) =~= list);
    keys
}

/// The keys whose signatures have to be checked, or what is wrong with the
/// event.
pub fn required_keys(event: &ruma::CanonicalJsonObject, rules: &RoomRules) -> (r: Result<Vec<RequiredKey>, String>)
    ensures
        match r {
            Ok(keys) => required_keys_of(members(*event), *rules) == Ok::<Seq<(Seq<char>, Seq<char>)>, Seq<char>>(
                key_pairs(keys@),
            ),
            Err(e) => required_keys_of(members(*event), *rules) == Err::<Seq<(Seq<char>, Seq<char>)>, Seq<char>>(e@),
        },
{
    match canonical_object(event, "signatures") {
        None => {
            let keys: Vec<RequiredKey> = Vec::new();
            assert(key_pairs(keys@) =~= seq![]);
            Ok(keys)
        },
        Some(signatures) => match required_servers(event, rules) {
            Err(e) => Err(e),
            Ok(servers) => Ok(keys_for_servers(signatures, &servers)),
        },
    }
}

/// What is wrong with the signatures of an object, as far as the key of one
/// server tells; nothing where they hold.
pub uninterp spec fn signature_fault(
    server: Seq<char>,
    key_id: Seq<char>,
    key: Seq<u8>,
    object: Map<Seq<char>, Json>,
) -> Option<Seq<char>>;

/// `ruma::signatures::verify_json` with a single public key, and its error in
/// words. Which signatures hold is not stated: the contract claims only that the
/// outcome depends on nothing but the key and the members of the object.
#[verifier::external_body]
fn verify_json(
    server: &str,
    key_id: &str,
    key: &Vec<u8>,
    object: &ruma::CanonicalJsonObject,
) -> (r: Result<(), String>)
    ensures
        r is Ok ==> signature_fault(server@, key_id@, key@, members(*object)) is None,
        r is Err ==> signature_fault(server@, key_id@, key@, members(*object)) == Some(r->Err_0@),
{
    let mut map = ruma::signatures::PublicKeyMap::new();
    let mut set = ruma::signatures::PublicKeySet::new();
    set.insert(key_id.to_owned(), ruma::serde::Base64::new(key.clone()));
    map.insert(server.to_owned(), set);
    ruma::signatures::verify_json(&map, object).map_err(|e| e.to_string())
}

/// A key that had to be fetched, and the key itself where it was found.
pub struct FetchedKey {
    pub server: String,
    pub key_id: String,
    pub key: Option<Vec<u8>>,
}

/// What came of checking a key.
pub enum KeyOutcome {
    Holds,
    Fails(String),
    MissingKey,
}

/// A key and what came of checking it.
pub struct CheckedKey {
    pub server: String,
    pub key_id: String,
    pub outcome: KeyOutcome,
}

/// What a [`KeyOutcome`] says.
pub enum KeyOutcomeView {
    Holds,
    Fails(Seq<char>),
    MissingKey,
}

/// What a [`CheckedKey`] says.
pub struct CheckedKeyView {
    pub server: Seq<char>,
    pub key_id: Seq<char>,
    pub outcome: KeyOutcomeView,
}

impl View for CheckedKey {
    type V = CheckedKeyView;

    open spec fn view(&self) -> CheckedKeyView {
        CheckedKeyView {
            server: self.server@,
            key_id: self.key_id@,
            outcome: match self.outcome {
                KeyOutcome::Holds => KeyOutcomeView::Holds,
                KeyOutcome::Fails(e) => KeyOutcomeView::Fails(e@),
                KeyOutcome::MissingKey => KeyOutcomeView::MissingKey,
            },
        }
    }
}

impl CheckedKeyView {
    pub open spec fn failed(self) -> bool {
        !(self.outcome is Holds)
    }

    /// The outcome in words.
    pub open spec fn words(self) -> Seq<char> {
        self.server + " ("@ + self.key_id + "): "@ + (match self.outcome {
            KeyOutcomeView::Holds => "OK"@,
            KeyOutcomeView::Fails(e) => e,
            KeyOutcomeView::MissingKey => "MISSING KEY"@,
        })
    }
}

/// What each of a list of checked keys says.
pub open spec fn outcomes(checked: Seq<CheckedKey>) -> Seq<CheckedKeyView> {
    checked.map_values(|key: CheckedKey| key@)
}

/// What comes of checking a fetched key on an object.
pub open spec fn outcome_on(key: FetchedKey, object: Map<Seq<char>, Json>) -> CheckedKeyView {
    CheckedKeyView {
        server: key.server@,
        key_id: key.key_id@,
        outcome: match key.key {
            None => KeyOutcomeView::MissingKey,
            Some(bytes) => match signature_fault(key.server@, key.key_id@, bytes@, object) {
                None => KeyOutcomeView::Holds,
                Some(e) => KeyOutcomeView::Fails(e),
            },
        },
    }
}

/// What comes of checking fetched keys on an object.
pub open spec fn outcomes_on(keys: Seq<FetchedKey>, object: Map<Seq<char>, Json>) -> Seq<CheckedKeyView> {
    keys.map_values(|key: FetchedKey| outcome_on(key, object))
}

/// The outcomes in words, with a comma between them.
pub open spec fn listed_words(checked: Seq<CheckedKeyView>) -> Seq<char>
    decreases checked.len(),
{
    if checked.len() == 0 {
        seq![]
    } else if checked.len() == 1 {
        checked[0].words()
    } else {
        listed_words(checked.drop_last()) + ", "@ + checked.last().words()
    }
}

/// What came of checking the signatures of an event.
pub struct SignatureSummary {
    pub has_failure: bool,
    /// The outcome for each key, in words.
    pub words: String,
}

impl SignatureSummary {
    /// Whether this sums up what came of checking the keys.
    pub open spec fn of(self, checked: Seq<CheckedKeyView>) -> bool {
        &&& self.has_failure <==> exists|i: int| 0 <= i < checked.len() && (#[trigger] checked[i]).failed()
        &&& self.words@ == listed_words(checked)
    }
}

fn write_words(checked: &CheckedKey) -> (words: String)
    ensures
        words@ == checked@.words(),
{
    let mut words = checked.server.clone();
    words.append(" (");
    words.append(checked.key_id.as_str());
    words.append("): ");
    match &checked.outcome {
        KeyOutcome::Holds => words.append("OK"),
        KeyOutcome::Fails(e) => words.append(e.as_str()),
        KeyOutcome::MissingKey => words.append("MISSING KEY"),
    }
    words
}

/// Sums up what came of checking some keys.
pub fn summarize(checked: &Vec<CheckedKey>) -> (summary: SignatureSummary)
    ensures
        summary.of(outcomes(checked@)),
{
    let ghost views = outcomes(checked@);
    let mut words = String::new();
    let mut has_failure = false;
    let mut i: usize = 0;
    assert(words@ =~= listed_words(views.take(0)));
    while i < checked.len()
        invariant
            i <= checked@.len(),
            views == outcomes(checked@),
            words@ == listed_words(views.take(i as int)),
            has_failure <==> exists|k: int| 0 <= k < i && (#[trigger] views[k]).failed(),
        decreases checked.len() - i,
    {
        let key = &checked[i];
        proof {
            assert(views[i as int] == key@);
            assert(views.take(i + 1).drop_last() =~= views.take(i as int));
            assert(views.take(i + 1).last() == key@);
        }
        if i > 0 {
            words.append(", ");
        }
        let entry = write_words(key);
        words.append(entry.as_str());
        match key.outcome {
            KeyOutcome::Holds => {},
            _ => {
                has_failure = true;
                assert(views[i as int].failed());
            },
        }
        i += 1;
        assert(words@ =~= listed_words(views.take(i as int)));
    }
    assert(views.take(i as int) =~= views);
    SignatureSummary { has_failure, words }
}

/// The members of an event that its signatures cover: where events do not carry
/// their own id, without it.
pub open spec fn signed_members(event: Map<Seq<char>, Json>, rules: RoomRules) -> Map<Seq<char>, Json> {
    if rules.require_event_id {
        event
    } else {
        event.remove("event_id"@)
    }
}

/// Checks one key on an object.
fn check_key(key: FetchedKey, object: &ruma::CanonicalJsonObject) -> (checked: CheckedKey)
    ensures
        checked@ == outcome_on(key, members(*object)),
{
    let FetchedKey { server, key_id, key } = key;
    let outcome = match key {
        None => KeyOutcome::MissingKey,
        Some(bytes) => match verify_json(server.as_str(), key_id.as_str(), &bytes, object) {
            Ok(()) => KeyOutcome::Holds,
            Err(e) => KeyOutcome::Fails(e),
        },
    };
    CheckedKey { server, key_id, outcome }
}

/// Checks the signatures of an event with the keys that were fetched for
/// [`required_keys`].
pub fn check_signatures(
    event: &ruma::CanonicalJsonObject,
    rules: &RoomRules,
    keys: Vec<FetchedKey>,
) -> (checked: Vec<CheckedKey>)
    ensures
        outcomes(checked@) == outcomes_on(keys@, signed_members(members(*event), *rules)),
{
    let mut object = copy_object(event);
    if !rules.require_event_id {
        remove_member(&mut object, "event_id");
    }
    let ghost all = keys@;
    let mut checked: Vec<CheckedKey> = Vec::new();
    for key in iter: keys
        invariant
            iter.seq() == all,
            checked@.len() == iter.index(),
            members(object) == signed_members(members(*event), *rules),
            forall|i: int| 0 <= i < checked@.len() ==> (#[trigger] checked@[i])@ == outcome_on(all[i], members(object)),
    {
        assert(key == all[iter.index() as int]);
        checked.push(check_key(key, &object));
    }
    assert(outcomes(checked@) =~= outcomes_on(all, members(object)));
    checked
}

/// Checks the signatures of an event and sums up what came of it.
pub fn verify_signatures(
    event: &ruma::CanonicalJsonObject,
    rules: &RoomRules,
    keys: Vec<FetchedKey>,
) -> (summary: SignatureSummary)
    ensures
        summary.of(outcomes_on(keys@, signed_members(members(*event), *rules))),
{
    let checked = check_signatures(event, rules, keys);
    summarize(&checked)
}

/// No failure is summed up exactly where every key was found and its signature
/// holds.
pub proof fn lemma_no_failure_means_all_hold(
    summary: SignatureSummary,
    keys: Seq<FetchedKey>,
    object: Map<Seq<char>, Json>,
)
    requires
        summary.of(outcomes_on(keys, object)),
    ensures
        !summary.has_failure <==> forall|i: int|
            0 <= i < keys.len() ==> ((#[trigger] keys[i]).key matches Some(bytes) && signature_fault(
                keys[i].server@,
                keys[i].key_id@,
                bytes@,
                object,
            ) is None),
{
    let views = outcomes_on(keys, object);
    assert forall|i: int| 0 <= i < keys.len() implies (#[trigger] views[i]).failed() == !(keys[i].key matches Some(bytes)
        && signature_fault(keys[i].server@, keys[i].key_id@, bytes@, object) is None) by {
        assert(views[i] == outcome_on(keys[i], object));
    }
    if !summary.has_failure {
        assert forall|i: int| 0 <= i < keys.len() implies ((#[trigger] keys[i]).key matches Some(bytes)
            && signature_fault(keys[i].server@, keys[i].key_id@, bytes@, object) is None) by {
            assert(!views[i].failed());
        }
    }
}

/// What the signatures of an event cover: every member but the id, and the id
/// exactly where events carry their own.
pub proof fn lemma_what_is_signed(event: Map<Seq<char>, Json>, rules: RoomRules, name: Seq<char>)
    ensures
        name != "event_id"@ ==> signed_members(event, rules).contains_key(name) == event.contains_key(name),
        rules.require_event_id ==> signed_members(event, rules).contains_key(name) == event.contains_key(name),
        !rules.require_event_id ==> !signed_members(event, rules).contains_key("event_id"@),
        signed_members(event, rules).contains_key(name) ==> signed_members(event, rules)[name] == event[name],
{
}

/// Which keys a server has signed an event with: the names of the members of what
/// stands under the server, where that is an object, as far as they are ids of
/// signing keys. They come in ascending order.
pub proof fn lemma_keys_of_a_server(
    signatures: Map<Seq<char>, Json>,
    server: Seq<char>,
    names: Seq<Seq<char>>,
    by: Seq<char>,
    id: Seq<char>,
)
    requires
        signatures.contains_key(server) && signatures[server] is Object ==> ascending(names) && names.to_set()
            == signatures[server]->Object_0.dom(),
    ensures
        keys_of_server(signatures, server).contains((by, id)) <==> {
            &&& by == server
            &&& signatures.contains_key(server)
            &&& signatures[server] is Object
            &&& signatures[server]->Object_0.contains_key(id)
            &&& is_signing_key_id(id)
        },
        forall|i: int, j: int|
            0 <= i < j < keys_of_server(signatures, server).len() ==> before(
                (#[trigger] keys_of_server(signatures, server)[i]).1,
                (#[trigger] keys_of_server(signatures, server)[j]).1,
            ),
{
    let pairs = keys_of_server(signatures, server);
    if signatures.contains_key(server) && signatures[server] is Object {
        let keys = signatures[server]->Object_0;
        let valid = |id: Seq<char>| is_signing_key_id(id);
        let kept = names.filter(valid);
        lemma_listing(names);
        assert(listing(keys.dom()) == names);
        assert(pairs == kept.map_values(|id: Seq<char>| (server, id)));
        if pairs.contains((by, id)) {
            let i = choose|i: int| 0 <= i < pairs.len() && pairs[i] == (by, id);
            assert(kept[i] == id);
            names.lemma_filter_pred(valid, i);
            assert(kept.contains(id));
            names.lemma_filter_contains_rev(valid, id);
            assert(names.to_set().contains(id));
        }
        if by == server && keys.contains_key(id) && is_signing_key_id(id) {
            assert(names.to_set().contains(id));
            let k = choose|k: int| 0 <= k < names.len() && names[k] == id;
            names.lemma_filter_contains(valid, k);
            let i = choose|i: int| 0 <= i < kept.len() && kept[i] == id;
            assert(pairs[i] == (server, id));
        }
        lemma_filter_keeps_order(names, valid);
        assert forall|i: int, j: int| 0 <= i < j < pairs.len() implies before(
            (#[trigger] pairs[i]).1,
            (#[trigger] pairs[j]).1,
        ) by {
            assert(before(kept[i], kept[j]));
        }
    }
}

proof fn lemma_filter_keeps_order(list: Seq<Seq<char>>, pred: spec_fn(Seq<char>) -> bool)
    requires
        ascending(list),
    ensures
        ascending(list.filter(pred)),
    decreases list.len(),
{
    reveal(Seq::filter);
    if list.len() > 0 {
        let front = list.drop_last();
        assert forall|i: int, j: int| 0 <= i < j < front.len() implies before(
            #[trigger] front[i],
            #[trigger] front[j],
        ) by {
            assert(before(list[i], list[j]));
        }
        lemma_filter_keeps_order(front, pred);
        let kept = front.filter(pred);
        let whole = list.filter(pred);
        if pred(list.last()) {
            assert forall|i: int, j: int| 0 <= i < j < whole.len() implies before(
                #[trigger] whole[i],
                #[trigger] whole[j],
            ) by {
                if j < kept.len() {
                    assert(before(kept[i], kept[j]));
                } else {
                    assert(kept.contains(kept[i]));
                    front.lemma_filter_contains_rev(pred, kept[i]);
                    let k = choose|k: int| 0 <= k < front.len() && front[k] == kept[i];
                    assert(before(list[k], list[list.len() - 1]));
                }
            }
        }
    }
}

/// The keys of two lists of servers are those of the one and then those of the
/// other; those of one server are its own.
pub proof fn lemma_keys_server_by_server(
    signatures: Map<Seq<char>, Json>,
    servers: Seq<Seq<char>>,
    more: Seq<Seq<char>>,
    server: Seq<char>,
)
    ensures
        keys_of_servers(signatures, servers + more) == keys_of_servers(signatures, servers) + keys_of_servers(
            signatures,
            more,
        ),
        keys_of_servers(signatures, seq![server]) == keys_of_server(signatures, server),
        keys_of_servers(signatures, seq![]).len() == 0,
    decreases more.len(),
{
    let one = seq![server];
    assert(one.drop_last() =~= seq![]);
    assert(keys_of_servers(signatures, seq![]) =~= seq![]);
    assert(keys_of_servers(signatures, one) =~= keys_of_server(signatures, server));
    if more.len() == 0 {
        assert(servers + more =~= servers);
        assert(keys_of_servers(signatures, servers) + keys_of_servers(signatures, more) =~= keys_of_servers(
            signatures,
            servers,
        ));
    } else {
        lemma_keys_server_by_server(signatures, servers, more.drop_last(), server);
        assert((servers + more).drop_last() =~= servers + more.drop_last());
        assert(keys_of_servers(signatures, servers + more) =~= keys_of_servers(signatures, servers) + keys_of_servers(
            signatures,
            more,
        ));
    }
}

/// When keys are required: an event without signatures requires none, whatever is
/// wrong with it otherwise; of any other event the keys are those that the servers
/// that have to sign it have signed it with, and what is wrong with it is passed
/// on.
pub proof fn lemma_when_keys_are_required(
    event: ruma::CanonicalJsonObject,
    rules: RoomRules,
    r: Result<Vec<RequiredKey>, String>,
)
    requires
        call_ensures(required_keys, (&event, &rules), r),
    ensures
        ({
            let has_signatures = members(event).contains_key("signatures"@) && members(event)["signatures"@] is Object;
            let needed = required_servers_of(
                members(event),
                rules.check_event_id_server,
                rules.check_join_authorised_via_users_server,
            );
            &&& !has_signatures ==> r is Ok && r->Ok_0@.len() == 0
            &&& has_signatures ==> (r is Ok <==> needed is Ok)
            &&& has_signatures && r is Err ==> needed->Err_0 == r->Err_0@
            &&& has_signatures && needed is Ok ==> key_pairs(r->Ok_0@) == keys_of_servers(
                members(event)["signatures"@]->Object_0,
                needed->Ok_0,
            )
            &&& has_signatures && needed is Ok && needed->Ok_0.len() == 0 ==> r->Ok_0@.len() == 0
            &&& has_signatures && needed is Ok && needed->Ok_0.len() == 1 ==> key_pairs(r->Ok_0@) == keys_of_server(
                members(event)["signatures"@]->Object_0,
                needed->Ok_0[0],
            )
            &&& r is Ok ==> forall|i: int|
                0 <= i < r->Ok_0@.len() ==> #[trigger] key_pairs(r->Ok_0@)[i] == (
                    r->Ok_0@[i].server@,
                    r->Ok_0@[i].key_id@,
                )
        }),
{
    let needed = required_servers_of(
        members(event),
        rules.check_event_id_server,
        rules.check_join_authorised_via_users_server,
    );
    if r is Ok {
        assert(key_pairs(r->Ok_0@).len() == r->Ok_0@.len());
    }
    if members(event).contains_key("signatures"@) && members(event)["signatures"@] is Object && needed is Ok {
        let signatures = members(event)["signatures"@]->Object_0;
        if needed->Ok_0.len() == 1 {
            assert(needed->Ok_0 =~= seq![needed->Ok_0[0]]);
            lemma_keys_server_by_server(signatures, seq![], seq![], needed->Ok_0[0]);
        }
    }
}

/// What the outcome for a key says in words: the server, the key and how it came
/// out, each as it is.
pub proof fn lemma_what_the_words_say(checked: CheckedKeyView)
    ensures
        begins(checked.words(), checked.server + " ("@ + checked.key_id + "): "@),
        checked.outcome is Holds ==> checked.words().skip((checked.server.len() + checked.key_id.len() + 5) as int)
            == "OK"@,
        checked.outcome is MissingKey ==> checked.words().skip(
            (checked.server.len() + checked.key_id.len() + 5) as int,
        ) == "MISSING KEY"@,
        checked.outcome matches KeyOutcomeView::Fails(e) ==> checked.words().skip(
            (checked.server.len() + checked.key_id.len() + 5) as int,
        ) == e,
        checked.failed() <==> checked.outcome is Fails || checked.outcome is MissingKey,
{
    reveal_strlit(" (");
    reveal_strlit("): ");
    let first = checked.server + " ("@ + checked.key_id + "): "@;
    let n = (checked.server.len() + checked.key_id.len() + 5) as int;
    assert(first.len() == n);
    let last = match checked.outcome {
        KeyOutcomeView::Holds => "OK"@,
        KeyOutcomeView::Fails(e) => e,
        KeyOutcomeView::MissingKey => "MISSING KEY"@,
    };
    assert(checked.words() == first + last);
    assert((first + last).take(n) =~= first);
    assert((first + last).skip(n) =~= last);
}

/// The words for two lists that both hold something are those for the one, a
/// comma, and those for the other; the words for one key are its own, and there
/// are none for no key.
pub proof fn lemma_words_one_by_one(checked: Seq<CheckedKeyView>, more: Seq<CheckedKeyView>, one: CheckedKeyView)
    requires
        checked.len() > 0,
        more.len() > 0,
    ensures
        listed_words(checked + more) == listed_words(checked) + ", "@ + listed_words(more),
        listed_words(seq![one]) == one.words(),
        listed_words(seq![]).len() == 0,
    decreases more.len(),
{
    let whole = checked + more;
    assert(whole.last() == more.last());
    if more.len() == 1 {
        assert(whole.drop_last() =~= checked);
        assert(more[0] == more.last());
    } else {
        let rest = more.drop_last();
        lemma_words_one_by_one(checked, rest, one);
        assert(whole.drop_last() =~= checked + rest);
        assert(listed_words(whole) =~= listed_words(checked) + ", "@ + listed_words(more));
    }
}

/// What comes of checking the keys that were fetched: each is checked in its
/// place, on what the signatures of the event cover. It is missing where it was not
/// found, it holds where there is nothing wrong with the signature, and it fails
/// with what is wrong otherwise.
pub proof fn lemma_each_key_is_checked(
    event: ruma::CanonicalJsonObject,
    rules: RoomRules,
    keys: Vec<FetchedKey>,
    checked: Vec<CheckedKey>,
    i: int,
)
    requires
        call_ensures(check_signatures, (&event, &rules, keys), checked),
        0 <= i < keys@.len(),
    ensures
        checked@.len() == keys@.len(),
        checked@[i].server@ == keys@[i].server@,
        checked@[i].key_id@ == keys@[i].key_id@,
        checked@[i].outcome is MissingKey <==> keys@[i].key is None,
        ({
            let covered = if rules.require_event_id {
                members(event)
            } else {
                members(event).remove("event_id"@)
            };
            keys@[i].key matches Some(key) ==> {
                let fault = signature_fault(keys@[i].server@, keys@[i].key_id@, key@, covered);
                &&& checked@[i].outcome is Holds <==> fault is None
                &&& checked@[i].outcome matches KeyOutcome::Fails(e) ==> fault == Some(e@)
            }
        }),
{
    let views = outcomes(checked@);
    let wanted = outcomes_on(keys@, signed_members(members(event), rules));
    assert(views.len() == checked@.len());
    assert(wanted.len() == keys@.len());
    assert(views[i] == checked@[i]@);
    assert(wanted[i] == outcome_on(keys@[i], signed_members(members(event), rules)));
}

/// When a check sums up to a failure: exactly where some key was not found, or
/// something is wrong with a signature.
pub proof fn lemma_when_signatures_fail(
    event: ruma::CanonicalJsonObject,
    rules: RoomRules,
    keys: Vec<FetchedKey>,
    summary: SignatureSummary,
)
    requires
        call_ensures(verify_signatures, (&event, &rules, keys), summary),
    ensures
        ({
            let covered = if rules.require_event_id {
                members(event)
            } else {
                members(event).remove("event_id"@)
            };
            &&& summary.has_failure ==> exists|i: int|
                0 <= i < keys@.len() && ((#[trigger] keys@[i]).key is None || signature_fault(
                    keys@[i].server@,
                    keys@[i].key_id@,
                    keys@[i].key->Some_0@,
                    covered,
                ) is Some)
            &&& forall|i: int|
                0 <= i < keys@.len() && ((#[trigger] keys@[i]).key is None || signature_fault(
                    keys@[i].server@,
                    keys@[i].key_id@,
                    keys@[i].key->Some_0@,
                    covered,
                ) is Some) ==> summary.has_failure
            &&& keys@.len() == 0 ==> summary.words@.len() == 0
            &&& summary.words@ == listed_words(outcomes_on(keys@, covered))
        }),
{
    lemma_no_failure_means_all_hold(summary, keys@, signed_members(members(event), rules));
    assert(outcomes_on(keys@, signed_members(members(event), rules)).len() == keys@.len());
}

/// When some outcomes sum up to a failure: exactly where one of them does not
/// hold.
pub proof fn lemma_when_outcomes_sum_up_to_failure(checked: Vec<CheckedKey>, summary: SignatureSummary)
    requires
        call_ensures(summarize, (&checked,), summary),
    ensures
        !summary.has_failure <==> forall|i: int| 0 <= i < checked@.len() ==> (#[trigger] checked@[i]).outcome is Holds,
        summary.words@ == listed_words(outcomes(checked@)),
        checked@.len() == 1 ==> begins(
            summary.words@,
            checked@[0].server@ + " ("@ + checked@[0].key_id@ + "): "@,
        ),
{
    let views = outcomes(checked@);
    assert forall|i: int| 0 <= i < checked@.len() implies views[i].failed() == !((#[trigger] checked@[i]).outcome is Holds) by {
        assert(views[i] == checked@[i]@);
    }
    if !summary.has_failure {
        assert forall|i: int| 0 <= i < checked@.len() implies (#[trigger] checked@[i]).outcome is Holds by {
            assert(!views[i].failed());
        }
    }
    if checked@.len() == 1 {
        assert(views[0] == checked@[0]@);
        lemma_what_the_words_say(views[0]);
    }
}

} // verus!
