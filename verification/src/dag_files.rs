//! Which events an export of the event graph of a room covers, and what its
//! files are called.

use crate::ids::texts;
use crate::text::{begins, decimal, ends, lemma_parts_are_held, optional_str, push_decimal, same};
use vstd::prelude::*;

verus! {

/// The ids of the entries that could be read, in their order.
pub open spec fn readable_ids<E>(entries: Seq<Result<String, E>>) -> Seq<Seq<char>>
    decreases entries.len(),
{
    if entries.len() == 0 {
        seq![]
    } else {
        let rest = readable_ids(entries.drop_last());
        match entries.last() {
            Ok(id) => rest.push(id@),
            Err(_) => rest,
        }
    }
}

/// The ids of the events of a timeline; entries that could not be read are left
/// out.
pub fn collect_pdu_ids<E>(entries: Vec<Result<String, E>>) -> (ids: Vec<String>)
    ensures
        texts(ids@) == readable_ids(entries@),
{
    let ghost all = entries@;
    let mut ids: Vec<String> = Vec::new();
    assert(texts(ids@) =~= readable_ids(all.take(0)));
    for entry in iter: entries
        invariant
            iter.seq() == all,
            texts(ids@) == readable_ids(all.take(iter.index() as int)),
    {
        let ghost at = iter.index() as int;
        let ghost prior = ids@;
        proof {
            assert(entry == all[at]);
            assert(all.take(at + 1).drop_last() =~= all.take(at));
        }
        match entry {
            Ok(id) => {
                let ghost text = id@;
                ids.push(id);
                assert(texts(ids@) =~= texts(prior).push(text));
            },
            Err(_) => {},
        }
    }
    assert(all.take(all.len() as int) =~= all);
    ids
}

/// An event outside of the timeline.
pub struct Outlier {
    pub event_id: String,
    pub room_id: String,
}

/// The ids of the outliers of a room that could be read, in their order.
pub open spec fn outlier_ids_of<E>(entries: Seq<Result<Outlier, E>>, room_id: Seq<char>) -> Seq<Seq<char>>
    decreases entries.len(),
{
    if entries.len() == 0 {
        seq![]
    } else {
        let rest = outlier_ids_of(entries.drop_last(), room_id);
        match entries.last() {
            Ok(outlier) => if outlier.room_id@ == room_id {
                rest.push(outlier.event_id@)
            } else {
                rest
            },
            Err(_) => rest,
        }
    }
}

/// The ids of the outliers of a room; entries that could not be read, and
/// events of other rooms, are left out.
pub fn collect_outlier_ids<E>(entries: Vec<Result<Outlier, E>>, room_id: &str) -> (ids: Vec<String>)
    ensures
        texts(ids@) == outlier_ids_of(entries@, room_id@),
{
    let ghost all = entries@;
    let mut ids: Vec<String> = Vec::new();
    assert(texts(ids@) =~= outlier_ids_of(all.take(0), room_id@));
    for entry in iter: entries
        invariant
            iter.seq() == all,
            texts(ids@) == outlier_ids_of(all.take(iter.index() as int), room_id@),
    {
        let ghost at = iter.index() as int;
        let ghost prior = ids@;
        proof {
            assert(entry == all[at]);
            assert(all.take(at + 1).drop_last() =~= all.take(at));
        }
        match entry {
            Ok(outlier) => {
                if same(outlier.room_id.as_str(), room_id) {
                    let ghost text = outlier.event_id@;
                    ids.push(outlier.event_id);
                    assert(texts(ids@) =~= texts(prior).push(text));
                }
            },
            Err(_) => {},
        }
    }
    assert(all.take(all.len() as int) =~= all);
    ids
}

/// The place of the first event of an export among `len` events: a negative
/// start counts from the end.
pub open spec fn first_place(start: i64, len: nat) -> int {
    if start >= 0 {
        start as int
    } else if len + start >= 0 {
        len + start
    } else {
        0
    }
}

/// Whether an export covers the event at a place: none before the start, and
/// none after the end unless that is negative.
pub open spec fn covers(start: i64, end: i64, len: nat, place: int) -> bool {
    first_place(start, len) <= place && (end < 0 || place <= end)
}

/// Part of a list: from one place up to another, the latter left out.
pub struct Window {
    pub from: usize,
    pub to: usize,
}

/// The place after the last event of an export among `len` events.
pub open spec fn end_place(end: i64, len: nat) -> int {
    if end < 0 || end >= len {
        len as int
    } else {
        end + 1
    }
}

/// The part of `len` events that an export covers.
pub fn export_window(start: i64, end: i64, len: usize) -> (window: Window)
    ensures
        window.to == end_place(end, len as nat),
        window.from == if first_place(start, len as nat) < window.to {
            first_place(start, len as nat)
        } else {
            window.to as int
        },
{
    let actual_start: u64 = if start >= 0 {
        start as u64
    } else if start == i64::MIN {
        (len as u64).saturating_sub(9223372036854775808u64)
    } else {
        (len as u64).saturating_sub((-start) as u64)
    };
    let to: usize = if end < 0 || end as u64 >= len as u64 {
        len
    } else {
        end as usize + 1
    };
    let from: usize = if actual_start >= to as u64 {
        to
    } else {
        actual_start as usize
    };
    Window { from, to }
}

/// The ids that an export covers.
pub open spec fn covered_ids(ids: Seq<Seq<char>>, start: i64, end: i64) -> Seq<Seq<char>> {
    let to = end_place(end, ids.len());
    let first = first_place(start, ids.len());
    ids.subrange(
        if first < to {
            first
        } else {
            to
        },
        to,
    )
}

/// The part that [`export_window`] picks holds exactly the places that an export
/// covers.
pub proof fn lemma_window_is_what_is_covered(start: i64, end: i64, len: nat, place: int)
    requires
        0 <= place < len,
    ensures
        covers(start, end, len, place) <==> first_place(start, len) <= place < end_place(end, len),
{
}

/// A text without one of its characters.
pub open spec fn without(text: Seq<char>, c: char) -> Seq<char> {
    text.filter(|x: char| x != c)
}

/// A text with one of its characters in place of another.
pub open spec fn with_char(text: Seq<char>, c: char, by: char) -> Seq<char> {
    text.map_values(|x: char| if x == c { by } else { x })
}

/// A room id as part of a file name.
pub open spec fn safe_name(room_id: Seq<char>) -> Seq<char> {
    with_char(without(room_id, '!'), ':', '_')
}

fn safe_room_id(room_id: &str) -> (name: String)
    ensures
        name@ == safe_name(room_id@),
{
    let ghost text = room_id@;
    let n = room_id.unicode_len();
    let mut name = String::new();
    let mut i: usize = 0;
    proof {
        reveal(Seq::filter);
        assert(name@ =~= safe_name(text.take(0)));
    }
    while i < n
        invariant
            text == room_id@,
            n == text.len(),
            i <= n,
            name@ == safe_name(text.take(i as int)),
        decreases n - i,
    {
        let c = room_id.get_char(i);
        let ghost prior = name@;
        proof {
            reveal(Seq::filter);
            reveal_strlit("_");
            assert(text.take(i + 1).drop_last() =~= text.take(i as int));
            assert(text.take(i + 1).last() == c);
        }
        if c != '!' {
            if c == ':' {
                name.append("_");
                assert(name@ =~= prior.push('_'));
            } else {
                name.append(room_id.substring_char(i, i + 1));
                assert(name@ =~= prior.push(c));
            }
        }
        i += 1;
        assert(name@ =~= safe_name(text.take(i as int)));
    }
    assert(text.take(i as int) =~= text);
    name
}

/// What the names of the files of an export begin with.
pub open spec fn stem(room_id: Seq<char>, room_version: Option<Seq<char>>, server: Seq<char>) -> Seq<char> {
    "local-dag-"@ + safe_name(room_id) + "-v"@ + (match room_version {
        Some(version) => version,
        None => "unknown"@,
    }) + "-"@ + server
}

fn file_stem(room_id: &str, room_version: Option<&str>, server: &str) -> (name: String)
    ensures
        name@ == stem(
            room_id@,
            optional_str(room_version),
            server@,
        ),
{
    let mut name = "local-dag-".to_owned();
    let safe = safe_room_id(room_id);
    name.append(safe.as_str());
    name.append("-v");
    match room_version {
        Some(version) => name.append(version),
        None => name.append("unknown"),
    }
    name.append("-");
    name.append(server);
    name
}

/// The names of the files that an export is written to.
pub struct ExportFiles {
    pub timeline: String,
    pub outliers: String,
}

/// Names the files that an export is written to; the version of the room may be
/// unknown.
pub fn export_files(room_id: &str, room_version: Option<&str>, server: &str) -> (files: ExportFiles)
    ensures
        ({
            let version = optional_str(room_version);
            &&& files.timeline@ == stem(room_id@, version, server@) + ".jsonl"@
            &&& files.outliers@ == stem(room_id@, version, server@) + "-outliers.jsonl"@
        }),
{
    let mut timeline = file_stem(room_id, room_version, server);
    let mut outliers = timeline.clone();
    timeline.append(".jsonl");
    outliers.append("-outliers.jsonl");
    ExportFiles { timeline, outliers }
}

/// The least depth as the name of a file gives it: zero where there is none.
pub open spec fn shown_min_depth(min_depth: u64) -> u64 {
    if min_depth == u64::MAX {
        0
    } else {
        min_depth
    }
}

/// Names the file of the timeline once the depths of its events are known.
pub fn final_file(
    room_id: &str,
    room_version: Option<&str>,
    server: &str,
    min_depth: u64,
    max_depth: u64,
) -> (name: String)
    ensures
        name@ == stem(
            room_id@,
            optional_str(room_version),
            server@,
        ) + "-d"@ + decimal(shown_min_depth(min_depth) as nat) + "-"@ + decimal(max_depth as nat) + ".jsonl"@,
{
    let mut name = file_stem(room_id, room_version, server);
    name.append("-d");
    push_decimal(
        &mut name,
        if min_depth == u64::MAX {
            0
        } else {
            min_depth
        },
    );
    name.append("-");
    push_decimal(&mut name, max_depth);
    name.append(".jsonl");
    name
}

/// The part of a file name that stands for a room holds neither of the
/// characters that a room id has and a file name should not.
pub proof fn lemma_safe_name_is_safe(room_id: Seq<char>)
    ensures
        !safe_name(room_id).contains('!'),
        !safe_name(room_id).contains(':'),
{
    let kept = without(room_id, '!');
    broadcast use Seq::lemma_filter_pred;

    assert forall|i: int| 0 <= i < safe_name(room_id).len() implies safe_name(room_id)[i] != '!' && safe_name(room_id)[i]
        != ':' by {
        assert((|x: char| x != '!')(kept[i]));
    }
}

/// The file that the report names: the one under its final name, unless the
/// export could not be moved there.
pub fn display_path(moved: bool, final_path: String, path: String) -> (shown: String)
    ensures
        shown == if moved {
            final_path
        } else {
            path
        },
{
    if moved {
        final_path
    } else {
        path
    }
}

/// The ids of entries are collected one after the other: an entry that could be
/// read gives its id, any other nothing.
pub proof fn lemma_ids_one_by_one<E>(entries: Seq<Result<String, E>>, more: Seq<Result<String, E>>, one: Result<String, E>)
    ensures
        readable_ids(entries + more) == readable_ids(entries) + readable_ids(more),
        one matches Ok(id) ==> readable_ids(seq![one]) == seq![id@],
        one is Err ==> readable_ids(seq![one]).len() == 0,
    decreases more.len(),
{
    let single = seq![one];
    assert(single.drop_last() =~= seq![]);
    assert(readable_ids::<E>(seq![]) =~= seq![]);
    assert(single.last() == one);
    if one is Ok {
        assert(readable_ids(single) =~= seq![one->Ok_0@]);
    }
    if more.len() == 0 {
        assert(entries + more =~= entries);
        assert(readable_ids(entries) + readable_ids(more) =~= readable_ids(entries));
    } else {
        lemma_ids_one_by_one(entries, more.drop_last(), one);
        assert((entries + more).drop_last() =~= entries + more.drop_last());
        assert(readable_ids(entries + more) =~= readable_ids(entries) + readable_ids(more));
    }
}

/// Where all entries can be read, there is one id for each, in its place.
pub proof fn lemma_all_read_ids_keep_their_places<E>(entries: Vec<Result<String, E>>, ids: Vec<String>)
    requires
        call_ensures(collect_pdu_ids::<E>, (entries,), ids),
        forall|i: int| 0 <= i < entries@.len() ==> (#[trigger] entries@[i]) is Ok,
    ensures
        ids@.len() == entries@.len(),
        forall|i: int| 0 <= i < ids@.len() ==> (#[trigger] ids@[i])@ == entries@[i]->Ok_0@,
{
    lemma_all_readable(entries@);
    assert(texts(ids@).len() == ids@.len());
    assert forall|i: int| 0 <= i < ids@.len() implies (#[trigger] ids@[i])@ == entries@[i]->Ok_0@ by {
        assert(texts(ids@)[i] == ids@[i]@);
        assert(readable_ids(entries@)[i] == entries@[i]->Ok_0@);
    }
}

proof fn lemma_all_readable<E>(entries: Seq<Result<String, E>>)
    requires
        forall|i: int| 0 <= i < entries.len() ==> (#[trigger] entries[i]) is Ok,
    ensures
        readable_ids(entries).len() == entries.len(),
        forall|i: int| 0 <= i < entries.len() ==> #[trigger] readable_ids(entries)[i] == entries[i]->Ok_0@,
    decreases entries.len(),
{
    if entries.len() > 0 {
        let front = entries.drop_last();
        assert forall|i: int| 0 <= i < front.len() implies (#[trigger] front[i]) is Ok by {
            assert(entries[i] is Ok);
        }
        lemma_all_readable(front);
        assert(entries[entries.len() - 1] is Ok);
        assert forall|i: int| 0 <= i < entries.len() implies #[trigger] readable_ids(entries)[i] == entries[i]->Ok_0@ by {
            if i < front.len() {
                assert(readable_ids(entries)[i] == readable_ids(front)[i]);
                assert(front[i] == entries[i]);
            }
        }
    }
}

/// The outliers of a room are collected one after the other: one that could be read
/// and is of the room gives its id; any other gives nothing.
pub proof fn lemma_outlier_ids_one_by_one<E>(
    entries: Seq<Result<Outlier, E>>,
    more: Seq<Result<Outlier, E>>,
    one: Result<Outlier, E>,
    room_id: Seq<char>,
)
    ensures
        outlier_ids_of(entries + more, room_id) == outlier_ids_of(entries, room_id) + outlier_ids_of(more, room_id),
        one matches Ok(outlier) ==> (outlier.room_id@ == room_id ==> outlier_ids_of(seq![one], room_id)
            == seq![outlier.event_id@]),
        one matches Ok(outlier) ==> (outlier.room_id@ != room_id ==> outlier_ids_of(seq![one], room_id).len() == 0),
        one is Err ==> outlier_ids_of(seq![one], room_id).len() == 0,
    decreases more.len(),
{
    let single = seq![one];
    assert(single.drop_last() =~= seq![]);
    assert(outlier_ids_of::<E>(seq![], room_id) =~= seq![]);
    assert(single.last() == one);
    if one is Ok {
        assert(Seq::<Seq<char>>::empty().push(one->Ok_0.event_id@) =~= seq![one->Ok_0.event_id@]);
    }
    if more.len() == 0 {
        assert(entries + more =~= entries);
        assert(outlier_ids_of(entries, room_id) + outlier_ids_of(more, room_id) =~= outlier_ids_of(entries, room_id));
    } else {
        lemma_outlier_ids_one_by_one(entries, more.drop_last(), one, room_id);
        assert((entries + more).drop_last() =~= entries + more.drop_last());
        assert(outlier_ids_of(entries + more, room_id) =~= outlier_ids_of(entries, room_id) + outlier_ids_of(
            more,
            room_id,
        ));
    }
}

/// Whose ids are collected: exactly those of the outliers that could be read and
/// are of the room.
pub proof fn lemma_whose_outlier_ids_are_collected<E>(
    entries: Vec<Result<Outlier, E>>,
    room_id: &str,
    ids: Vec<String>,
)
    requires
        call_ensures(collect_outlier_ids::<E>, (entries, room_id), ids),
    ensures
        ids@.len() <= entries@.len(),
        forall|i: int|
            0 <= i < entries@.len() && (#[trigger] entries@[i]) is Ok && entries@[i]->Ok_0.room_id@ == room_id@
                ==> texts(ids@).contains(entries@[i]->Ok_0.event_id@),
        forall|id: Seq<char>| #[trigger]
            texts(ids@).contains(id) ==> exists|i: int|
                0 <= i < entries@.len() && (#[trigger] entries@[i]) is Ok && entries@[i]->Ok_0.room_id@ == room_id@
                    && entries@[i]->Ok_0.event_id@ == id,
{
    lemma_outliers_collected(entries@, room_id@);
    assert(texts(ids@).len() == ids@.len());
}

proof fn lemma_outliers_collected<E>(entries: Seq<Result<Outlier, E>>, room_id: Seq<char>)
    ensures
        outlier_ids_of(entries, room_id).len() <= entries.len(),
        forall|i: int|
            0 <= i < entries.len() && (#[trigger] entries[i]) is Ok && entries[i]->Ok_0.room_id@ == room_id
                ==> outlier_ids_of(entries, room_id).contains(entries[i]->Ok_0.event_id@),
        forall|id: Seq<char>| #[trigger]
            outlier_ids_of(entries, room_id).contains(id) ==> exists|i: int|
                0 <= i < entries.len() && (#[trigger] entries[i]) is Ok && entries[i]->Ok_0.room_id@ == room_id
                    && entries[i]->Ok_0.event_id@ == id,
    decreases entries.len(),
{
    if entries.len() > 0 {
        let front = entries.drop_last();
        let part = outlier_ids_of(front, room_id);
        let whole = outlier_ids_of(entries, room_id);
        let last = entries.len() - 1;
        lemma_outliers_collected(front, room_id);
        assert(entries[last] == entries.last());
        assert forall|id: Seq<char>| part.contains(id) implies whole.contains(id) by {
            let k = choose|k: int| 0 <= k < part.len() && part[k] == id;
            assert(whole[k] == id);
        }
        assert forall|i: int|
            0 <= i < entries.len() && (#[trigger] entries[i]) is Ok && entries[i]->Ok_0.room_id@ == room_id implies whole.contains(
            entries[i]->Ok_0.event_id@) by {
            if i < last {
                assert(front[i] == entries[i]);
            } else {
                assert(whole[part.len() as int] == entries[i]->Ok_0.event_id@);
            }
        }
        assert forall|id: Seq<char>| #[trigger] whole.contains(id) implies exists|i: int|
            0 <= i < entries.len() && (#[trigger] entries[i]) is Ok && entries[i]->Ok_0.room_id@ == room_id
                && entries[i]->Ok_0.event_id@ == id by {
            if part.contains(id) {
                let i = choose|i: int|
                    0 <= i < front.len() && (#[trigger] front[i]) is Ok && front[i]->Ok_0.room_id@ == room_id
                        && front[i]->Ok_0.event_id@ == id;
                assert(entries[i] == front[i]);
            } else {
                let k = choose|k: int| 0 <= k < whole.len() && whole[k] == id;
                if k < part.len() {
                    assert(part[k] == id);
                }
                assert(entries[last] is Ok);
            }
        }
    }
}

/// What an export covers. A start of zero or more is a place of its own; a negative
/// one counts from the end, and reaches no further than the first event. An end of
/// zero or more is the place of the last event; a negative one means all of them.
pub proof fn lemma_what_a_window_holds(start: i64, end: i64, len: usize, window: Window, place: int)
    requires
        call_ensures(export_window, (start, end, len), window),
        0 <= place < len,
    ensures
        window.from <= window.to <= len,
        window.from <= place < window.to <==> {
            &&& start >= 0 ==> start <= place
            &&& start < 0 ==> len + start <= place
            &&& end >= 0 ==> place <= end
        },
        window.from <= place < window.to <==> covers(start, end, len as nat, place),
{
}

/// The ids that an export covers are those in its window, in their order.
pub proof fn lemma_covered_ids_are_those_in_the_window(
    ids: Seq<Seq<char>>,
    start: i64,
    end: i64,
    len: usize,
    window: Window,
)
    requires
        call_ensures(export_window, (start, end, len), window),
        len == ids.len(),
    ensures
        covered_ids(ids, start, end).len() == window.to - window.from,
        forall|i: int|
            0 <= i < covered_ids(ids, start, end).len() ==> #[trigger] covered_ids(ids, start, end)[i] == ids[window.from
                + i],
        start == 0 && end < 0 ==> covered_ids(ids, start, end) == ids,
{
    if start == 0 && end < 0 {
        assert(covered_ids(ids, start, end) =~= ids);
    }
}

/// A room id becomes part of a file name character by character: the sigil gives
/// nothing, a colon gives an underscore, and any other character stays.
pub proof fn lemma_safe_names_char_by_char(room_id: Seq<char>, more: Seq<char>, c: char)
    ensures
        safe_name(room_id + more) == safe_name(room_id) + safe_name(more),
        c == '!' ==> safe_name(seq![c]).len() == 0,
        c == ':' ==> safe_name(seq![c]) == seq!['_'],
        c != '!' && c != ':' ==> safe_name(seq![c]) == seq![c],
    decreases more.len(),
{
    reveal(Seq::filter);
    let one = seq![c];
    assert(one.drop_last() =~= seq![]);
    assert(without(seq![], '!') =~= seq![]);
    assert(without(one, '!') =~= if c != '!' {
        seq![c]
    } else {
        seq![]
    });
    assert(safe_name(one) =~= if c == '!' {
        seq![]
    } else if c == ':' {
        seq!['_']
    } else {
        seq![c]
    });
    if more.len() == 0 {
        assert(room_id + more =~= room_id);
        assert(safe_name(room_id) + safe_name(more) =~= safe_name(room_id));
    } else {
        lemma_safe_names_char_by_char(room_id, more.drop_last(), c);
        assert((room_id + more).drop_last() =~= room_id + more.drop_last());
        assert(safe_name(room_id + more) =~= safe_name(room_id) + safe_name(more));
    }
}

/// What the files of an export are called: both names begin with the room, the
/// version of the room, which may be unknown, and the server, and the one for the
/// outliers says so. An unknown version is called as much.
pub proof fn lemma_what_the_files_are_called(room_id: &str, room_version: Option<&str>, server: &str, files: ExportFiles)
    requires
        call_ensures(export_files, (room_id, room_version, server), files),
    ensures
        begins(files.timeline@, "local-dag-"@ + safe_name(room_id@) + "-v"@),
        begins(files.outliers@, "local-dag-"@ + safe_name(room_id@) + "-v"@),
        ends(files.timeline@, "-"@ + server@ + ".jsonl"@),
        ends(files.outliers@, "-"@ + server@ + "-outliers.jsonl"@),
        files.timeline@.take(files.timeline@.len() - 6) == files.outliers@.take(files.outliers@.len() - 15),
        ({
            let at = (safe_name(room_id@).len() + 12) as int;
            let rest = files.timeline@.skip(at);
            &&& room_version matches Some(version) ==> rest == version@ + "-"@ + server@ + ".jsonl"@
            &&& room_version is None ==> rest == "unknown"@ + "-"@ + server@ + ".jsonl"@
        }),
{
    reveal_strlit("local-dag-");
    reveal_strlit("-v");
    reveal_strlit(".jsonl");
    reveal_strlit("-outliers.jsonl");
    let version = match room_version {
        Some(version) => version@,
        None => "unknown"@,
    };
    let first = "local-dag-"@ + safe_name(room_id@) + "-v"@;
    let name = stem(room_id@, optional_str(room_version), server@);
    let last = "-"@ + server@ + ".jsonl"@;
    let other = "-"@ + server@ + "-outliers.jsonl"@;
    assert(name == first + version + "-"@ + server@);
    assert(files.timeline@ =~= first + version + last);
    lemma_parts_are_held(first, version, last);
    assert(files.outliers@ =~= first + version + other);
    lemma_parts_are_held(first, version, other);
    assert(files.timeline@.take(files.timeline@.len() - 6) =~= name);
    assert(files.outliers@.take(files.outliers@.len() - 15) =~= name);
    assert(first.len() == safe_name(room_id@).len() + 12);
    assert(files.timeline@.skip(first.len() as int) =~= version + last);
    assert(version + last =~= version + "-"@ + server@ + ".jsonl"@);
}

/// What the file of the timeline is called in the end: by the least and the
/// greatest depth of its events, after what it was called before. Where there was no
/// event, the least depth is given as zero.
pub proof fn lemma_what_the_final_file_is_called(
    room_id: &str,
    room_version: Option<&str>,
    server: &str,
    min_depth: u64,
    max_depth: u64,
    files: ExportFiles,
    name: String,
)
    requires
        call_ensures(export_files, (room_id, room_version, server), files),
        call_ensures(final_file, (room_id, room_version, server, min_depth, max_depth), name),
    ensures
        begins(name@, files.timeline@.take(files.timeline@.len() - 6)),
        ({
            let rest = name@.skip(files.timeline@.len() - 6);
            let least: nat = if min_depth == 0xffff_ffff_ffff_ffff {
                0
            } else {
                min_depth as nat
            };
            rest == "-d"@ + decimal(least) + "-"@ + decimal(max_depth as nat) + ".jsonl"@
        }),
        min_depth < 0xffff_ffff_ffff_ffff ==> shown_min_depth(min_depth) == min_depth,
        min_depth == 0xffff_ffff_ffff_ffff ==> shown_min_depth(min_depth) == 0,
{
    reveal_strlit(".jsonl");
    let before = stem(room_id@, optional_str(room_version), server@);
    assert(files.timeline@.take(files.timeline@.len() - 6) =~= before);
    let rest = "-d"@ + decimal(shown_min_depth(min_depth) as nat) + "-"@ + decimal(max_depth as nat) + ".jsonl"@;
    assert(name@ =~= before + rest);
    assert(name@.take(before.len() as int) =~= before);
    assert(name@.skip(before.len() as int) =~= rest);
}

/// The report names the file where it is.
pub proof fn lemma_the_report_names_the_file(moved: bool, final_path: String, path: String, shown: String)
    requires
        call_ensures(display_path, (moved, final_path, path), shown),
    ensures
        moved ==> shown@ == final_path@,
        !moved ==> shown@ == path@,
{
}

} // verus!
