//! What an export of the event graph of a room reports at its end.

use crate::dag_stats::{DagExportStats, DagExportView};
use crate::text::{
    all_digits, begins, decimal, decimal_value, ends, field_line, holds, lemma_decimal_reads_back, lemma_parts_are_held,
    lemma_three_digits_read_back, optional_str, push_decimal, push_field, push_number_field, push_three_digits, same,
    three_digits, write_decimal,
};
use vstd::prelude::*;

verus! {

/// A look-up in the state of the room.
pub struct TipQuestion {
    pub room_ssh: u64,
    pub event_type: String,
    pub state_key: String,
}

/// Whether the state of the room is known and is not the one before the last
/// event, and the last event is a state event of which all is known: then the
/// state of the room may be the one after it.
pub open spec fn tip_is_open(stats: DagExportView, room_ssh: Option<u64>) -> bool {
    &&& stats.last_ssh matches Some(tip) && room_ssh matches Some(room) && tip != room
    &&& stats.last_is_state_event
    &&& stats.last_event_id is Some
    &&& stats.last_event_type is Some
    &&& stats.last_state_key is Some
}

/// What has to be looked up in the state of the room before the tip can be
/// judged.
pub fn tip_question(stats: &DagExportStats, room_ssh: Option<u64>) -> (question: Option<TipQuestion>)
    ensures
        question is Some <==> tip_is_open(stats@, room_ssh),
        question matches Some(q) ==> {
            &&& Some(q.room_ssh) == room_ssh
            &&& Some(q.event_type@) == stats@.last_event_type
            &&& Some(q.state_key@) == stats@.last_state_key
        },
{
    match (stats.last_ssh, room_ssh) {
        (Some(tip), Some(room)) => {
            if tip == room || !stats.last_is_state_event || stats.last_event_id.is_none() {
                return None;
            }
            match (&stats.last_event_type, &stats.last_state_key) {
                (Some(event_type), Some(state_key)) => Some(
                    TipQuestion { room_ssh: room, event_type: event_type.clone(), state_key: state_key.clone() },
                ),
                _ => None,
            }
        },
        _ => None,
    }
}

/// How the last event of an export stands to the state of the room. `found` is
/// the event that the state of the room names where the last event is looked
/// up.
pub open spec fn tip_status(stats: DagExportView, room_ssh: Option<u64>, found: Option<Seq<char>>) -> Seq<char> {
    match (stats.last_ssh, room_ssh) {
        (Some(tip), Some(room)) => if tip == room {
            "✓ tip matches room state"@
        } else if !stats.last_is_state_event {
            "✗ tip DIVERGES from room state"@
        } else if !tip_is_open(stats, room_ssh) {
            "✗ tip DIVERGES from room state (state event but missing metadata)"@
        } else if found == stats.last_event_id {
            "✓ tip is state event — room state includes tip (pre="@ + decimal(tip as nat) + " post="@ + decimal(
                room as nat,
            ) + ")"@
        } else {
            "✗ tip DIVERGES — room state at ("@ + stats.last_event_type->Some_0 + ", "@ + stats.last_state_key->Some_0
                + ") does not point to tip event "@ + stats.last_event_id->Some_0
        },
        _ => "? unknown"@,
    }
}

/// Judges how the last event of an export stands to the state of the room.
/// `found` is the answer to [`tip_question`], where there is one.
pub fn determine_tip_match(stats: &DagExportStats, room_ssh: Option<u64>, found: Option<&str>) -> (status: String)
    ensures
        status@ == tip_status(
            stats@,
            room_ssh,
            optional_str(found),
        ),
{
    let (tip, room) = match (stats.last_ssh, room_ssh) {
        (Some(tip), Some(room)) => (tip, room),
        _ => {
            return "? unknown".to_owned();
        },
    };
    if tip == room {
        return "✓ tip matches room state".to_owned();
    }
    if !stats.last_is_state_event {
        return "✗ tip DIVERGES from room state".to_owned();
    }
    let ghost answer = optional_str(found);
    match (&stats.last_event_id, &stats.last_event_type, &stats.last_state_key) {
        (Some(last_eid), Some(last_type), Some(last_sk)) => {
            let room_has_tip = match found {
                Some(id) => same(id, last_eid.as_str()),
                None => false,
            };
            assert(room_has_tip == (answer == stats@.last_event_id));
            if room_has_tip {
                let mut out = "✓ tip is state event — room state includes tip (pre=".to_owned();
                push_decimal(&mut out, tip);
                out.append(" post=");
                push_decimal(&mut out, room);
                out.append(")");
                out
            } else {
                let mut out = "✗ tip DIVERGES — room state at (".to_owned();
                out.append(last_type.as_str());
                out.append(", ");
                out.append(last_sk.as_str());
                out.append(") does not point to tip event ");
                out.append(last_eid.as_str());
                out
            }
        },
        _ => "✗ tip DIVERGES from room state (state event but missing metadata)".to_owned(),
    }
}

/// In an export, whatever it holds, a last event that is a state event never
/// lacks its id, type or state key: it is looked up, or needs no look-up.
pub proof fn lemma_metadata_is_never_missing(stats: DagExportView, room_ssh: Option<u64>)
    requires
        stats.consistent(),
    ensures
        stats.last_is_state_event && stats.last_ssh is Some && room_ssh is Some ==> stats.last_ssh == room_ssh
            || tip_is_open(stats, room_ssh),
{
}

/// A ratio in thousandths, rounded down; as far as the number reaches, and zero
/// where there is nothing to divide by.
pub open spec fn thousandths(a: u64, b: u64) -> nat {
    if b == 0 {
        0
    } else if a * 1000 > u64::MAX {
        (u64::MAX / b) as nat
    } else {
        (a * 1000 / b as int) as nat
    }
}

fn ratio(a: u64, b: u64) -> (scaled: u64)
    ensures
        scaled == thousandths(a, b),
{
    if b == 0 {
        return 0;
    }
    let product: u64 = match a.checked_mul(1000) {
        Some(product) => product,
        None => u64::MAX,
    };
    product / b
}

/// A ratio in thousandths, written with a decimal point.
pub open spec fn ratio_text(scaled: nat) -> Seq<char> {
    decimal(scaled / 1000) + "."@ + three_digits(scaled % 1000)
}

fn write_ratio(scaled: u64) -> (text: String)
    ensures
        text@ == ratio_text(scaled as nat),
{
    let mut text = write_decimal(scaled / 1000);
    text.append(".");
    push_three_digits(&mut text, scaled % 1000);
    text
}

/// The line for a number that may be unknown.
pub open spec fn known_number_line(label: Seq<char>, value: Option<u64>) -> Seq<char> {
    match value {
        Some(n) => field_line(label, decimal(n as nat)),
        None => seq![],
    }
}

/// The number of events that no other event of the export names as a previous
/// event.
pub open spec fn heads(stats: DagExportView) -> nat {
    stats.all_event_ids.difference(stats.referenced_as_prev).len()
}

/// How branched and how deep the graph is.
pub open spec fn shape_lines(stats: DagExportView) -> Seq<char> {
    field_line(
        "Branching:      "@,
        ratio_text(thousandths(stats.total_prev_events, stats.count)) + " avg prev_events/PDU"@,
    ) + field_line(
        "Frag factor:    "@,
        ratio_text(thousandths(stats.count, stats.max_depth)) + " ("@ + decimal(stats.count as nat) + " events / "@
            + decimal(stats.max_depth as nat) + " depth, "@ + decimal(heads(stats)) + " heads)"@,
    )
}

/// The report of an export.
pub open spec fn stats_report(
    stats: DagExportView,
    room_ssh: Option<u64>,
    tip_match: Seq<char>,
    display_path: Seq<char>,
) -> Seq<char> {
    "Wrote "@ + decimal(stats.count as nat) + " PDUs to "@ + display_path + "\n```\n"@ + field_line(
        "PDUs:           "@,
        decimal(stats.count as nat),
    ) + field_line("State events:   "@, decimal(stats.state_events as nat)) + shape_lines(stats) + field_line(
        "Unique states:  "@,
        decimal(stats.unique_hashes.len()),
    ) + field_line("Missing hash:   "@, decimal(stats.missing_hash as nat)) + known_number_line(
        "Tip SSH:        "@,
        stats.last_ssh,
    ) + known_number_line("Room SSH:       "@, room_ssh) + field_line("Status:         "@, tip_match) + "```\n"@
}

fn push_known_number(out: &mut String, label: &str, value: Option<u64>)
    ensures
        final(out)@ == old(out)@ + known_number_line(label@, value),
{
    match value {
        Some(n) => push_number_field(out, label, n),
        None => {
            assert(out@ =~= old(out)@ + known_number_line(label@, value));
        },
    }
}

fn push_shape(out: &mut String, stats: &DagExportStats)
    requires
        stats.all_event_ids.wf(),
    ensures
        final(out)@ == old(out)@ + shape_lines(stats@),
{
    let mut branching = write_ratio(ratio(stats.total_prev_events, stats.count));
    branching.append(" avg prev_events/PDU");
    push_field(out, "Branching:      ", branching.as_str());
    let heads_count = stats.all_event_ids.count_missing_from(&stats.referenced_as_prev) as u64;
    let mut frag = write_ratio(ratio(stats.count, stats.max_depth));
    frag.append(" (");
    push_decimal(&mut frag, stats.count);
    frag.append(" events / ");
    push_decimal(&mut frag, stats.max_depth);
    frag.append(" depth, ");
    push_decimal(&mut frag, heads_count);
    frag.append(" heads)");
    push_field(out, "Frag factor:    ", frag.as_str());
    proof {
        let first = field_line("Branching:      "@, branching@);
        let second = field_line("Frag factor:    "@, frag@);
        assert(old(out)@ + first + second =~= old(out)@ + (first + second));
    }
}

/// Writes the report of an export.
pub fn format_dag_stats_output(
    stats: &DagExportStats,
    room_ssh: Option<u64>,
    tip_match: &str,
    display_path: &str,
) -> (out: String)
    requires
        stats.all_event_ids.wf(),
    ensures
        out@ == stats_report(stats@, room_ssh, tip_match@, display_path@),
{
    let mut out = "Wrote ".to_owned();
    push_decimal(&mut out, stats.count);
    out.append(" PDUs to ");
    out.append(display_path);
    out.append("\n```\n");
    push_number_field(&mut out, "PDUs:           ", stats.count);
    push_number_field(&mut out, "State events:   ", stats.state_events);
    push_shape(&mut out, stats);
    push_number_field(&mut out, "Unique states:  ", stats.unique_hashes.len() as u64);
    push_number_field(&mut out, "Missing hash:   ", stats.missing_hash);
    push_known_number(&mut out, "Tip SSH:        ", stats.last_ssh);
    push_known_number(&mut out, "Room SSH:       ", room_ssh);
    push_field(&mut out, "Status:         ", tip_match);
    out.append("```\n");
    out
}

/// When something has to be looked up before the tip can be judged: where the state
/// before the last event and the state of the room are both known and differ, and
/// the last event is a state event whose id, type and state key are known. What is
/// looked up is then that type and state key, in the state of the room.
pub proof fn lemma_when_the_tip_is_looked_up(
    stats: DagExportStats,
    room_ssh: Option<u64>,
    question: Option<TipQuestion>,
)
    requires
        call_ensures(tip_question, (&stats, room_ssh), question),
    ensures
        question is Some <==> {
            &&& stats.last_ssh is Some
            &&& room_ssh is Some
            &&& stats.last_ssh->Some_0 != room_ssh->Some_0
            &&& stats.last_is_state_event
            &&& stats.last_event_id is Some
            &&& stats.last_event_type is Some
            &&& stats.last_state_key is Some
        },
        question matches Some(question) ==> {
            &&& question.room_ssh == room_ssh->Some_0
            &&& question.event_type@ == stats.last_event_type->Some_0@
            &&& question.state_key@ == stats.last_state_key->Some_0@
        },
{
}

/// How the tip is judged. It is unknown exactly where the state before the last
/// event or the state of the room is. It is fine exactly where these are the same,
/// or where the last event is a state event whose id, type and state key are known
/// and that the state of the room points to; and it diverges in all other cases.
pub proof fn lemma_how_the_tip_is_judged(
    stats: DagExportStats,
    room_ssh: Option<u64>,
    found: Option<&str>,
    status: String,
)
    requires
        call_ensures(determine_tip_match, (&stats, room_ssh, found), status),
    ensures
        ({
            let known = stats.last_ssh is Some && room_ssh is Some;
            let equal = known && stats.last_ssh->Some_0 == room_ssh->Some_0;
            let complete = stats.last_event_id is Some && stats.last_event_type is Some && stats.last_state_key is Some;
            let points = stats.last_is_state_event && complete && found is Some && found->Some_0@
                == stats.last_event_id->Some_0@;
            &&& status@.len() > 0
            &&& status@[0] == '?' <==> !known
            &&& status@[0] == '✓' <==> equal || (known && points)
            &&& status@[0] == '✗' <==> known && !equal && !points
            &&& equal ==> status@ == "✓ tip matches room state"@
            &&& known && !equal && points ==> ends(
                status@,
                "(pre="@ + decimal(stats.last_ssh->Some_0 as nat) + " post="@ + decimal(room_ssh->Some_0 as nat) + ")"@,
            )
            &&& known && !equal && points ==> begins(
                status@,
                "✓ tip is state event — room state includes tip "@,
            )
            &&& !known ==> status@ == "? unknown"@
            &&& known && !equal && stats.last_is_state_event && !complete ==> status@
                == "✗ tip DIVERGES from room state (state event but missing metadata)"@
            &&& known && !equal && !stats.last_is_state_event ==> status@ == "✗ tip DIVERGES from room state"@
            &&& known && !equal && stats.last_is_state_event && complete && !points ==> begins(
                status@,
                "✗ tip DIVERGES — room state at "@,
            )
            &&& known && !equal && stats.last_is_state_event && complete && !points ==> ends(
                status@,
                "("@ + stats.last_event_type->Some_0@ + ", "@ + stats.last_state_key->Some_0@
                    + ") does not point to tip event "@ + stats.last_event_id->Some_0@,
            )
        }),
{
    reveal_strlit("✓ tip matches room state");
    reveal_strlit("✗ tip DIVERGES from room state");
    reveal_strlit("✗ tip DIVERGES from room state (state event but missing metadata)");
    reveal_strlit("? unknown");
    let view = stats@;
    let text = tip_status(view, room_ssh, optional_str(found));
    if stats.last_ssh is Some && room_ssh is Some && stats.last_ssh->Some_0 != room_ssh->Some_0
        && stats.last_is_state_event && stats.last_event_id is Some && stats.last_event_type is Some
        && stats.last_state_key is Some {
        assert(tip_is_open(view, room_ssh));
        if optional_str(found) == view.last_event_id {
            lemma_pointed_words(
                decimal(stats.last_ssh->Some_0 as nat),
                decimal(room_ssh->Some_0 as nat),
            );
        } else {
            lemma_diverging_words(
                stats.last_event_type->Some_0@,
                stats.last_state_key->Some_0@,
                stats.last_event_id->Some_0@,
            );
        }
    }
}

proof fn lemma_pointed_words(pre: Seq<char>, post: Seq<char>)
    ensures
        ({
            let text = "✓ tip is state event — room state includes tip (pre="@ + pre + " post="@ + post + ")"@;
            &&& text.len() > 0
            &&& text[0] == '✓'
            &&& begins(text, "✓ tip is state event — room state includes tip "@)
            &&& ends(text, "(pre="@ + pre + " post="@ + post + ")"@)
        }),
{
    reveal_strlit("✓ tip is state event — room state includes tip (pre=");
    reveal_strlit("(pre=");
    let label = "✓ tip is state event — room state includes tip (pre="@;
    let text = label + pre + " post="@ + post + ")"@;
    let last = "(pre="@ + pre + " post="@ + post + ")"@;
    let n = label.len() - 5;
    reveal_strlit("✓ tip is state event — room state includes tip ");
    assert(label =~= label.take(n) + "(pre="@);
    assert(text.take(n) =~= "✓ tip is state event — room state includes tip "@);
    assert(text =~= label.take(n) + last);
    assert(text.skip(text.len() - last.len()) =~= last);
    assert(text[0] == label[0]);
}

proof fn lemma_diverging_words(event_type: Seq<char>, state_key: Seq<char>, event_id: Seq<char>)
    ensures
        ({
            let text = "✗ tip DIVERGES — room state at ("@ + event_type + ", "@ + state_key
                + ") does not point to tip event "@ + event_id;
            &&& text.len() > 0
            &&& text[0] == '✗'
            &&& begins(text, "✗ tip DIVERGES — room state at "@)
            &&& ends(text, "("@ + event_type + ", "@ + state_key + ") does not point to tip event "@ + event_id)
        }),
{
    reveal_strlit("✗ tip DIVERGES — room state at (");
    reveal_strlit("(");
    let label = "✗ tip DIVERGES — room state at ("@;
    let text = label + event_type + ", "@ + state_key + ") does not point to tip event "@ + event_id;
    let last = "("@ + event_type + ", "@ + state_key + ") does not point to tip event "@ + event_id;
    let n = label.len() - 1;
    reveal_strlit("✗ tip DIVERGES — room state at ");
    assert(label =~= label.take(n) + "("@);
    assert(text.take(n) =~= "✗ tip DIVERGES — room state at "@);
    assert(text =~= label.take(n) + last);
    assert(text.skip(text.len() - last.len()) =~= last);
    assert(text[0] == label[0]);
}

/// A ratio is rounded down to thousandths: so many thousandths of the divisor fit
/// into the dividend and one more does not, as long as the dividend in thousandths
/// fits its number. Nothing is divided by zero.
pub proof fn lemma_ratios_are_rounded_down(a: u64, b: u64)
    ensures
        b == 0 ==> thousandths(a, b) == 0,
        b > 0 && a * 1000 <= u64::MAX ==> thousandths(a, b) * b <= a * 1000 < (thousandths(a, b) + 1) * b,
        b > 0 && a * 1000 > u64::MAX ==> thousandths(a, b) * b <= u64::MAX < (thousandths(a, b) + 1) * b,
{
    if b > 0 {
        let d = b as int;
        let n = if a * 1000 <= u64::MAX {
            a * 1000
        } else {
            u64::MAX as int
        };
        let q = n / d;
        vstd::arithmetic::div_mod::lemma_fundamental_div_mod(n, d);
        assert(0 <= n % d < d);
        assert(d * q == q * d) by (nonlinear_arith);
        assert((q + 1) * d == q * d + d) by (nonlinear_arith);
        assert(q >= 0) by (nonlinear_arith)
            requires
                n >= 0,
                d > 0,
                q == n / d,
        ;
        assert(thousandths(a, b) == q);
    }
}

/// A ratio in thousandths is written with a point before its last three digits.
pub proof fn lemma_ratios_read_back(scaled: nat)
    ensures
        ({
            let text = ratio_text(scaled);
            let n = text.len() - 4;
            &&& n > 0
            &&& text[n] == '.'
            &&& all_digits(text.take(n)) && all_digits(text.skip(n + 1))
            &&& 1000 * decimal_value(text.take(n)) + decimal_value(text.skip(n + 1)) == scaled
        }),
{
    reveal_strlit(".");
    let text = ratio_text(scaled);
    let whole = decimal(scaled / 1000);
    let part = three_digits(scaled % 1000);
    let n = text.len() - 4;
    lemma_decimal_reads_back(scaled / 1000);
    lemma_three_digits_read_back(scaled % 1000);
    assert(text.take(n) =~= whole);
    assert(text.skip(n + 1) =~= part);
    assert(text[n] == '.');
}

/// How many heads a graph has: each event of the export is a head or named as a
/// previous event, and not both. Without events there are none, and where no event
/// is named as a previous event all of them are.
pub proof fn lemma_heads_are_what_nothing_follows(stats: DagExportView)
    requires
        stats.all_event_ids.finite(),
    ensures
        heads(stats) + stats.all_event_ids.intersect(stats.referenced_as_prev).len() == stats.all_event_ids.len(),
        stats.all_event_ids.subset_of(stats.referenced_as_prev) ==> heads(stats) == 0,
        (forall|id: Seq<char>| #[trigger]
            stats.all_event_ids.contains(id) ==> !stats.referenced_as_prev.contains(id)) ==> heads(stats)
            == stats.all_event_ids.len(),
        forall|id: Seq<char>|
            stats.all_event_ids.contains(id) && !(#[trigger] stats.referenced_as_prev.contains(id)) ==> heads(stats) > 0,
{
    let all = stats.all_event_ids;
    let named = stats.referenced_as_prev;
    let free = all.difference(named);
    let taken = all.intersect(named);
    assert(free.union(taken) =~= all);
    assert(free.disjoint(taken));
    vstd::set_lib::lemma_set_disjoint_lens(free, taken);
    if all.subset_of(named) {
        assert(free =~= Set::empty());
    }
    if forall|id: Seq<char>| #[trigger] all.contains(id) ==> !named.contains(id) {
        assert(free =~= all);
    }
    assert forall|id: Seq<char>| all.contains(id) && !(#[trigger] named.contains(id)) implies heads(stats) > 0 by {
        assert(free.contains(id));
        if free.len() == 0 {
            assert(free =~= Set::empty());
        }
    }
}

/// What the report of an export tells: where the export was written to, and line by
/// line how many events and state events there are, how many states come before
/// them and of how many the state is missing, the states at the tip and of the room
/// where they are known, and how the tip stands to the room; and nothing else.
pub proof fn lemma_what_the_stats_tell(
    stats: DagExportStats,
    room_ssh: Option<u64>,
    tip_match: &str,
    display_path: &str,
    out: String,
)
    requires
        call_ensures(format_dag_stats_output, (&stats, room_ssh, tip_match, display_path), out),
    ensures
        begins(out@, "Wrote "@ + decimal(stats.count as nat) + " PDUs to "@ + display_path@ + "\n```\n"@),
        holds(out@, "PDUs:           "@ + decimal(stats.count as nat) + "\n"@),
        holds(out@, "State events:   "@ + decimal(stats.state_events as nat) + "\n"@),
        holds(out@, "Unique states:  "@ + decimal(stats.unique_hashes@.len()) + "\n"@),
        holds(out@, "Missing hash:   "@ + decimal(stats.missing_hash as nat) + "\n"@),
        stats.last_ssh matches Some(hash) ==> holds(out@, "Tip SSH:        "@ + decimal(hash as nat) + "\n"@),
        room_ssh matches Some(hash) ==> holds(out@, "Room SSH:       "@ + decimal(hash as nat) + "\n"@),
        ends(out@, ("Status:         "@ + tip_match@ + "\n"@) + "```\n"@),
        holds(out@, shape_lines(stats@)),
        holds(
            out@,
            ("PDUs:           "@ + decimal(stats.count as nat) + "\n"@) + ("State events:   "@ + decimal(
                stats.state_events as nat,
            ) + "\n"@) + shape_lines(stats@) + ("Unique states:  "@ + decimal(stats.unique_hashes@.len()) + "\n"@) + (
            "Missing hash:   "@ + decimal(stats.missing_hash as nat) + "\n"@),
        ),
        stats.last_ssh is Some && room_ssh is Some ==> ends(
            out@,
            ("Tip SSH:        "@ + decimal(stats.last_ssh->Some_0 as nat) + "\n"@) + ("Room SSH:       "@ + decimal(
                room_ssh->Some_0 as nat,
            ) + "\n"@) + ("Status:         "@ + tip_match@ + "\n"@) + "```\n"@,
        ),
        out@.len() == 109 + 2 * decimal(stats.count as nat).len() + display_path@.len() + decimal(
            stats.state_events as nat,
        ).len() + shape_lines(stats@).len() + decimal(stats.unique_hashes@.len()).len() + decimal(
            stats.missing_hash as nat,
        ).len() + (match stats.last_ssh {
            Some(hash) => 17 + decimal(hash as nat).len(),
            None => 0,
        }) + (match room_ssh {
            Some(hash) => 17 + decimal(hash as nat).len(),
            None => 0,
        }) + tip_match@.len(),
{
    lemma_report_label_lengths();
    let view = stats@;
    let first = "Wrote "@ + decimal(stats.count as nat) + " PDUs to "@ + display_path@ + "\n```\n"@;
    let count = field_line("PDUs:           "@, decimal(stats.count as nat));
    let states = field_line("State events:   "@, decimal(stats.state_events as nat));
    let shape = shape_lines(view);
    let unique = field_line("Unique states:  "@, decimal(stats.unique_hashes@.len()));
    let missing = field_line("Missing hash:   "@, decimal(stats.missing_hash as nat));
    let tip = known_number_line("Tip SSH:        "@, stats.last_ssh);
    let room = known_number_line("Room SSH:       "@, room_ssh);
    let status = field_line("Status:         "@, tip_match@);
    let last = "```\n"@;
    assert(out@ == first + count + states + shape + unique + missing + tip + room + status + last);
    lemma_ten_parts(first, count, states, shape, unique, missing, tip, room, status, last);
}

proof fn lemma_report_label_lengths()
    ensures
        "Wrote "@.len() == 6,
        " PDUs to "@.len() == 9,
        "\n```\n"@.len() == 5,
        "PDUs:           "@.len() == 16,
        "State events:   "@.len() == 16,
        "Unique states:  "@.len() == 16,
        "Missing hash:   "@.len() == 16,
        "Tip SSH:        "@.len() == 16,
        "Room SSH:       "@.len() == 16,
        "Status:         "@.len() == 16,
        "```\n"@.len() == 4,
        "\n"@.len() == 1,
{
    reveal_strlit("Wrote ");
    reveal_strlit(" PDUs to ");
    reveal_strlit("\n```\n");
    reveal_strlit("PDUs:           ");
    reveal_strlit("State events:   ");
    reveal_strlit("Unique states:  ");
    reveal_strlit("Missing hash:   ");
    reveal_strlit("Tip SSH:        ");
    reveal_strlit("Room SSH:       ");
    reveal_strlit("Status:         ");
    reveal_strlit("```\n");
    reveal_strlit("\n");
}

proof fn lemma_ten_parts(
    a: Seq<char>,
    b: Seq<char>,
    c: Seq<char>,
    d: Seq<char>,
    e: Seq<char>,
    f: Seq<char>,
    g: Seq<char>,
    h: Seq<char>,
    i: Seq<char>,
    j: Seq<char>,
)
    ensures
        ({
            let text = a + b + c + d + e + f + g + h + i + j;
            &&& begins(text, a)
            &&& holds(text, b)
            &&& holds(text, c)
            &&& holds(text, d)
            &&& holds(text, e)
            &&& holds(text, f)
            &&& holds(text, g)
            &&& holds(text, h)
            &&& holds(text, b + c + d + e + f)
            &&& ends(text, i + j)
            &&& ends(text, g + h + i + j)
        }),
{
    let text = a + b + c + d + e + f + g + h + i + j;
    let block = b + c + d + e + f;
    assert(text =~= a + block + (g + h + i + j));
    lemma_parts_are_held(a, block, g + h + i + j);
    let after_h = i + j;
    let to_g = a + b + c + d + e + f + g;
    assert(text =~= to_g + h + after_h);
    lemma_parts_are_held(to_g, h, after_h);
    let to_f = a + b + c + d + e + f;
    assert(text =~= to_f + g + (h + after_h));
    lemma_parts_are_held(to_f, g, h + after_h);
    let after_f = g + (h + after_h);
    let to_e = a + b + c + d + e;
    assert(text =~= to_e + f + after_f);
    lemma_parts_are_held(to_e, f, after_f);
    let after_e = f + after_f;
    let to_d = a + b + c + d;
    assert(text =~= to_d + e + after_e);
    lemma_parts_are_held(to_d, e, after_e);
    let after_d = e + after_e;
    let to_c = a + b + c;
    assert(text =~= to_c + d + after_d);
    lemma_parts_are_held(to_c, d, after_d);
    let after_c = d + after_d;
    let to_b = a + b;
    assert(text =~= to_b + c + after_c);
    lemma_parts_are_held(to_b, c, after_c);
    let after_b = c + after_c;
    assert(text =~= a + b + after_b);
    lemma_parts_are_held(a, b, after_b);
}

/// What the report tells of the shape of the graph: how many previous events there
/// are for each event, and how many events there are for each step of depth, both
/// in thousandths, with the number of events, the greatest depth and the number of
/// heads.
pub proof fn lemma_what_the_shape_tells(stats: DagExportView)
    ensures
        begins(
            shape_lines(stats),
            "Branching:      "@ + ratio_text(thousandths(stats.total_prev_events, stats.count)) + " avg prev_events/PDU"@
                + "\n"@,
        ),
        holds(
            shape_lines(stats),
            "Frag factor:    "@ + ratio_text(thousandths(stats.count, stats.max_depth)) + " ("@ + decimal(
                stats.count as nat,
            ) + " events / "@,
        ),
        ends(shape_lines(stats), decimal(stats.max_depth as nat) + " depth, "@ + decimal(heads(stats)) + " heads)\n"@),
{
    reveal_strlit("\n");
    reveal_strlit(" heads)");
    reveal_strlit(" heads)\n");
    let text = shape_lines(stats);
    let branching = ratio_text(thousandths(stats.total_prev_events, stats.count));
    let frag = ratio_text(thousandths(stats.count, stats.max_depth));
    let first = "Branching:      "@ + branching + " avg prev_events/PDU"@ + "\n"@;
    let middle = "Frag factor:    "@ + frag + " ("@ + decimal(stats.count as nat) + " events / "@;
    let last = decimal(stats.max_depth as nat) + " depth, "@ + decimal(heads(stats)) + " heads)\n"@;
    assert(field_line("Branching:      "@, branching + " avg prev_events/PDU"@) =~= first);
    assert(" heads)\n"@ =~= " heads)"@ + "\n"@);
    lemma_frag_line(
        "Frag factor:    "@,
        frag,
        decimal(stats.count as nat),
        decimal(stats.max_depth as nat),
        decimal(heads(stats)),
    );
    assert(text =~= first + middle + last);
    lemma_parts_are_held(first, middle, last);
}

proof fn lemma_frag_line(label: Seq<char>, frag: Seq<char>, count: Seq<char>, depth: Seq<char>, heads: Seq<char>)
    ensures
        field_line(label, frag + " ("@ + count + " events / "@ + depth + " depth, "@ + heads + " heads)"@) == (label
            + frag + " ("@ + count + " events / "@) + (depth + " depth, "@ + heads + (" heads)"@ + "\n"@)),
{
    let one = frag + " ("@ + count + " events / "@;
    let two = depth + " depth, "@ + heads + " heads)"@;
    assert(frag + " ("@ + count + " events / "@ + depth + " depth, "@ + heads + " heads)"@ =~= one + two);
    assert(field_line(label, one + two) =~= (label + one) + (two + "\n"@));
    assert(label + one =~= label + frag + " ("@ + count + " events / "@);
    assert(two + "\n"@ =~= depth + " depth, "@ + heads + (" heads)"@ + "\n"@));
}

} // verus!
