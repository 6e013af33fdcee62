//! What was recorded, as a file something other than Pathlight can read.
//!
//! A monitor whose records only its own window can open is a monitor whose
//! answer cannot be shown to anybody. CSV because every spreadsheet and every
//! scripting language already reads it, and a report a person reads because
//! that is what gets pasted into a ticket.

use vstd::prelude::*;

use crate::chars::{chars_of, decimal, decimal_of, push_all, push_str, signed_decimal, signed_decimal_of, string_of};
use crate::event::{ActivityEvent, Confidence, EventKind, Timestamp, LAST_SPELLABLE_SECOND, rfc3339_utc};
use crate::order::{is_text_less, text_less, text_less_irreflexive, text_less_total, text_less_transitive};
use crate::text::{bytes_text, human_bytes, kind_label, kind_word, leaf, leaf_of};

verus! {

/// How many rows a report spells out before it says how many it left out.
pub const REPORT_ROWS: usize = 500;

pub open spec fn confidence_word(c: Confidence) -> Seq<char> {
    match c {
        Confidence::Confirmed => "confirmed"@,
        Confidence::Estimated => "estimated"@,
        Confidence::Unknown => "unknown"@,
    }
}

fn confidence(c: Confidence) -> (w: &'static str)
    ensures
        w@ == confidence_word(c),
{
    match c {
        Confidence::Confirmed => "confirmed",
        Confidence::Estimated => "estimated",
        Confidence::Unknown => "unknown",
    }
}

/// Whether a cell would end early without quotes around it.
pub open spec fn needs_quotes(t: Seq<char>) -> bool {
    exists|i: int| 0 <= i < t.len() && (t[i] == ',' || t[i] == '"' || t[i] == '\n' || t[i] == '\r')
}

/// `t` with every `"` doubled.
pub open spec fn doubled_quotes(t: Seq<char>) -> Seq<char>
    decreases t.len(),
{
    if t.len() == 0 {
        seq![]
    } else {
        doubled_quotes(t.drop_last()) + (if t.last() == '"' { seq!['"', '"'] } else { seq![t.last()] })
    }
}

/// A cell, quoted when the value would otherwise end it early.
pub open spec fn quoted_of(t: Seq<char>) -> Seq<char> {
    if needs_quotes(t) { seq!['"'] + doubled_quotes(t) + seq!['"'] } else { t }
}

/// Whether a spreadsheet would run a cell that starts with `c`.
pub open spec fn runs_as_formula(c: char) -> bool {
    c == '=' || c == '+' || c == '-' || c == '@' || c == '\t' || c == '\r'
}

/// A cell holding something the user named rather than something Pathlight
/// spelled: a leading apostrophe is the spreadsheet's own "this is text"
/// marker, so a name that starts like a formula is not run as one.
pub open spec fn filename_of(t: Seq<char>) -> Seq<char> {
    if t.len() > 0 && runs_as_formula(t[0]) { quoted_of(seq!['\''] + t) } else { quoted_of(t) }
}

pub open spec fn text_or_empty(t: Option<String>) -> Seq<char> {
    match t {
        Some(s) => s@,
        None => seq![],
    }
}

/// When a row happened, as RFC 3339, or nothing for an instant past the year
/// 9999.
pub open spec fn time_of(at: Timestamp) -> Option<Seq<char>> {
    if at.secs <= LAST_SPELLABLE_SECOND { Some(rfc3339_utc(at.secs as int)) } else { None }
}

pub open spec fn csv_row(e: ActivityEvent) -> Seq<char> {
    csv_row_at(e, time_of(e.timestamp))
}

/// A row for `e` whose time reads `time` (nothing when `None`).
pub open spec fn csv_row_at(e: ActivityEvent, time: Option<Seq<char>>) -> Seq<char> {
    quoted_of(match time { Some(t) => t, None => seq![] }) + seq![',']
        + quoted_of(kind_word(e.kind)) + seq![',']
        + filename_of(e.path@) + seq![',']
        + filename_of(text_or_empty(e.previous_path)) + seq![',']
        + quoted_of(match e.byte_delta { Some(d) => signed_decimal(d as int), None => seq![] }) + seq![',']
        + quoted_of(confidence_word(e.confidence)) + seq![',']
        + filename_of(text_or_empty(e.process_name)) + seq!['\n']
}

pub open spec fn csv_rows(events: Seq<ActivityEvent>) -> Seq<char>
    decreases events.len(),
{
    if events.len() == 0 {
        seq![]
    } else {
        csv_rows(events.drop_last()) + csv_row(events.last())
    }
}

pub open spec fn csv_of(events: Seq<ActivityEvent>) -> Seq<char> {
    "time,change,path,moved from,bytes,confidence,process\n"@ + csv_rows(events)
}

/// The rows for `events` whose times read `times`, one each.
pub open spec fn csv_rows_at(events: Seq<ActivityEvent>, times: Seq<Option<String>>) -> Seq<char>
    decreases events.len(),
{
    if events.len() == 0 {
        seq![]
    } else {
        csv_rows_at(events.drop_last(), times.take(events.len() - 1))
            + csv_row_at(events.last(), match times[events.len() - 1] { Some(t) => Some(t@), None => None })
    }
}

/// Whether `times` are the times `events` happened at, as [`csv`] spells them.
pub open spec fn times_of(events: Seq<ActivityEvent>, times: Seq<Option<String>>) -> bool {
    &&& times.len() == events.len()
    &&& forall|i: int| 0 <= i < events.len() ==> (match (#[trigger] times[i], time_of(events[i].timestamp)) {
        (Some(t), Some(u)) => t@ == u,
        (None, None) => true,
        _ => false,
    })
}

proof fn rows_at_times(events: Seq<ActivityEvent>, times: Seq<Option<String>>)
    requires
        times_of(events, times),
    ensures
        csv_rows_at(events, times) == csv_rows(events),
    decreases events.len(),
{
    if events.len() > 0 {
        let n = events.len() - 1;
        let init = events.drop_last();
        let t = times.take(n);
        assert forall|i: int| 0 <= i < init.len() implies (match (#[trigger] t[i], time_of(init[i].timestamp)) {
            (Some(a), Some(b)) => a@ == b,
            (None, None) => true,
            _ => false,
        }) by {
            assert(t[i] == times[i]);
            assert(init[i] == events[i]);
        }
        rows_at_times(init, t);
        let last = times[n];
        assert(match (last, time_of(events[n].timestamp)) {
            (Some(a), Some(b)) => a@ == b,
            (None, None) => true,
            _ => false,
        });
        assert((match last { Some(x) => Some(x@), None => None }) == time_of(events.last().timestamp));
    }
}

fn quoted(t: &[char]) -> (out: Vec<char>)
    ensures
        out@ == quoted_of(t@),
{
    let mut needs = false;
    let mut i: usize = 0;
    while i < t.len()
        invariant
            i <= t@.len(),
            needs == exists|j: int| 0 <= j < i && (t@[j] == ',' || t@[j] == '"' || t@[j] == '\n' || t@[j] == '\r'),
        decreases t@.len() - i,
    {
        let c = t[i];
        if c == ',' || c == '"' || c == '\n' || c == '\r' {
            needs = true;
        }
        i = i + 1;
    }
    if !needs {
        let mut out: Vec<char> = Vec::new();
        push_all(&mut out, t);
        proof {
            assert(out@ =~= t@);
        }
        return out;
    }
    let mut out: Vec<char> = Vec::new();
    out.push('"');
    let mut k: usize = 0;
    while k < t.len()
        invariant
            k <= t@.len(),
            out@ == seq!['"'] + doubled_quotes(t@.take(k as int)),
        decreases t@.len() - k,
    {
        let c = t[k];
        if c == '"' {
            out.push('"');
            out.push('"');
        } else {
            out.push(c);
        }
        proof {
            assert(t@.take(k + 1).drop_last() =~= t@.take(k as int));
            assert(t@.take(k + 1).last() == c);
            assert(out@ =~= seq!['"'] + doubled_quotes(t@.take(k + 1)));
        }
        k = k + 1;
    }
    out.push('"');
    proof {
        assert(t@.take(t@.len() as int) =~= t@);
        assert(out@ =~= seq!['"'] + doubled_quotes(t@) + seq!['"']);
    }
    out
}

fn filename(t: &[char]) -> (out: Vec<char>)
    ensures
        out@ == filename_of(t@),
{
    if t.len() > 0 && (t[0] == '=' || t[0] == '+' || t[0] == '-' || t[0] == '@' || t[0] == '\t' || t[0] == '\r') {
        let mut marked: Vec<char> = Vec::new();
        marked.push('\'');
        push_all(&mut marked, t);
        quoted(marked.as_slice())
    } else {
        quoted(t)
    }
}

fn text_chars(t: &Option<String>) -> (out: Vec<char>)
    ensures
        out@ == text_or_empty(*t),
{
    match t {
        Some(s) => chars_of(s.as_str()),
        None => Vec::new(),
    }
}

fn push_cell(out: &mut Vec<char>, cell: Vec<char>, end: char)
    ensures
        final(out)@ == old(out)@ + cell@ + seq![end],
{
    push_all(out, cell.as_slice());
    out.push(end);
}

fn csv_row_exec(e: &ActivityEvent, at: &Option<String>, out: &mut Vec<char>)
    ensures
        final(out)@ == old(out)@ + csv_row_at(*e, match *at { Some(t) => Some(t@), None => None }),
{
    let ghost start = out@;
    let time = match at {
        Some(t) => chars_of(t.as_str()),
        None => Vec::new(),
    };
    let c1 = quoted(time.as_slice());
    let kind = chars_of(kind_label(e.kind));
    let c2 = quoted(kind.as_slice());
    let path = chars_of(e.path.as_str());
    let c3 = filename(path.as_slice());
    let previous = text_chars(&e.previous_path);
    let c4 = filename(previous.as_slice());
    let delta = match e.byte_delta {
        Some(d) => signed_decimal_of(d),
        None => Vec::new(),
    };
    let c5 = quoted(delta.as_slice());
    let conf = chars_of(confidence(e.confidence));
    let c6 = quoted(conf.as_slice());
    let process = text_chars(&e.process_name);
    let c7 = filename(process.as_slice());
    let ghost row = c1@ + seq![','] + c2@ + seq![','] + c3@ + seq![','] + c4@ + seq![','] + c5@ + seq![',']
        + c6@ + seq![','] + c7@ + seq!['\n'];
    assert(row == csv_row_at(*e, match *at { Some(t) => Some(t@), None => None }));
    let mut line: Vec<char> = Vec::new();
    push_cell(&mut line, c1, ',');
    push_cell(&mut line, c2, ',');
    push_cell(&mut line, c3, ',');
    push_cell(&mut line, c4, ',');
    push_cell(&mut line, c5, ',');
    push_cell(&mut line, c6, ',');
    push_cell(&mut line, c7, '\n');
    assert(line@ =~= row);
    push_all(out, line.as_slice());
}

/// One header row, then one row per change in the order given.
pub fn csv(events: &[ActivityEvent]) -> (text: String)
    ensures
        text@ == csv_of(events@),
{
    let mut times: Vec<Option<String>> = Vec::new();
    let mut i: usize = 0;
    while i < events.len()
        invariant
            i <= events@.len(),
            times_of(events@.take(i as int), times@),
        decreases events@.len() - i,
    {
        let t = if events[i].timestamp.secs <= LAST_SPELLABLE_SECOND { events[i].timestamp_text() } else { None };
        times.push(t);
        proof {
            let e = events@.take(i + 1);
            assert forall|k: int| 0 <= k < e.len() implies (match (#[trigger] times@[k], time_of(e[k].timestamp)) {
                (Some(a), Some(b)) => a@ == b,
                (None, None) => true,
                _ => false,
            }) by {
                if k < i {
                    assert(e[k] == events@.take(i as int)[k]);
                }
            }
        }
        i = i + 1;
    }
    proof {
        assert(events@.take(events@.len() as int) =~= events@);
        rows_at_times(events@, times@);
    }
    csv_at(events, times.as_slice())
}

/// One header row, then one row per change in the order given, the time of
/// change `i` reading `times[i]`.
pub fn csv_at(events: &[ActivityEvent], times: &[Option<String>]) -> (text: String)
    requires
        times@.len() == events@.len(),
    ensures
        text@ == "time,change,path,moved from,bytes,confidence,process\n"@ + csv_rows_at(events@, times@),
{
    let mut out: Vec<char> = Vec::new();
    push_str(&mut out, "time,change,path,moved from,bytes,confidence,process\n");
    let mut i: usize = 0;
    while i < events.len()
        invariant
            i <= events@.len(),
            times@.len() == events@.len(),
            out@ == "time,change,path,moved from,bytes,confidence,process\n"@ + csv_rows_at(events@.take(i as int), times@.take(i as int)),
        decreases events@.len() - i,
    {
        csv_row_exec(&events[i], &times[i], &mut out);
        proof {
            assert(events@.take(i + 1).drop_last() =~= events@.take(i as int));
            assert(times@.take(i + 1).take(i as int) =~= times@.take(i as int));
        }
        i = i + 1;
    }
    proof {
        assert(events@.take(events@.len() as int) =~= events@);
        assert(times@.take(times@.len() as int) =~= times@);
    }
    string_of(out.as_slice())
}

/// `t` with every `|` escaped, so a name stays inside its table cell.
pub open spec fn cell_of(t: Seq<char>) -> Seq<char>
    decreases t.len(),
{
    if t.len() == 0 {
        seq![]
    } else {
        cell_of(t.drop_last()) + (if t.last() == '|' { seq!['\\', '|'] } else { seq![t.last()] })
    }
}

fn cell(t: &[char]) -> (out: Vec<char>)
    ensures
        out@ == cell_of(t@),
{
    let mut out: Vec<char> = Vec::new();
    let mut k: usize = 0;
    while k < t.len()
        invariant
            k <= t@.len(),
            out@ == cell_of(t@.take(k as int)),
        decreases t@.len() - k,
    {
        let c = t[k];
        if c == '|' {
            out.push('\\');
            out.push('|');
        } else {
            out.push(c);
        }
        proof {
            assert(t@.take(k + 1).drop_last() =~= t@.take(k as int));
            assert(out@ =~= cell_of(t@.take(k + 1)));
        }
        k = k + 1;
    }
    proof {
        assert(t@.take(t@.len() as int) =~= t@);
    }
    out
}

pub open spec fn is_sep(c: char) -> bool {
    c == '/' || c == '\\'
}

/// `t` without its leading separators.
pub open spec fn trim_seps(t: Seq<char>) -> Seq<char>
    decreases t.len(),
{
    if t.len() > 0 && is_sep(t[0]) { trim_seps(t.drop_first()) } else { t }
}

/// `t` up to its first separator.
pub open spec fn first_part(t: Seq<char>) -> Seq<char>
    decreases t.len(),
{
    if t.len() == 0 || is_sep(t[0]) { seq![] } else { seq![t[0]] + first_part(t.drop_first()) }
}

/// The top-level thing inside `root` that `path` is part of, which is what a
/// person looking for "where did the 10 GB go" is asking about.
#[verifier::opaque]
pub open spec fn within_of(root: Seq<char>, path: Seq<char>) -> Seq<char> {
    let inside = if crate::chars::starts_with(path, root) { trim_seps(path.skip(root.len() as int)) } else { path };
    let first = first_part(inside);
    if first.len() == 0 { "(the folder itself)"@ } else { first }
}

fn within(root: &[char], path: &[char]) -> (out: Vec<char>)
    ensures
        out@ == within_of(root@, path@),
{
    reveal(within_of);
    let mut at: usize = 0;
    if crate::chars::has_prefix(path, root) {
        at = root.len();
        proof {
            assert(path@.skip(at as int) =~= path@.skip(root@.len() as int));
        }
        while at < path.len() && (path[at] == '/' || path[at] == '\\')
            invariant
                root@.len() <= at <= path@.len(),
                trim_seps(path@.skip(at as int)) == trim_seps(path@.skip(root@.len() as int)),
            decreases path@.len() - at,
        {
            proof {
                assert(path@.skip(at as int).drop_first() =~= path@.skip(at + 1));
            }
            at = at + 1;
        }
        proof {
            if at < path@.len() {
                assert(path@.skip(at as int)[0] == path@[at as int]);
            }
            assert(trim_seps(path@.skip(at as int)) == path@.skip(at as int));
        }
    } else {
        proof {
            assert(path@.skip(0) =~= path@);
        }
    }
    let start = at;
    proof {
        assert(first_part(path@.skip(start as int)) == path@.subrange(start as int, at as int) + first_part(path@.skip(at as int)));
    }
    while at < path.len() && !(path[at] == '/' || path[at] == '\\')
        invariant
            start <= at <= path@.len(),
            first_part(path@.skip(start as int)) == path@.subrange(start as int, at as int) + first_part(path@.skip(at as int)),
        decreases path@.len() - at,
    {
        proof {
            assert(path@.skip(at as int)[0] == path@[at as int]);
            assert(path@.skip(at as int).drop_first() =~= path@.skip(at + 1));
            assert(path@.subrange(start as int, at + 1) =~= path@.subrange(start as int, at as int) + seq![path@[at as int]]);
        }
        at = at + 1;
    }
    proof {
        if at < path@.len() {
            assert(path@.skip(at as int)[0] == path@[at as int]);
        }
        assert(first_part(path@.skip(at as int)) =~= Seq::<char>::empty());
    }
    if at == start {
        let mut out: Vec<char> = Vec::new();
        push_str(&mut out, "(the folder itself)");
        proof {
            assert(out@ =~= "(the folder itself)"@);
        }
        out
    } else {
        crate::chars::slice_of(path, start, at)
    }
}

pub open spec fn delta_or_zero(e: ActivityEvent) -> int {
    match e.byte_delta {
        Some(d) => d as int,
        None => 0,
    }
}

/// The net change over `events`, unknown sizes counting as nothing.
pub open spec fn net_of(events: Seq<ActivityEvent>) -> int
    decreases events.len(),
{
    if events.len() == 0 { 0 } else { net_of(events.drop_last()) + delta_or_zero(events.last()) }
}

pub open spec fn unknown_of(events: Seq<ActivityEvent>) -> int
    decreases events.len(),
{
    if events.len() == 0 {
        0
    } else {
        unknown_of(events.drop_last()) + (if events.last().byte_delta is None { 1int } else { 0 })
    }
}

/// The net change of the rows that landed in `name`.
pub open spec fn group_bytes(events: Seq<ActivityEvent>, root: Seq<char>, name: Seq<char>) -> int
    decreases events.len(),
{
    if events.len() == 0 {
        0
    } else {
        group_bytes(events.drop_last(), root, name)
            + (if within_of(root, events.last().path@) == name { delta_or_zero(events.last()) } else { 0 })
    }
}

/// How many items the rows that landed in `name` affected.
pub open spec fn group_items(events: Seq<ActivityEvent>, root: Seq<char>, name: Seq<char>) -> int
    decreases events.len(),
{
    if events.len() == 0 {
        0
    } else {
        group_items(events.drop_last(), root, name)
            + (if within_of(root, events.last().path@) == name { events.last().affected_item_count as int } else { 0 })
    }
}

/// How many rows name `process`.
pub open spec fn process_count(events: Seq<ActivityEvent>, process: Seq<char>) -> int
    decreases events.len(),
{
    if events.len() == 0 {
        0
    } else {
        process_count(events.drop_last(), process)
            + (if events.last().process_name is Some && events.last().process_name->0@ == process { 1int } else { 0 })
    }
}

pub open spec fn abs(n: int) -> int {
    if n < 0 { -n } else { n }
}

/// Whether table row `a` is listed before `b`: the larger change first,
/// whichever direction it went, then by name.
pub open spec fn row_before(a: (Seq<char>, int, int), b: (Seq<char>, int, int)) -> bool {
    abs(a.1) > abs(b.1) || (abs(a.1) == abs(b.1) && text_less(a.0, b.0))
}

/// Whether process `a` is listed before `b`: the one with more changes
/// first, then by name.
pub open spec fn process_before(a: (Seq<char>, int), b: (Seq<char>, int)) -> bool {
    a.1 > b.1 || (a.1 == b.1 && text_less(a.0, b.0))
}

/// The table of where inside the folder the bytes went: one row per
/// top-level item any row landed in, with its net change and items,
/// largest change first.
pub open spec fn is_where_table(events: Seq<ActivityEvent>, root: Seq<char>, rows: Seq<(Seq<char>, int, int)>) -> bool {
    &&& forall|i: int, j: int| 0 <= i < j < rows.len() ==> row_before(#[trigger] rows[i], #[trigger] rows[j])
    &&& forall|i: int| 0 <= i < rows.len() ==> (#[trigger] rows[i]).1 == group_bytes(events, root, rows[i].0)
        && rows[i].2 == group_items(events, root, rows[i].0) && occurs(events, root, rows[i].0)
    &&& forall|k: int| #![trigger events[k]] 0 <= k < events.len() ==> exists|i: int| 0 <= i < rows.len()
        && (#[trigger] rows[i]).0 == within_of(root, events[k].path@)
}

/// The list of what was running: one line per process any row names, most
/// changes first.
pub open spec fn is_process_list(events: Seq<ActivityEvent>, rows: Seq<(Seq<char>, int)>) -> bool {
    &&& forall|i: int, j: int| 0 <= i < j < rows.len() ==> process_before(#[trigger] rows[i], #[trigger] rows[j])
    &&& forall|i: int| 0 <= i < rows.len() ==> (#[trigger] rows[i]).1 == process_count(events, rows[i].0)
        && exists|k: int| 0 <= k < events.len() && (#[trigger] events[k]).process_name is Some && events[k].process_name->0@ == rows[i].0
    &&& forall|k: int| #![trigger events[k]] 0 <= k < events.len() && events[k].process_name is Some ==> exists|i: int|
        0 <= i < rows.len() && (#[trigger] rows[i]).0 == events[k].process_name->0@
}

pub open spec fn table_text(rows: Seq<(Seq<char>, int, int)>) -> Seq<char>
    decreases rows.len(),
{
    if rows.len() == 0 {
        seq![]
    } else {
        let r = rows.last();
        table_text(rows.drop_last()) + "| "@ + cell_of(r.0) + " | "@ + bytes_text(r.1) + " | "@ + decimal(r.2 as nat) + " |\n"@
    }
}

pub open spec fn process_text(rows: Seq<(Seq<char>, int)>) -> Seq<char>
    decreases rows.len(),
{
    if rows.len() == 0 {
        seq![]
    } else {
        let r = rows.last();
        process_text(rows.drop_last()) + "- "@ + cell_of(r.0) + ": "@ + decimal(r.1 as nat) + " changes\n"@
    }
}

/// One listed change as a line of the report.
pub open spec fn change_line(e: ActivityEvent) -> Seq<char> {
    change_line_at(e, time_of(e.timestamp))
}

/// One listed change whose time reads `time` ("unknown time" when `None`).
pub open spec fn change_line_at(e: ActivityEvent, time: Option<Seq<char>>) -> Seq<char> {
    "- "@ + (match time { Some(t) => t, None => "unknown time"@ }) + " "@ + kind_word(e.kind)
        + " `"@ + e.path@ + "`"@
        + (match e.previous_path { Some(p) => " (from `"@ + p@ + "`)"@, None => seq![] })
        + (match e.byte_delta { Some(d) => " "@ + bytes_text(d as int), None => " unknown size"@ })
        + (match e.process_name { Some(p) => " · "@ + cell_of(p@), None => seq![] })
        + "\n"@
}

pub open spec fn change_lines(events: Seq<ActivityEvent>) -> Seq<char>
    decreases events.len(),
{
    if events.len() == 0 { seq![] } else { change_lines(events.drop_last()) + change_line(events.last()) }
}

/// The text a time was handed as, if any.
pub open spec fn text_of(t: Option<String>) -> Option<Seq<char>> {
    match t {
        Some(x) => Some(x@),
        None => None,
    }
}

/// The listed changes whose times read `times`, one each.
pub open spec fn change_lines_at(events: Seq<ActivityEvent>, times: Seq<Option<String>>) -> Seq<char>
    decreases events.len(),
{
    if events.len() == 0 {
        seq![]
    } else {
        change_lines_at(events.drop_last(), times.take(events.len() - 1))
            + change_line_at(events.last(), text_of(times[events.len() - 1]))
    }
}

proof fn lines_at_times(events: Seq<ActivityEvent>, times: Seq<Option<String>>)
    requires
        times_of(events, times),
    ensures
        change_lines_at(events, times) == change_lines(events),
    decreases events.len(),
{
    if events.len() > 0 {
        let n = events.len() - 1;
        let init = events.drop_last();
        let t = times.take(n);
        assert forall|i: int| 0 <= i < init.len() implies (match (#[trigger] t[i], time_of(init[i].timestamp)) {
            (Some(a), Some(b)) => a@ == b,
            (None, None) => true,
            _ => false,
        }) by {
            assert(t[i] == times[i]);
            assert(init[i] == events[i]);
        }
        lines_at_times(init, t);
        assert(match (times[n], time_of(events[n].timestamp)) {
            (Some(a), Some(b)) => a@ == b,
            (None, None) => true,
            _ => false,
        });
        assert(text_of(times[n]) == time_of(events.last().timestamp));
    }
}

proof fn times_of_prefix(events: Seq<ActivityEvent>, times: Seq<Option<String>>, n: int)
    requires
        times_of(events, times),
        0 <= n <= events.len(),
    ensures
        times_of(events.take(n), times.take(n)),
{
    assert forall|i: int| 0 <= i < n implies (match (#[trigger] times.take(n)[i], time_of(events.take(n)[i].timestamp)) {
        (Some(a), Some(b)) => a@ == b,
        (None, None) => true,
        _ => false,
    }) by {
        assert(times.take(n)[i] == times[i]);
        assert(events.take(n)[i] == events[i]);
    }
}

/// A header line for `label` and the time text `t`, nothing without one.
pub open spec fn stamp_text(label: Seq<char>, t: Option<String>) -> Seq<char> {
    match t {
        Some(x) => label + x@ + "\n"@,
        None => seq![],
    }
}

/// The earliest instant among `events`, which are not empty.
pub open spec fn earliest(events: Seq<ActivityEvent>) -> Timestamp
    decreases events.len(),
{
    if events.len() <= 1 {
        events[0].timestamp
    } else {
        let rest = earliest(events.drop_last());
        if rest.no_later_than(events.last().timestamp) { rest } else { events.last().timestamp }
    }
}

/// The latest instant among `events`, which are not empty.
pub open spec fn latest(events: Seq<ActivityEvent>) -> Timestamp
    decreases events.len(),
{
    if events.len() <= 1 {
        events[0].timestamp
    } else {
        let rest = latest(events.drop_last());
        if events.last().timestamp.no_later_than(rest) { rest } else { events.last().timestamp }
    }
}

pub open spec fn stamp_line(label: Seq<char>, at: Option<Timestamp>) -> Seq<char> {
    match at {
        Some(t) => match time_of(t) {
            Some(text) => label + text + "\n"@,
            None => seq![],
        },
        None => seq![],
    }
}

/// The report on `events` under `root`, given its table and process list.
pub open spec fn report_of(
    events: Seq<ActivityEvent>,
    root: Seq<char>,
    table: Seq<(Seq<char>, int, int)>,
    processes: Seq<(Seq<char>, int)>,
) -> Seq<char> {
    "# Pathlight report: "@ + leaf_of(root) + "\n\n- Folder: `"@ + root + "`\n"@
        + stamp_line("- First change: "@, if events.len() > 0 { Some(earliest(events)) } else { None })
        + stamp_line("- Last change: "@, if events.len() > 0 { Some(latest(events)) } else { None })
        + "- Changes: "@ + decimal(events.len()) + " ("@ + decimal(unknown_of(events) as nat) + " with unknown size)\n- Net change: "@
        + bytes_text(net_of(events)) + "\n"@
        + "\n## Where inside the folder\n\n| Item | Net change | Items |\n|---|---:|---:|\n"@ + table_text(table)
        + (if processes.len() > 0 { "\n## What was running\n\n"@ + process_text(processes) } else { seq![] })
        + "\n## Changes\n\n"@
        + change_lines(if events.len() <= REPORT_ROWS { events } else { events.take(REPORT_ROWS as int) })
        + (if events.len() > REPORT_ROWS { "- … "@ + decimal((events.len() - REPORT_ROWS) as nat) + " more changes not listed\n"@ } else { seq![] })
}

/// The report on `events` under `root`, given its table and process list,
/// the time of change `i` reading `times[i]` and the first and last change
/// reading `first` and `last`.
pub open spec fn report_at(
    events: Seq<ActivityEvent>,
    root: Seq<char>,
    table: Seq<(Seq<char>, int, int)>,
    processes: Seq<(Seq<char>, int)>,
    times: Seq<Option<String>>,
    first: Option<String>,
    last: Option<String>,
) -> Seq<char> {
    "# Pathlight report: "@ + leaf_of(root) + "\n\n- Folder: `"@ + root + "`\n"@
        + stamp_text("- First change: "@, first)
        + stamp_text("- Last change: "@, last)
        + "- Changes: "@ + decimal(events.len()) + " ("@ + decimal(unknown_of(events) as nat) + " with unknown size)\n- Net change: "@
        + bytes_text(net_of(events)) + "\n"@
        + "\n## Where inside the folder\n\n| Item | Net change | Items |\n|---|---:|---:|\n"@ + table_text(table)
        + (if processes.len() > 0 { "\n## What was running\n\n"@ + process_text(processes) } else { seq![] })
        + "\n## Changes\n\n"@
        + (if events.len() <= REPORT_ROWS { change_lines_at(events, times) } else {
            change_lines_at(events.take(REPORT_ROWS as int), times.take(REPORT_ROWS as int))
        })
        + (if events.len() > REPORT_ROWS { "- … "@ + decimal((events.len() - REPORT_ROWS) as nat) + " more changes not listed\n"@ } else { seq![] })
}

proof fn insert_sorted<T>(rows: Seq<T>, pos: int, x: T, before: spec_fn(T, T) -> bool)
    requires
        0 <= pos <= rows.len(),
        forall|i: int, j: int| 0 <= i < j < rows.len() ==> before(#[trigger] rows[i], #[trigger] rows[j]),
        forall|i: int| 0 <= i < pos ==> before(#[trigger] rows[i], x),
        pos < rows.len() ==> before(x, rows[pos]),
        forall|a: T, b: T, c: T| #[trigger] before(a, b) && #[trigger] before(b, c) ==> before(a, c),
    ensures
        forall|i: int, j: int| 0 <= i < j < rows.insert(pos, x).len() ==> before(
            #[trigger] rows.insert(pos, x)[i], #[trigger] rows.insert(pos, x)[j]),
{
    let out = rows.insert(pos, x);
    assert forall|i: int, j: int| 0 <= i < j < out.len() implies before(#[trigger] out[i], #[trigger] out[j]) by {
        if i < pos && j == pos {
        } else if i < pos && j > pos {
            assert(out[j] == rows[j - 1]);
            if j - 1 > i {
                assert(before(rows[i], rows[j - 1]));
            }
        } else if i == pos && j > pos {
            assert(out[j] == rows[j - 1]);
            if j - 1 > pos {
                assert(before(rows[pos], rows[j - 1]));
            }
        } else if i > pos {
            assert(out[i] == rows[i - 1]);
            assert(out[j] == rows[j - 1]);
        }
    }
}

proof fn row_before_transitive()
    ensures
        forall|a: (Seq<char>, int, int), b: (Seq<char>, int, int), c: (Seq<char>, int, int)|
            #[trigger] row_before(a, b) && #[trigger] row_before(b, c) ==> row_before(a, c),
{
    assert forall|a: (Seq<char>, int, int), b: (Seq<char>, int, int), c: (Seq<char>, int, int)|
        #[trigger] row_before(a, b) && #[trigger] row_before(b, c) implies row_before(a, c) by {
        if text_less(a.0, b.0) && text_less(b.0, c.0) {
            text_less_transitive(a.0, b.0, c.0);
        }
    }
}

proof fn process_before_transitive()
    ensures
        forall|a: (Seq<char>, int), b: (Seq<char>, int), c: (Seq<char>, int)|
            #[trigger] process_before(a, b) && #[trigger] process_before(b, c) ==> process_before(a, c),
{
    assert forall|a: (Seq<char>, int), b: (Seq<char>, int), c: (Seq<char>, int)|
        #[trigger] process_before(a, b) && #[trigger] process_before(b, c) implies process_before(a, c) by {
        if text_less(a.0, b.0) && text_less(b.0, c.0) {
            text_less_transitive(a.0, b.0, c.0);
        }
    }
}

pub open spec fn group_view(g: (String, i64, u64)) -> (Seq<char>, int, int) {
    (g.0@, g.1 as int, g.2 as int)
}

pub open spec fn groups_view(gs: Seq<(String, i64, u64)>) -> Seq<(Seq<char>, int, int)> {
    gs.map_values(|g: (String, i64, u64)| group_view(g))
}

pub open spec fn process_view(g: (String, u64)) -> (Seq<char>, int) {
    (g.0@, g.1 as int)
}

pub open spec fn processes_view(gs: Seq<(String, u64)>) -> Seq<(Seq<char>, int)> {
    gs.map_values(|g: (String, u64)| process_view(g))
}

/// What an export's arithmetic needs to stay in range: every running total
/// a report keeps fits in an `i64`, and no folder's net change is the one
/// value whose size has no `i64`.
#[verifier::opaque]
pub open spec fn report_fits(events: Seq<ActivityEvent>, root: Seq<char>) -> bool {
    &&& events.len() < 4_294_967_296
    &&& forall|k: int| 0 <= k <= events.len() ==> i64::MIN <= #[trigger] net_of(events.take(k)) <= i64::MAX
    &&& forall|k: int, name: Seq<char>| 0 <= k <= events.len()
        ==> i64::MIN <= #[trigger] group_bytes(events.take(k), root, name) <= i64::MAX
    &&& forall|name: Seq<char>| #[trigger] group_bytes(events, root, name) > i64::MIN
}

proof fn fits_at(events: Seq<ActivityEvent>, root: Seq<char>, k: int, name: Seq<char>)
    requires
        report_fits(events, root),
        0 <= k <= events.len(),
    ensures
        events.len() < 4_294_967_296,
        i64::MIN <= net_of(events.take(k)) <= i64::MAX,
        i64::MIN <= group_bytes(events.take(k), root, name) <= i64::MAX,
        group_bytes(events, root, name) > i64::MIN,
{
    reveal(report_fits);
}

proof fn group_items_bounded(events: Seq<ActivityEvent>, root: Seq<char>, name: Seq<char>)
    ensures
        0 <= group_items(events, root, name) <= events.len() * 4_294_967_295,
    decreases events.len(),
{
    if events.len() > 0 {
        group_items_bounded(events.drop_last(), root, name);
    }
}

proof fn process_count_bounded(events: Seq<ActivityEvent>, name: Seq<char>)
    ensures
        0 <= process_count(events, name) <= events.len(),
    decreases events.len(),
{
    if events.len() > 0 {
        process_count_bounded(events.drop_last(), name);
    }
}

/// Whether some row of `events` landed in `name`.
pub open spec fn occurs(events: Seq<ActivityEvent>, root: Seq<char>, name: Seq<char>) -> bool
    decreases events.len(),
{
    events.len() > 0 && (occurs(events.drop_last(), root, name) || within_of(root, events.last().path@) == name)
}

/// What holds of the groups after the first `k` rows: distinct names, each
/// with the totals of the rows that landed in it and owed to one of them,
/// and one for every row.
pub open spec fn groups_upto(events: Seq<ActivityEvent>, root: Seq<char>, gs: Seq<(Seq<char>, int, int)>, k: int) -> bool {
    &&& forall|g1: int, g2: int| 0 <= g1 < g2 < gs.len() ==> (#[trigger] gs[g1]).0 != (#[trigger] gs[g2]).0
    &&& forall|g: int| 0 <= g < gs.len() ==> (#[trigger] gs[g]).1 == group_bytes(events.take(k), root, gs[g].0)
        && gs[g].2 == group_items(events.take(k), root, gs[g].0) && occurs(events.take(k), root, gs[g].0)
    &&& forall|kk: int| #![trigger events[kk]] 0 <= kk < k ==> exists|g: int| 0 <= g < gs.len() && (#[trigger] gs[g]).0 == within_of(root, events[kk].path@)
}

proof fn not_occurs_sums(events: Seq<ActivityEvent>, root: Seq<char>, name: Seq<char>)
    requires
        !occurs(events, root, name),
    ensures
        group_bytes(events, root, name) == 0,
        group_items(events, root, name) == 0,
    decreases events.len(),
{
    if events.len() > 0 {
        not_occurs_sums(events.drop_last(), root, name);
    }
}

/// A name no row so far landed in does not occur among them.
proof fn absent_does_not_occur(events: Seq<ActivityEvent>, root: Seq<char>, name: Seq<char>, k: int)
    requires
        0 <= k <= events.len(),
        forall|kk: int| 0 <= kk < k ==> within_of(root, (#[trigger] events[kk]).path@) != name,
    ensures
        !occurs(events.take(k), root, name),
    decreases k,
{
    if k > 0 {
        assert(events.take(k).drop_last() =~= events.take(k - 1));
        assert(events.take(k).last() == events[k - 1]);
        absent_does_not_occur(events, root, name, k - 1);
    }
}

#[verifier::rlimit(30)]
proof fn groups_bumped(events: Seq<ActivityEvent>, root: Seq<char>, gs: Seq<(Seq<char>, int, int)>, k: int, g: int, after: Seq<(Seq<char>, int, int)>)
    requires
        0 <= k < events.len(),
        groups_upto(events, root, gs, k),
        0 <= g < gs.len(),
        gs[g].0 == within_of(root, events[k].path@),
        after.len() == gs.len(),
        after[g] == (gs[g].0, gs[g].1 + delta_or_zero(events[k]), gs[g].2 + events[k].affected_item_count),
        forall|h: int| 0 <= h < gs.len() && h != g ==> #[trigger] after[h] == gs[h],
    ensures
        groups_upto(events, root, after, k + 1),
{
    let next = events.take(k + 1);
    assert(next.drop_last() =~= events.take(k));
    assert(next.last() == events[k]);
    let name = gs[g].0;
    assert forall|h: int| 0 <= h < after.len() implies (#[trigger] after[h]).1 == group_bytes(next, root, after[h].0)
        && after[h].2 == group_items(next, root, after[h].0) && occurs(next, root, after[h].0) by {
        if h != g {
            assert(after[h] == gs[h]);
            assert(gs[h].0 != name);
        }
    }
    assert forall|kk: int| #![trigger events[kk]] 0 <= kk < k + 1 implies exists|h: int| 0 <= h < after.len()
        && (#[trigger] after[h]).0 == within_of(root, events[kk].path@) by {
        if kk == k {
            assert(after[g].0 == within_of(root, events[kk].path@));
        } else {
            let h = choose|h: int| 0 <= h < gs.len() && (#[trigger] gs[h]).0 == within_of(root, events[kk].path@);
            if h != g {
                assert(after[h] == gs[h]);
            }
            assert(after[h].0 == gs[h].0);
        }
    }
    assert forall|g1: int, g2: int| 0 <= g1 < g2 < after.len() implies (#[trigger] after[g1]).0 != (#[trigger] after[g2]).0 by {
        if g1 != g {
            assert(after[g1] == gs[g1]);
        }
        if g2 != g {
            assert(after[g2] == gs[g2]);
        }
    }
}

#[verifier::rlimit(30)]
proof fn groups_started(events: Seq<ActivityEvent>, root: Seq<char>, gs: Seq<(Seq<char>, int, int)>, k: int, after: Seq<(Seq<char>, int, int)>)
    requires
        0 <= k < events.len(),
        groups_upto(events, root, gs, k),
        forall|h: int| 0 <= h < gs.len() ==> (#[trigger] gs[h]).0 != within_of(root, events[k].path@),
        after == gs.push((within_of(root, events[k].path@), delta_or_zero(events[k]), events[k].affected_item_count as int)),
    ensures
        groups_upto(events, root, after, k + 1),
{
    let next = events.take(k + 1);
    let prefix = events.take(k);
    assert(next.drop_last() =~= prefix);
    assert(next.last() == events[k]);
    let name = within_of(root, events[k].path@);
    assert forall|kk: int| 0 <= kk < k implies within_of(root, (#[trigger] events[kk]).path@) != name by {
        let h = choose|h: int| 0 <= h < gs.len() && (#[trigger] gs[h]).0 == within_of(root, events[kk].path@);
    }
    absent_does_not_occur(events, root, name, k);
    not_occurs_sums(prefix, root, name);
    assert forall|h: int| 0 <= h < after.len() implies (#[trigger] after[h]).1 == group_bytes(next, root, after[h].0)
        && after[h].2 == group_items(next, root, after[h].0) && occurs(next, root, after[h].0) by {
        if h < gs.len() {
            assert(after[h] == gs[h]);
        }
    }
    assert forall|kk: int| #![trigger events[kk]] 0 <= kk < k + 1 implies exists|h: int| 0 <= h < after.len()
        && (#[trigger] after[h]).0 == within_of(root, events[kk].path@) by {
        if kk == k {
            assert(after[gs.len() as int].0 == within_of(root, events[kk].path@));
        } else {
            let h = choose|h: int| 0 <= h < gs.len() && (#[trigger] gs[h]).0 == within_of(root, events[kk].path@);
            assert(after[h] == gs[h]);
        }
    }
    assert forall|g1: int, g2: int| 0 <= g1 < g2 < after.len() implies (#[trigger] after[g1]).0 != (#[trigger] after[g2]).0 by {
        assert(after[g1] == gs[g1]);
        if g2 < gs.len() {
            assert(after[g2] == gs[g2]);
        }
    }
}

/// The groups of the rows so far, in the order their names first appeared.
fn add_to_groups(groups: &mut Vec<(String, i64, u64)>, events: &[ActivityEvent], root: &[char], k: usize)
    requires
        k < events@.len(),
        report_fits(events@, root@),
        groups_upto(events@, root@, groups_view(old(groups)@), k as int),
    ensures
        groups_upto(events@, root@, groups_view(final(groups)@), k + 1),
{
    let e = &events[k];
    let path = chars_of(e.path.as_str());
    let name_chars = within(root, path.as_slice());
    let name = string_of(name_chars.as_slice());
    let delta: i64 = match e.byte_delta { Some(d) => d, None => 0 };
    let ghost before = groups_view(groups@);
    let mut g: usize = 0;
    while g < groups.len() && groups[g].0 != name
        invariant
            g <= groups@.len(),
            before == groups_view(groups@),
            forall|h: int| 0 <= h < g ==> (#[trigger] before[h]).0 != name@,
        decreases groups@.len() - g,
    {
        proof {
            assert(before[g as int] == group_view(groups@[g as int]));
        }
        g = g + 1;
    }
    if g < groups.len() {
        proof {
            assert(before[g as int] == group_view(groups@[g as int]));
            let next = events@.take(k + 1);
            assert(next.drop_last() =~= events@.take(k as int));
            assert(next.last() == events@[k as int]);
            fits_at(events@, root@, k + 1, name@);
            group_items_bounded(next, root@, name@);
        }
        let same_name = groups[g].0.clone();
        let bytes = groups[g].1 + delta;
        let items = groups[g].2 + e.affected_item_count as u64;
        groups.set(g, (same_name, bytes, items));
        proof {
            let after = groups_view(groups@);
            assert forall|h: int| 0 <= h < before.len() && h != g implies #[trigger] after[h] == before[h] by {}
            groups_bumped(events@, root@, before, k as int, g as int, after);
        }
    } else {
        groups.push((name, delta, e.affected_item_count as u64));
        proof {
            assert(groups_view(groups@) =~= before.push((name@, delta_or_zero(events@[k as int]), events@[k as int].affected_item_count as int)));
            groups_started(events@, root@, before, k as int, groups_view(groups@));
        }
    }
}


proof fn row_before_total(a: (Seq<char>, int, int), b: (Seq<char>, int, int))
    requires
        a.0 != b.0,
    ensures
        row_before(a, b) || row_before(b, a),
{
    text_less_total(a.0, b.0);
}

proof fn process_before_total(a: (Seq<char>, int), b: (Seq<char>, int))
    requires
        a.0 != b.0,
    ensures
        process_before(a, b) || process_before(b, a),
{
    text_less_total(a.0, b.0);
}

fn magnitude(x: i64) -> (m: u64)
    requires
        x > i64::MIN,
    ensures
        m == abs(x as int),
{
    if x < 0 { (-x) as u64 } else { x as u64 }
}

fn is_row_before(a: &(String, i64, u64), b: &(String, i64, u64)) -> (r: bool)
    requires
        a.1 > i64::MIN,
        b.1 > i64::MIN,
    ensures
        r == row_before(group_view(*a), group_view(*b)),
{
    let ma = magnitude(a.1);
    let mb = magnitude(b.1);
    if ma != mb {
        ma > mb
    } else {
        let x = chars_of(a.0.as_str());
        let y = chars_of(b.0.as_str());
        is_text_less(x.as_slice(), y.as_slice())
    }
}

fn is_process_before(a: &(String, u64), b: &(String, u64)) -> (r: bool)
    ensures
        r == process_before(process_view(*a), process_view(*b)),
{
    if a.1 != b.1 {
        a.1 > b.1
    } else {
        let x = chars_of(a.0.as_str());
        let y = chars_of(b.0.as_str());
        is_text_less(x.as_slice(), y.as_slice())
    }
}

pub open spec fn sorted_by<T>(s: Seq<T>, before: spec_fn(T, T) -> bool) -> bool {
    forall|i: int, j: int| 0 <= i < j < s.len() ==> before(#[trigger] s[i], #[trigger] s[j])
}

/// Every element of `s` is one of the first `k` of `from`, and each of
/// those is in `s`.
pub open spec fn same_as_first<T>(s: Seq<T>, from: Seq<T>, k: int) -> bool {
    &&& forall|i: int| 0 <= i < s.len() ==> exists|g: int| 0 <= g < k && #[trigger] s[i] == #[trigger] from[g]
    &&& forall|g: int| 0 <= g < k ==> exists|i: int| 0 <= i < s.len() && #[trigger] s[i] == #[trigger] from[g]
}

proof fn same_after_insert<T>(s: Seq<T>, from: Seq<T>, k: int, pos: int)
    requires
        0 <= k < from.len(),
        0 <= pos <= s.len(),
        same_as_first(s, from, k),
    ensures
        same_as_first(s.insert(pos, from[k]), from, k + 1),
{
    let t = s.insert(pos, from[k]);
    assert forall|i: int| 0 <= i < t.len() implies exists|g: int| 0 <= g < k + 1 && #[trigger] t[i] == #[trigger] from[g] by {
        if i < pos {
            assert(t[i] == s[i]);
            let g = choose|g: int| 0 <= g < k && #[trigger] s[i] == #[trigger] from[g];
        } else if i > pos {
            assert(t[i] == s[i - 1]);
            let g = choose|g: int| 0 <= g < k && #[trigger] s[i - 1] == #[trigger] from[g];
        } else {
            assert(t[i] == from[k]);
        }
    }
    assert forall|g: int| 0 <= g < k + 1 implies exists|i: int| 0 <= i < t.len() && #[trigger] t[i] == #[trigger] from[g] by {
        if g < k {
            let i = choose|i: int| 0 <= i < s.len() && #[trigger] s[i] == #[trigger] from[g];
            if i < pos {
                assert(t[i] == s[i]);
            } else {
                assert(t[i + 1] == s[i]);
            }
        } else {
            assert(t[pos] == from[k]);
        }
    }
}

/// A name not among the first `k` is not among what was drawn from them.
proof fn fresh_name<T>(s: Seq<T>, from: Seq<T>, k: int, name: spec_fn(T) -> Seq<char>)
    requires
        0 <= k < from.len(),
        same_as_first(s, from, k),
        forall|g: int| 0 <= g < k ==> name(#[trigger] from[g]) != name(from[k]),
    ensures
        forall|i: int| 0 <= i < s.len() ==> name(#[trigger] s[i]) != name(from[k]),
{
    assert forall|i: int| 0 <= i < s.len() implies name(#[trigger] s[i]) != name(from[k]) by {
        let g = choose|g: int| 0 <= g < k && #[trigger] s[i] == #[trigger] from[g];
    }
}

pub open spec fn row_order() -> spec_fn((Seq<char>, int, int), (Seq<char>, int, int)) -> bool {
    |a: (Seq<char>, int, int), b: (Seq<char>, int, int)| row_before(a, b)
}

pub open spec fn process_order() -> spec_fn((Seq<char>, int), (Seq<char>, int)) -> bool {
    |a: (Seq<char>, int), b: (Seq<char>, int)| process_before(a, b)
}

/// Puts `x` where it sorts among rows already sorted, none of its name.
fn insert_row(out: &mut Vec<(String, i64, u64)>, x: (String, i64, u64)) -> (pos: usize)
    requires
        x.1 > i64::MIN,
        forall|i: int| 0 <= i < old(out)@.len() ==> (#[trigger] old(out)@[i]).1 > i64::MIN,
        forall|i: int| 0 <= i < old(out)@.len() ==> (#[trigger] old(out)@[i]).0@ != x.0@,
        sorted_by(groups_view(old(out)@), row_order()),
    ensures
        pos <= old(out)@.len(),
        groups_view(final(out)@) == groups_view(old(out)@).insert(pos as int, group_view(x)),
        sorted_by(groups_view(final(out)@), row_order()),
        forall|i: int| 0 <= i < final(out)@.len() ==> (#[trigger] final(out)@[i]).1 > i64::MIN,
{
    let ghost ov = groups_view(out@);
    let mut pos: usize = 0;
    while pos < out.len() && is_row_before(&out[pos], &x)
        invariant
            pos <= out@.len(),
            x.1 > i64::MIN,
            ov == groups_view(out@),
            forall|i: int| 0 <= i < out@.len() ==> (#[trigger] out@[i]).1 > i64::MIN,
            forall|i: int| 0 <= i < pos ==> row_before(#[trigger] ov[i], group_view(x)),
        decreases out@.len() - pos,
    {
        proof {
            assert(ov[pos as int] == group_view(out@[pos as int]));
        }
        pos = pos + 1;
    }
    proof {
        if pos < out@.len() {
            assert(ov[pos as int] == group_view(out@[pos as int]));
            row_before_total(ov[pos as int], group_view(x));
        }
        row_before_transitive();
        insert_sorted(ov, pos as int, group_view(x), row_order());
    }
    let ghost before = out@;
    out.insert(pos, x);
    proof {
        assert(groups_view(out@) =~= ov.insert(pos as int, group_view(x)));
        assert forall|i: int| 0 <= i < out@.len() implies (#[trigger] out@[i]).1 > i64::MIN by {
            if i < pos {
                assert(out@[i] == before[i]);
            } else if i > pos {
                assert(out@[i] == before[i - 1]);
            }
        }
    }
    pos
}

/// The groups, largest change first, then by name.
fn sort_groups(groups: &Vec<(String, i64, u64)>) -> (out: Vec<(String, i64, u64)>)
    requires
        forall|g1: int, g2: int| 0 <= g1 < g2 < groups@.len() ==> (#[trigger] groups@[g1]).0@ != (#[trigger] groups@[g2]).0@,
        forall|g: int| 0 <= g < groups@.len() ==> (#[trigger] groups@[g]).1 > i64::MIN,
    ensures
        sorted_by(groups_view(out@), row_order()),
        same_as_first(groups_view(out@), groups_view(groups@), groups@.len() as int),
{
    let ghost gv = groups_view(groups@);
    let mut out: Vec<(String, i64, u64)> = Vec::new();
    let mut k: usize = 0;
    proof {
        assert(groups_view(out@) =~= Seq::<(Seq<char>, int, int)>::empty());
        assert forall|g1: int, g2: int| 0 <= g1 < g2 < gv.len() implies (#[trigger] gv[g1]).0 != (#[trigger] gv[g2]).0 by {
            assert(gv[g1] == group_view(groups@[g1]));
            assert(gv[g2] == group_view(groups@[g2]));
        }
    }
    while k < groups.len()
        invariant
            k <= groups@.len(),
            gv == groups_view(groups@),
            forall|g1: int, g2: int| 0 <= g1 < g2 < gv.len() ==> (#[trigger] gv[g1]).0 != (#[trigger] gv[g2]).0,
            forall|g: int| 0 <= g < groups@.len() ==> (#[trigger] groups@[g]).1 > i64::MIN,
            forall|i: int| 0 <= i < out@.len() ==> (#[trigger] out@[i]).1 > i64::MIN,
            sorted_by(groups_view(out@), row_order()),
            same_as_first(groups_view(out@), gv, k as int),
        decreases groups@.len() - k,
    {
        let x = (groups[k].0.clone(), groups[k].1, groups[k].2);
        let ghost ov = groups_view(out@);
        proof {
            assert(group_view(x) == gv[k as int]);
            assert forall|g: int| 0 <= g < k implies (|v: (Seq<char>, int, int)| v.0)(#[trigger] gv[g])
                != (|v: (Seq<char>, int, int)| v.0)(gv[k as int]) by {}
            fresh_name(ov, gv, k as int, |v: (Seq<char>, int, int)| v.0);
            assert forall|i: int| 0 <= i < out@.len() implies (#[trigger] out@[i]).0@ != x.0@ by {
                assert(ov[i] == group_view(out@[i]));
                assert((|v: (Seq<char>, int, int)| v.0)(ov[i]) != (|v: (Seq<char>, int, int)| v.0)(gv[k as int]));
            }
        }
        let pos = insert_row(&mut out, x);
        proof {
            same_after_insert(ov, gv, k as int, pos as int);
        }
        k = k + 1;
    }
    out
}
/// Whether some row names `process`.
pub open spec fn process_occurs(events: Seq<ActivityEvent>, process: Seq<char>) -> bool
    decreases events.len(),
{
    events.len() > 0 && (process_occurs(events.drop_last(), process)
        || (events.last().process_name is Some && events.last().process_name->0@ == process))
}

pub open spec fn procs_upto(events: Seq<ActivityEvent>, ps: Seq<(Seq<char>, int)>, k: int) -> bool {
    &&& forall|g1: int, g2: int| 0 <= g1 < g2 < ps.len() ==> (#[trigger] ps[g1]).0 != (#[trigger] ps[g2]).0
    &&& forall|g: int| 0 <= g < ps.len() ==> (#[trigger] ps[g]).1 == process_count(events.take(k), ps[g].0)
        && process_occurs(events.take(k), ps[g].0)
    &&& forall|kk: int| #![trigger events[kk]] 0 <= kk < k && events[kk].process_name is Some ==> exists|g: int| 0 <= g < ps.len()
        && (#[trigger] ps[g]).0 == events[kk].process_name->0@
}

proof fn not_occurs_count(events: Seq<ActivityEvent>, process: Seq<char>)
    requires
        !process_occurs(events, process),
    ensures
        process_count(events, process) == 0,
    decreases events.len(),
{
    if events.len() > 0 {
        not_occurs_count(events.drop_last(), process);
    }
}

proof fn process_absent(events: Seq<ActivityEvent>, process: Seq<char>, k: int)
    requires
        0 <= k <= events.len(),
        forall|kk: int| 0 <= kk < k && (#[trigger] events[kk]).process_name is Some ==> events[kk].process_name->0@ != process,
    ensures
        !process_occurs(events.take(k), process),
    decreases k,
{
    if k > 0 {
        assert(events.take(k).drop_last() =~= events.take(k - 1));
        assert(events.take(k).last() == events[k - 1]);
        process_absent(events, process, k - 1);
    }
}

#[verifier::rlimit(30)]
proof fn procs_step(events: Seq<ActivityEvent>, ps: Seq<(Seq<char>, int)>, k: int, after: Seq<(Seq<char>, int)>, g: int)
    requires
        0 <= k < events.len(),
        procs_upto(events, ps, k),
        events[k].process_name is None ==> after == ps,
        events[k].process_name is Some ==> 0 <= g <= ps.len() && (g < ps.len() ==> ps[g].0 == events[k].process_name->0@
            && after == ps.update(g, (ps[g].0, ps[g].1 + 1))),
        events[k].process_name is Some && g == ps.len() ==> (forall|h: int| 0 <= h < ps.len() ==> (#[trigger] ps[h]).0 != events[k].process_name->0@)
            && after == ps.push((events[k].process_name->0@, 1int)),
    ensures
        procs_upto(events, after, k + 1),
{
    let next = events.take(k + 1);
    let prefix = events.take(k);
    assert(next.drop_last() =~= prefix);
    assert(next.last() == events[k]);
    if events[k].process_name is None {
        assert forall|h: int| 0 <= h < after.len() implies (#[trigger] after[h]).1 == process_count(next, after[h].0)
            && process_occurs(next, after[h].0) by {}
        assert forall|kk: int| #![trigger events[kk]] 0 <= kk < k + 1 && events[kk].process_name is Some implies exists|h: int|
            0 <= h < after.len() && (#[trigger] after[h]).0 == events[kk].process_name->0@ by {}
    } else {
        let name = events[k].process_name->0@;
        if g < ps.len() {
            assert forall|h: int| 0 <= h < after.len() implies (#[trigger] after[h]).1 == process_count(next, after[h].0)
                && process_occurs(next, after[h].0) by {
                if h != g {
                    assert(after[h] == ps[h]);
                    assert(ps[h].0 != ps[g].0);
                }
            }
            assert forall|kk: int| #![trigger events[kk]] 0 <= kk < k + 1 && events[kk].process_name is Some implies exists|h: int|
                0 <= h < after.len() && (#[trigger] after[h]).0 == events[kk].process_name->0@ by {
                if kk == k {
                    assert(after[g].0 == name);
                } else {
                    let h = choose|h: int| 0 <= h < ps.len() && (#[trigger] ps[h]).0 == events[kk].process_name->0@;
                    assert(after[h].0 == ps[h].0);
                }
            }
            assert forall|g1: int, g2: int| 0 <= g1 < g2 < after.len() implies (#[trigger] after[g1]).0 != (#[trigger] after[g2]).0 by {
                assert(after[g1].0 == ps[g1].0);
                assert(after[g2].0 == ps[g2].0);
            }
        } else {
            assert forall|kk: int| 0 <= kk < k && (#[trigger] events[kk]).process_name is Some implies events[kk].process_name->0@ != name by {
                let h = choose|h: int| 0 <= h < ps.len() && (#[trigger] ps[h]).0 == events[kk].process_name->0@;
            }
            process_absent(events, name, k);
            not_occurs_count(prefix, name);
            assert forall|h: int| 0 <= h < after.len() implies (#[trigger] after[h]).1 == process_count(next, after[h].0)
                && process_occurs(next, after[h].0) by {
                if h < ps.len() {
                    assert(after[h] == ps[h]);
                }
            }
            assert forall|kk: int| #![trigger events[kk]] 0 <= kk < k + 1 && events[kk].process_name is Some implies exists|h: int|
                0 <= h < after.len() && (#[trigger] after[h]).0 == events[kk].process_name->0@ by {
                if kk == k {
                    assert(after[ps.len() as int].0 == name);
                } else {
                    let h = choose|h: int| 0 <= h < ps.len() && (#[trigger] ps[h]).0 == events[kk].process_name->0@;
                    assert(after[h] == ps[h]);
                }
            }
            assert forall|g1: int, g2: int| 0 <= g1 < g2 < after.len() implies (#[trigger] after[g1]).0 != (#[trigger] after[g2]).0 by {
                assert(after[g1] == ps[g1]);
                if g2 < ps.len() {
                    assert(after[g2] == ps[g2]);
                }
            }
        }
    }
}

fn add_to_processes(procs: &mut Vec<(String, u64)>, events: &[ActivityEvent], k: usize)
    requires
        k < events@.len(),
        procs_upto(events@, processes_view(old(procs)@), k as int),
    ensures
        procs_upto(events@, processes_view(final(procs)@), k + 1),
{
    let ghost before = processes_view(procs@);
    match &events[k].process_name {
        None => {
            proof {
                procs_step(events@, before, k as int, before, 0);
            }
        },
        Some(name) => {
            let mut g: usize = 0;
            while g < procs.len() && procs[g].0 != *name
                invariant
                    g <= procs@.len(),
                    before == processes_view(procs@),
                    forall|h: int| 0 <= h < g ==> (#[trigger] before[h]).0 != name@,
                decreases procs@.len() - g,
            {
                proof {
                    assert(before[g as int] == process_view(procs@[g as int]));
                }
                g = g + 1;
            }
            if g < procs.len() {
                proof {
                    assert(before[g as int] == process_view(procs@[g as int]));
                    process_count_bounded(events@.take(k as int), name@);
                }
                let same = procs[g].0.clone();
                let count = procs[g].1 + 1;
                procs.set(g, (same, count));
                proof {
                    assert(processes_view(procs@) =~= before.update(g as int, (before[g as int].0, before[g as int].1 + 1)));
                    procs_step(events@, before, k as int, processes_view(procs@), g as int);
                }
            } else {
                procs.push((name.clone(), 1));
                proof {
                    assert(processes_view(procs@) =~= before.push((name@, 1int)));
                    procs_step(events@, before, k as int, processes_view(procs@), g as int);
                }
            }
        },
    }
}

fn insert_process(out: &mut Vec<(String, u64)>, x: (String, u64)) -> (pos: usize)
    requires
        forall|i: int| 0 <= i < old(out)@.len() ==> (#[trigger] old(out)@[i]).0@ != x.0@,
        sorted_by(processes_view(old(out)@), process_order()),
    ensures
        pos <= old(out)@.len(),
        processes_view(final(out)@) == processes_view(old(out)@).insert(pos as int, process_view(x)),
        sorted_by(processes_view(final(out)@), process_order()),
{
    let ghost ov = processes_view(out@);
    let mut pos: usize = 0;
    while pos < out.len() && is_process_before(&out[pos], &x)
        invariant
            pos <= out@.len(),
            ov == processes_view(out@),
            forall|i: int| 0 <= i < pos ==> process_before(#[trigger] ov[i], process_view(x)),
        decreases out@.len() - pos,
    {
        proof {
            assert(ov[pos as int] == process_view(out@[pos as int]));
        }
        pos = pos + 1;
    }
    proof {
        if pos < out@.len() {
            assert(ov[pos as int] == process_view(out@[pos as int]));
            process_before_total(ov[pos as int], process_view(x));
        }
        process_before_transitive();
        insert_sorted(ov, pos as int, process_view(x), process_order());
    }
    out.insert(pos, x);
    proof {
        assert(processes_view(out@) =~= ov.insert(pos as int, process_view(x)));
    }
    pos
}

fn sort_processes(procs: &Vec<(String, u64)>) -> (out: Vec<(String, u64)>)
    requires
        forall|g1: int, g2: int| 0 <= g1 < g2 < procs@.len() ==> (#[trigger] procs@[g1]).0@ != (#[trigger] procs@[g2]).0@,
    ensures
        sorted_by(processes_view(out@), process_order()),
        same_as_first(processes_view(out@), processes_view(procs@), procs@.len() as int),
{
    let ghost gv = processes_view(procs@);
    let mut out: Vec<(String, u64)> = Vec::new();
    let mut k: usize = 0;
    proof {
        assert(processes_view(out@) =~= Seq::<(Seq<char>, int)>::empty());
        assert forall|g1: int, g2: int| 0 <= g1 < g2 < gv.len() implies (#[trigger] gv[g1]).0 != (#[trigger] gv[g2]).0 by {
            assert(gv[g1] == process_view(procs@[g1]));
            assert(gv[g2] == process_view(procs@[g2]));
        }
    }
    while k < procs.len()
        invariant
            k <= procs@.len(),
            gv == processes_view(procs@),
            forall|g1: int, g2: int| 0 <= g1 < g2 < gv.len() ==> (#[trigger] gv[g1]).0 != (#[trigger] gv[g2]).0,
            sorted_by(processes_view(out@), process_order()),
            same_as_first(processes_view(out@), gv, k as int),
        decreases procs@.len() - k,
    {
        let x = (procs[k].0.clone(), procs[k].1);
        let ghost ov = processes_view(out@);
        proof {
            assert(process_view(x) == gv[k as int]);
            assert forall|g: int| 0 <= g < k implies (|v: (Seq<char>, int)| v.0)(#[trigger] gv[g])
                != (|v: (Seq<char>, int)| v.0)(gv[k as int]) by {}
            fresh_name(ov, gv, k as int, |v: (Seq<char>, int)| v.0);
            assert forall|i: int| 0 <= i < out@.len() implies (#[trigger] out@[i]).0@ != x.0@ by {
                assert(ov[i] == process_view(out@[i]));
                assert((|v: (Seq<char>, int)| v.0)(ov[i]) != (|v: (Seq<char>, int)| v.0)(gv[k as int]));
            }
        }
        let pos = insert_process(&mut out, x);
        proof {
            same_after_insert(ov, gv, k as int, pos as int);
        }
        k = k + 1;
    }
    out
}

proof fn table_from_groups(events: Seq<ActivityEvent>, root: Seq<char>, gv: Seq<(Seq<char>, int, int)>, ov: Seq<(Seq<char>, int, int)>)
    requires
        groups_upto(events, root, gv, events.len() as int),
        sorted_by(ov, row_order()),
        same_as_first(ov, gv, gv.len() as int),
    ensures
        is_where_table(events, root, ov),
{
    assert(events.take(events.len() as int) =~= events);
    assert forall|i: int, j: int| 0 <= i < j < ov.len() implies row_before(#[trigger] ov[i], #[trigger] ov[j]) by {
        assert((row_order())(ov[i], ov[j]));
        assert((row_order())(ov[i], ov[j]) == row_before(ov[i], ov[j]));
    }
    assert forall|i: int| 0 <= i < ov.len() implies (#[trigger] ov[i]).1 == group_bytes(events, root, ov[i].0)
        && ov[i].2 == group_items(events, root, ov[i].0) && occurs(events, root, ov[i].0) by {
        let g = choose|g: int| 0 <= g < gv.len() && #[trigger] ov[i] == #[trigger] gv[g];
        assert(gv[g].1 == group_bytes(events.take(events.len() as int), root, gv[g].0));
    }
    assert forall|k: int| #![trigger events[k]] 0 <= k < events.len() implies (exists|i: int| 0 <= i < ov.len()
        && (#[trigger] ov[i]).0 == within_of(root, events[k].path@)) by {
        assert(0 <= k < events.len());
        let g = choose|g: int| 0 <= g < gv.len() && (#[trigger] gv[g]).0 == within_of(root, events[k].path@);
        assert(0 <= g < gv.len());
        let i = choose|i: int| 0 <= i < ov.len() && #[trigger] ov[i] == #[trigger] gv[g];
        assert(0 <= i < ov.len());
        assert(ov[i].0 == within_of(root, events[k].path@));
    }
    assert(is_where_table(events, root, ov));
}

proof fn list_from_processes(events: Seq<ActivityEvent>, gv: Seq<(Seq<char>, int)>, ov: Seq<(Seq<char>, int)>)
    requires
        procs_upto(events, gv, events.len() as int),
        sorted_by(ov, process_order()),
        same_as_first(ov, gv, gv.len() as int),
    ensures
        is_process_list(events, ov),
{
    assert(events.take(events.len() as int) =~= events);
    assert forall|i: int, j: int| 0 <= i < j < ov.len() implies process_before(#[trigger] ov[i], #[trigger] ov[j]) by {
        assert((process_order())(ov[i], ov[j]));
        assert((process_order())(ov[i], ov[j]) == process_before(ov[i], ov[j]));
    }
    assert forall|i: int| 0 <= i < ov.len() implies (#[trigger] ov[i]).1 == process_count(events, ov[i].0)
        && exists|k: int| 0 <= k < events.len() && (#[trigger] events[k]).process_name is Some && events[k].process_name->0@ == ov[i].0 by {
        let g = choose|g: int| 0 <= g < gv.len() && #[trigger] ov[i] == #[trigger] gv[g];
        occurs_at(events, ov[i].0);
    }
    assert forall|k: int| #![trigger events[k]] 0 <= k < events.len() && events[k].process_name is Some implies exists|i: int|
        0 <= i < ov.len() && (#[trigger] ov[i]).0 == events[k].process_name->0@ by {
        let g = choose|g: int| 0 <= g < gv.len() && (#[trigger] gv[g]).0 == events[k].process_name->0@;
        let i = choose|i: int| 0 <= i < ov.len() && #[trigger] ov[i] == #[trigger] gv[g];
    }
}

proof fn occurs_at(events: Seq<ActivityEvent>, process: Seq<char>)
    requires
        process_occurs(events, process),
    ensures
        exists|k: int| 0 <= k < events.len() && (#[trigger] events[k]).process_name is Some && events[k].process_name->0@ == process,
    decreases events.len(),
{
    let rest = events.drop_last();
    if process_occurs(rest, process) {
        occurs_at(rest, process);
        let k = choose|k: int| 0 <= k < rest.len() && (#[trigger] rest[k]).process_name is Some && rest[k].process_name->0@ == process;
        assert(events[k] == rest[k]);
    } else {
        assert(events[events.len() - 1] == events.last());
    }
}

fn table_exec(rows: &Vec<(String, i64, u64)>) -> (out: Vec<char>)
    ensures
        out@ == table_text(groups_view(rows@)),
{
    let mut out: Vec<char> = Vec::new();
    let mut i: usize = 0;
    while i < rows.len()
        invariant
            i <= rows@.len(),
            out@ == table_text(groups_view(rows@).take(i as int)),
        decreases rows@.len() - i,
    {
        let r = &rows[i];
        let ghost before = out@;
        push_str(&mut out, "| ");
        let name = chars_of(r.0.as_str());
        let c = cell(name.as_slice());
        push_all(&mut out, c.as_slice());
        push_str(&mut out, " | ");
        let size = human_bytes(r.1);
        push_str(&mut out, size.as_str());
        push_str(&mut out, " | ");
        let items = decimal_of(r.2);
        push_all(&mut out, items.as_slice());
        push_str(&mut out, " |\n");
        proof {
            let v = groups_view(rows@);
            assert(v.take(i + 1).drop_last() =~= v.take(i as int));
            assert(v.take(i + 1).last() == group_view(rows@[i as int]));
            assert(out@ =~= before + "| "@ + cell_of(r.0@) + " | "@ + bytes_text(r.1 as int) + " | "@ + decimal(r.2 as nat) + " |\n"@);
        }
        i = i + 1;
    }
    proof {
        assert(groups_view(rows@).take(rows@.len() as int) =~= groups_view(rows@));
    }
    out
}

fn process_exec(rows: &Vec<(String, u64)>) -> (out: Vec<char>)
    ensures
        out@ == process_text(processes_view(rows@)),
{
    let mut out: Vec<char> = Vec::new();
    let mut i: usize = 0;
    while i < rows.len()
        invariant
            i <= rows@.len(),
            out@ == process_text(processes_view(rows@).take(i as int)),
        decreases rows@.len() - i,
    {
        let r = &rows[i];
        let ghost before = out@;
        push_str(&mut out, "- ");
        let name = chars_of(r.0.as_str());
        let c = cell(name.as_slice());
        push_all(&mut out, c.as_slice());
        push_str(&mut out, ": ");
        let count = decimal_of(r.1);
        push_all(&mut out, count.as_slice());
        push_str(&mut out, " changes\n");
        proof {
            let v = processes_view(rows@);
            assert(v.take(i + 1).drop_last() =~= v.take(i as int));
            assert(v.take(i + 1).last() == process_view(rows@[i as int]));
            assert(out@ =~= before + "- "@ + cell_of(r.0@) + ": "@ + decimal(r.1 as nat) + " changes\n"@);
        }
        i = i + 1;
    }
    proof {
        assert(processes_view(rows@).take(rows@.len() as int) =~= processes_view(rows@));
    }
    out
}

fn change_line_exec(e: &ActivityEvent, at: &Option<String>, out: &mut Vec<char>)
    ensures
        final(out)@ == old(out)@ + change_line_at(*e, text_of(*at)),
{
    let ghost start = out@;
    let mut line: Vec<char> = Vec::new();
    push_str(&mut line, "- ");
    match at {
        Some(t) => push_str(&mut line, t.as_str()),
        None => push_str(&mut line, "unknown time"),
    }
    push_str(&mut line, " ");
    push_str(&mut line, kind_label(e.kind));
    push_str(&mut line, " `");
    push_str(&mut line, e.path.as_str());
    push_str(&mut line, "`");
    let ghost a = line@;
    match &e.previous_path {
        Some(p) => {
            push_str(&mut line, " (from `");
            push_str(&mut line, p.as_str());
            push_str(&mut line, "`)");
        },
        None => {},
    }
    let ghost b = line@;
    match e.byte_delta {
        Some(d) => {
            push_str(&mut line, " ");
            let size = human_bytes(d);
            push_str(&mut line, size.as_str());
        },
        None => push_str(&mut line, " unknown size"),
    }
    let ghost c = line@;
    match &e.process_name {
        Some(p) => {
            push_str(&mut line, " · ");
            let name = chars_of(p.as_str());
            let escaped = cell(name.as_slice());
            push_all(&mut line, escaped.as_slice());
        },
        None => {},
    }
    push_str(&mut line, "\n");
    proof {
        assert(a =~= "- "@ + (match text_of(*at) { Some(t) => t, None => "unknown time"@ }) + " "@ + kind_word(e.kind)
            + " `"@ + e.path@ + "`"@);
        assert(b =~= a + (match e.previous_path { Some(p) => " (from `"@ + p@ + "`)"@, None => seq![] }));
        assert(c =~= b + (match e.byte_delta { Some(d) => " "@ + bytes_text(d as int), None => " unknown size"@ }));
        assert(line@ =~= c + (match e.process_name { Some(p) => " · "@ + cell_of(p@), None => seq![] }) + "\n"@);
        assert(line@ == change_line_at(*e, text_of(*at)));
    }
    push_all(out, line.as_slice());
}

fn earliest_exec(events: &[ActivityEvent]) -> (t: Timestamp)
    requires
        events@.len() > 0,
    ensures
        t == earliest(events@),
{
    let mut t = events[0].timestamp;
    let mut i: usize = 1;
    proof {
        assert(events@.take(1).len() == 1);
    }
    while i < events.len()
        invariant
            1 <= i <= events@.len(),
            t == earliest(events@.take(i as int)),
        decreases events@.len() - i,
    {
        proof {
            assert(events@.take(i + 1).drop_last() =~= events@.take(i as int));
        }
        if !t.is_no_later_than(&events[i].timestamp) {
            t = events[i].timestamp;
        }
        i = i + 1;
    }
    proof {
        assert(events@.take(events@.len() as int) =~= events@);
    }
    t
}

fn latest_exec(events: &[ActivityEvent]) -> (t: Timestamp)
    requires
        events@.len() > 0,
    ensures
        t == latest(events@),
{
    let mut t = events[0].timestamp;
    let mut i: usize = 1;
    proof {
        assert(events@.take(1).len() == 1);
    }
    while i < events.len()
        invariant
            1 <= i <= events@.len(),
            t == latest(events@.take(i as int)),
        decreases events@.len() - i,
    {
        proof {
            assert(events@.take(i + 1).drop_last() =~= events@.take(i as int));
        }
        if !events[i].timestamp.is_no_later_than(&t) {
            t = events[i].timestamp;
        }
        i = i + 1;
    }
    proof {
        assert(events@.take(events@.len() as int) =~= events@);
    }
    t
}

fn stamp_exec(out: &mut Vec<char>, label: &str, at: &Option<String>)
    ensures
        final(out)@ == old(out)@ + stamp_text(label@, *at),
{
    match at {
        Some(text) => {
            let ghost before = out@;
            push_str(out, label);
            push_str(out, text.as_str());
            push_str(out, "\n");
            proof {
                assert(out@ =~= before + (label@ + text@ + "\n"@));
            }
        },
        None => {
            proof {
                assert(old(out)@ + stamp_text(label@, *at) =~= old(out)@);
            }
        },
    }
}

/// The text of `at` as the report spells it, `None` past the year 9999.
fn time_text(at: Timestamp) -> (out: Option<String>)
    ensures
        text_of(out) == time_of(at),
{
    if at.secs <= LAST_SPELLABLE_SECOND {
        let probe = ActivityEvent {
            kind: EventKind::Modified,
            path: String::new(),
            root_path: String::new(),
            timestamp: at,
            byte_delta: None,
            confidence: Confidence::Unknown,
            previous_path: None,
            affected_item_count: 0,
            process_name: None,
        };
        probe.timestamp_text()
    } else {
        None
    }
}

fn net_and_unknown(events: &[ActivityEvent], root: &[char]) -> (r: (i64, u64))
    requires
        report_fits(events@, root@),
    ensures
        r.0 == net_of(events@),
        r.1 == unknown_of(events@),
{
    let mut net: i64 = 0;
    let mut unknown: u64 = 0;
    let mut i: usize = 0;
    while i < events.len()
        invariant
            i <= events@.len(),
            report_fits(events@, root@),
            net == net_of(events@.take(i as int)),
            unknown == unknown_of(events@.take(i as int)),
            unknown <= i,
        decreases events@.len() - i,
    {
        proof {
            assert(events@.take(i + 1).drop_last() =~= events@.take(i as int));
            fits_at(events@, root@, i + 1, seq![]);
        }
        match events[i].byte_delta {
            Some(d) => net = net + d,
            None => unknown = unknown + 1,
        }
        i = i + 1;
    }
    proof {
        assert(events@.take(events@.len() as int) =~= events@);
    }
    (net, unknown)
}

fn header_exec(events: &[ActivityEvent], root: &str, first: &Option<String>, last: &Option<String>) -> (out: Vec<char>)
    requires
        report_fits(events@, root@),
    ensures
        out@ == "# Pathlight report: "@ + leaf_of(root@) + "\n\n- Folder: `"@ + root@ + "`\n"@
            + stamp_text("- First change: "@, *first)
            + stamp_text("- Last change: "@, *last)
            + "- Changes: "@ + decimal(events@.len()) + " ("@ + decimal(unknown_of(events@) as nat) + " with unknown size)\n- Net change: "@
            + bytes_text(net_of(events@)) + "\n"@,
{
    let root_chars = chars_of(root);
    let mut out: Vec<char> = Vec::new();
    push_str(&mut out, "# Pathlight report: ");
    let name = leaf(root);
    push_str(&mut out, name.as_str());
    push_str(&mut out, "\n\n- Folder: `");
    push_str(&mut out, root);
    push_str(&mut out, "`\n");
    let ghost p1 = out@;
    stamp_exec(&mut out, "- First change: ", first);
    let ghost p2 = out@;
    stamp_exec(&mut out, "- Last change: ", last);
    let ghost p3 = out@;
    let (net, unknown) = net_and_unknown(events, root_chars.as_slice());
    push_str(&mut out, "- Changes: ");
    let count = decimal_of(events.len() as u64);
    push_all(&mut out, count.as_slice());
    push_str(&mut out, " (");
    let u = decimal_of(unknown);
    push_all(&mut out, u.as_slice());
    push_str(&mut out, " with unknown size)\n- Net change: ");
    let n = human_bytes(net);
    push_str(&mut out, n.as_str());
    push_str(&mut out, "\n");
    proof {
        assert(p1 =~= "# Pathlight report: "@ + leaf_of(root@) + "\n\n- Folder: `"@ + root@ + "`\n"@);
        assert(out@ =~= p3 + "- Changes: "@ + decimal(events@.len()) + " ("@ + decimal(unknown_of(events@) as nat)
            + " with unknown size)\n- Net change: "@ + bytes_text(net_of(events@)) + "\n"@);
    }
    out
}

fn tables_exec(events: &[ActivityEvent], root: &str) -> (r: (Vec<(String, i64, u64)>, Vec<(String, u64)>))
    requires
        report_fits(events@, root@),
    ensures
        is_where_table(events@, root@, groups_view(r.0@)),
        is_process_list(events@, processes_view(r.1@)),
{
    let root_chars = chars_of(root);
    let mut groups: Vec<(String, i64, u64)> = Vec::new();
    let mut procs: Vec<(String, u64)> = Vec::new();
    let mut k: usize = 0;
    proof {
        assert(groups_view(groups@) =~= Seq::<(Seq<char>, int, int)>::empty());
        assert(processes_view(procs@) =~= Seq::<(Seq<char>, int)>::empty());
    }
    while k < events.len()
        invariant
            k <= events@.len(),
            report_fits(events@, root_chars@),
            root_chars@ == root@,
            groups_upto(events@, root@, groups_view(groups@), k as int),
            procs_upto(events@, processes_view(procs@), k as int),
        decreases events@.len() - k,
    {
        add_to_groups(&mut groups, events, root_chars.as_slice(), k);
        add_to_processes(&mut procs, events, k);
        k = k + 1;
    }
    proof {
        let gv = groups_view(groups@);
        assert forall|g1: int, g2: int| 0 <= g1 < g2 < groups@.len() implies (#[trigger] groups@[g1]).0@ != (#[trigger] groups@[g2]).0@ by {
            assert(gv[g1] == group_view(groups@[g1]));
            assert(gv[g2] == group_view(groups@[g2]));
        }
        assert(events@.take(events@.len() as int) =~= events@);
        assert forall|g: int| 0 <= g < groups@.len() implies (#[trigger] groups@[g]).1 > i64::MIN by {
            assert(gv[g] == group_view(groups@[g]));
            fits_at(events@, root@, events@.len() as int, gv[g].0);
        }
        let pv = processes_view(procs@);
        assert forall|g1: int, g2: int| 0 <= g1 < g2 < procs@.len() implies (#[trigger] procs@[g1]).0@ != (#[trigger] procs@[g2]).0@ by {
            assert(pv[g1] == process_view(procs@[g1]));
            assert(pv[g2] == process_view(procs@[g2]));
        }
    }
    let table = sort_groups(&groups);
    let listed = sort_processes(&procs);
    proof {
        table_from_groups(events@, root@, groups_view(groups@), groups_view(table@));
        list_from_processes(events@, processes_view(procs@), processes_view(listed@));
    }
    (table, listed)
}

fn changes_exec(events: &[ActivityEvent], times: &[Option<String>]) -> (out: Vec<char>)
    requires
        times@.len() == events@.len(),
    ensures
        out@ == "\n## Changes\n\n"@
            + (if events@.len() <= REPORT_ROWS { change_lines_at(events@, times@) } else {
                change_lines_at(events@.take(REPORT_ROWS as int), times@.take(REPORT_ROWS as int))
            })
            + (if events@.len() > REPORT_ROWS { "- … "@ + decimal((events@.len() - REPORT_ROWS) as nat) + " more changes not listed\n"@ } else { seq![] }),
{
    let mut out: Vec<char> = Vec::new();
    push_str(&mut out, "\n## Changes\n\n");
    let shown = if events.len() <= REPORT_ROWS { events.len() } else { REPORT_ROWS };
    let mut i: usize = 0;
    let ghost p6 = out@;
    while i < shown
        invariant
            i <= shown <= events@.len(),
            times@.len() == events@.len(),
            out@ == p6 + change_lines_at(events@.take(i as int), times@.take(i as int)),
        decreases shown - i,
    {
        change_line_exec(&events[i], &times[i], &mut out);
        proof {
            assert(events@.take(i + 1).drop_last() =~= events@.take(i as int));
            assert(times@.take(i + 1).take(i as int) =~= times@.take(i as int));
        }
        i = i + 1;
    }
    let ghost p7 = out@;
    if events.len() > REPORT_ROWS {
        push_str(&mut out, "- … ");
        let omitted = decimal_of((events.len() - REPORT_ROWS) as u64);
        push_all(&mut out, omitted.as_slice());
        push_str(&mut out, " more changes not listed\n");
    }
    proof {
        if events@.len() <= REPORT_ROWS {
            assert(events@.take(shown as int) =~= events@);
            assert(times@.take(shown as int) =~= times@);
        }
        assert(out@ =~= p7 + (if events@.len() > REPORT_ROWS { "- … "@ + decimal((events@.len() - REPORT_ROWS) as nat) + " more changes not listed\n"@ } else { seq![] }));
    }
    out
}

/// The same records as a report a person reads rather than a spreadsheet
/// opens: the totals, where inside the folder they landed, what was
/// running, and then the rows.
pub fn markdown(events: &[ActivityEvent], root: &str) -> (text: String)
    requires
        report_fits(events@, root@),
    ensures
        exists|table: Seq<(Seq<char>, int, int)>, processes: Seq<(Seq<char>, int)>|
            #[trigger] is_where_table(events@, root@, table) && #[trigger] is_process_list(events@, processes)
                && text@ == report_of(events@, root@, table, processes),
{
    let mut times: Vec<Option<String>> = Vec::new();
    let mut i: usize = 0;
    while i < events.len()
        invariant
            i <= events@.len(),
            times_of(events@.take(i as int), times@),
        decreases events@.len() - i,
    {
        let t = time_text(events[i].timestamp);
        times.push(t);
        proof {
            let e = events@.take(i + 1);
            assert forall|k: int| 0 <= k < e.len() implies (match (#[trigger] times@[k], time_of(e[k].timestamp)) {
                (Some(a), Some(b)) => a@ == b,
                (None, None) => true,
                _ => false,
            }) by {
                if k < i {
                    assert(e[k] == events@.take(i as int)[k]);
                }
            }
        }
        i = i + 1;
    }
    let first = if events.len() > 0 { time_text(earliest_exec(events)) } else { None };
    let last = if events.len() > 0 { time_text(latest_exec(events)) } else { None };
    let text = markdown_at(events, root, times.as_slice(), &first, &last);
    proof {
        assert(events@.take(events@.len() as int) =~= events@);
        let r = REPORT_ROWS as int;
        if events@.len() <= REPORT_ROWS {
            lines_at_times(events@, times@);
        } else {
            times_of_prefix(events@, times@, r);
            lines_at_times(events@.take(r), times@.take(r));
        }
        assert(stamp_text("- First change: "@, first) == stamp_line("- First change: "@, if events@.len() > 0 { Some(earliest(events@)) } else { None }));
        assert(stamp_text("- Last change: "@, last) == stamp_line("- Last change: "@, if events@.len() > 0 { Some(latest(events@)) } else { None }));
        assert forall|table: Seq<(Seq<char>, int, int)>, processes: Seq<(Seq<char>, int)>|
            report_at(events@, root@, table, processes, times@, first, last) == #[trigger] report_of(events@, root@, table, processes) by {
        }
    }
    text
}

/// The report on `events` under `root`, the time of change `i` reading
/// `times[i]` and the first and last change reading `first` and `last`.
pub fn markdown_at(
    events: &[ActivityEvent],
    root: &str,
    times: &[Option<String>],
    first: &Option<String>,
    last: &Option<String>,
) -> (text: String)
    requires
        report_fits(events@, root@),
        times@.len() == events@.len(),
    ensures
        exists|table: Seq<(Seq<char>, int, int)>, processes: Seq<(Seq<char>, int)>|
            #[trigger] is_where_table(events@, root@, table) && #[trigger] is_process_list(events@, processes)
                && text@ == report_at(events@, root@, table, processes, times@, *first, *last),
{
    let mut out = header_exec(events, root, first, last);
    let ghost p3 = out@;
    let (table, listed) = tables_exec(events, root);
    push_str(&mut out, "\n## Where inside the folder\n\n| Item | Net change | Items |\n|---|---:|---:|\n");
    let t = table_exec(&table);
    push_all(&mut out, t.as_slice());
    let ghost p4 = out@;
    if listed.len() > 0 {
        push_str(&mut out, "\n## What was running\n\n");
        let pt = process_exec(&listed);
        push_all(&mut out, pt.as_slice());
    }
    let ghost p5 = out@;
    let rest = changes_exec(events, times);
    push_all(&mut out, rest.as_slice());
    proof {
        assert(p4 =~= p3 + "\n## Where inside the folder\n\n| Item | Net change | Items |\n|---|---:|---:|\n"@ + table_text(groups_view(table@)));
        assert(p5 =~= p4 + (if processes_view(listed@).len() > 0 { "\n## What was running\n\n"@ + process_text(processes_view(listed@)) } else { seq![] }));
        assert(out@ =~= report_at(events@, root@, groups_view(table@), processes_view(listed@), times@, *first, *last));
    }
    string_of(out.as_slice())
}
} // verus!
