//! How a change reads to a person: its size, its kind, when it happened, and
//! what a finding is called.
//!
//! Shared because the same row is shown in a window, printed by the command
//! line and written into an export, and a size that reads three ways is three
//! answers to one question.

use vstd::prelude::*;

use crate::anomaly::{Anomaly, AnomalyKind, WINDOW};
use crate::chars::{
    chars_of, decimal, decimal_of, digit, push_all, push_str, slice_of, string_of, trim_end,
    trimmed_end,
};
use crate::event::{EventKind, Timestamp};
use crate::monitor::Capabilities;

verus! {

/// What happened, in one word.
pub open spec fn kind_word(kind: EventKind) -> Seq<char> {
    match kind {
        EventKind::Created => "new"@,
        EventKind::Modified => "changed"@,
        EventKind::Deleted => "deleted"@,
        EventKind::Moved => "moved"@,
        EventKind::Aggregate => "group"@,
    }
}

/// What happened, in one word.
pub fn kind_label(kind: EventKind) -> (label: &'static str)
    ensures
        label@ == kind_word(kind),
{
    match kind {
        EventKind::Created => "new",
        EventKind::Modified => "changed",
        EventKind::Deleted => "deleted",
        EventKind::Moved => "moved",
        EventKind::Aggregate => "group",
    }
}

/// The index of the last `c` in `s`, or -1.
pub open spec fn last_index_of(s: Seq<char>, c: char) -> int
    decreases s.len(),
{
    if s.len() == 0 {
        -1
    } else if s.last() == c {
        s.len() - 1
    } else {
        last_index_of(s.drop_last(), c)
    }
}


/// The last component of a path: what the user calls the folder.
pub open spec fn leaf_of(path: Seq<char>) -> Seq<char> {
    let trimmed = trim_end(path, '/');
    if trimmed.len() == 0 {
        path
    } else {
        trimmed.skip(last_index_of(trimmed, '/') + 1)
    }
}

/// The last component of a path: what the user calls the folder.
pub fn leaf(path: &str) -> (out: String)
    ensures
        out@ == leaf_of(path@),
{
    let text = chars_of(path);
    let trimmed = trimmed_end(text.as_slice(), '/');
    if trimmed.len() == 0 {
        return string_of(text.as_slice());
    }
    let mut at: usize = trimmed.len();
    assert(trimmed@.take(trimmed@.len() as int) =~= trimmed@);
    while at > 0 && trimmed[at - 1] != '/'
        invariant
            0 <= at <= trimmed@.len(),
            last_index_of(trimmed@.take(at as int), '/') == last_index_of(trimmed@, '/'),
        decreases at,
    {
        proof {
            assert(trimmed@.take(at as int).drop_last() =~= trimmed@.take(at - 1));
        }
        at = at - 1;
    }
    proof {
        assert(trimmed@.take(trimmed@.len() as int) =~= trimmed@);
        if at > 0 {
            assert(trimmed@.take(at as int).last() == '/');
        }
    }
    let tail = slice_of(trimmed.as_slice(), at, trimmed.len());
    string_of(tail.as_slice())
}

/// The number of bytes a unit names.
pub open spec fn unit_size(k: nat) -> nat {
    if k == 0 { 1 } else if k == 1 { 1024 } else if k == 2 { 1_048_576 }
    else if k == 3 { 1_073_741_824 } else { 1_099_511_627_776 }
}

/// The unit a magnitude is spelled in: the largest below which it has fewer
/// than 1024 of the next one, up to terabytes.
pub open spec fn unit_of(v: nat) -> nat {
    if v < 1024 { 0 } else if v < 1_048_576 { 1 } else if v < 1_073_741_824 { 2 }
    else if v < 1_099_511_627_776 { 3 } else { 4 }
}

pub open spec fn unit_name(k: nat) -> Seq<char> {
    if k == 0 { "B"@ } else if k == 1 { "KB"@ } else if k == 2 { "MB"@ } else if k == 3 { "GB"@ } else { "TB"@ }
}

/// `n / d` rounded to the nearest whole number, ties to the even one.
pub open spec fn rounded(n: nat, d: nat) -> nat
    recommends
        d > 0,
{
    let q = n / d;
    let r = n % d;
    if 2 * r > d { q + 1 } else if 2 * r < d { q } else if q % 2 == 0 { q } else { q + 1 }
}

/// A magnitude in its unit: whole units for bytes and from 100 up, one
/// decimal below that.
pub open spec fn magnitude_text(v: nat) -> Seq<char> {
    let k = unit_of(v);
    let d = unit_size(k);
    if k == 0 || v >= 100 * d {
        decimal(rounded(v, d))
    } else {
        let t = rounded(10 * v, d);
        decimal(t / 10) + seq!['.', digit(t % 10)]
    }
}

/// The spacing of the doubles around `v`: 1 below 2^53, doubling with
/// every power of two above it (up to 2^64, past any byte count).
pub open spec fn double_step(v: nat) -> nat {
    if v < 0x20_0000_0000_0000 { 1 }
    else if v < 0x40_0000_0000_0000 { 2 }
    else if v < 0x80_0000_0000_0000 { 4 }
    else if v < 0x100_0000_0000_0000 { 8 }
    else if v < 0x200_0000_0000_0000 { 16 }
    else if v < 0x400_0000_0000_0000 { 32 }
    else if v < 0x800_0000_0000_0000 { 64 }
    else if v < 0x1000_0000_0000_0000 { 128 }
    else if v < 0x2000_0000_0000_0000 { 256 }
    else if v < 0x4000_0000_0000_0000 { 512 }
    else if v < 0x8000_0000_0000_0000 { 1024 }
    else { 2048 }
}

/// `v` as the nearest double holds it, ties to the even significand: the
/// value a count is spelled from, since it is measured as a double.
pub open spec fn as_double(v: nat) -> nat {
    rounded(v, double_step(v)) * double_step(v)
}

/// A signed byte count as a person reads it.
pub open spec fn bytes_text(bytes: int) -> Seq<char> {
    let v: nat = as_double(if bytes < 0 { (-bytes) as nat } else { bytes as nat });
    (if bytes < 0 { seq!['-'] } else { seq!['+'] }) + magnitude_text(v) + seq![' '] + unit_name(unit_of(v))
}

/// The count `v` as the nearest double holds it.
fn as_double_exec(v: u64) -> (g: u64)
    requires
        v <= 0x8000_0000_0000_0000,
    ensures
        g == as_double(v as nat),
        g <= 0x8000_0000_0000_0000,
{
    let step: u64 = if v < 0x20_0000_0000_0000 { 1 }
        else if v < 0x40_0000_0000_0000 { 2 }
        else if v < 0x80_0000_0000_0000 { 4 }
        else if v < 0x100_0000_0000_0000 { 8 }
        else if v < 0x200_0000_0000_0000 { 16 }
        else if v < 0x400_0000_0000_0000 { 32 }
        else if v < 0x800_0000_0000_0000 { 64 }
        else if v < 0x1000_0000_0000_0000 { 128 }
        else if v < 0x2000_0000_0000_0000 { 256 }
        else if v < 0x4000_0000_0000_0000 { 512 }
        else if v < 0x8000_0000_0000_0000 { 1024 }
        else { 2048 };
    assert(step == double_step(v as nat));
    assert(v / step < u64::MAX) by (nonlinear_arith)
        requires step >= 1, v <= 0x8000_0000_0000_0000u64;
    let q = rounded_exec(v, step);
    if v == 0x8000_0000_0000_0000 {
        assert(step == 2048);
        assert(v / step == 0x10_0000_0000_0000 && v % step == 0);
        assert(q == 0x10_0000_0000_0000);
        assert(q * step == 0x8000_0000_0000_0000);
    } else {
        assert(step <= 1024);
        assert(v < step * 0x20_0000_0000_0000);
        assert(v / step < 0x20_0000_0000_0000) by (nonlinear_arith)
            requires step >= 1, v < step * 0x20_0000_0000_0000;
        assert(q <= 0x20_0000_0000_0000);
        assert(q * step <= 0x8000_0000_0000_0000) by (nonlinear_arith)
            requires q <= 0x20_0000_0000_0000, step <= 1024, step >= 0;
    }
    q * step
}

fn rounded_exec(n: u64, d: u64) -> (q: u64)
    requires
        d > 0,
        n / d < u64::MAX,
    ensures
        q == rounded(n as nat, d as nat),
{
    let q = n / d;
    let r = n % d;
    if r > d - r {
        q + 1
    } else if r < d - r {
        q
    } else if q % 2 == 0 {
        q
    } else {
        q + 1
    }
}

/// A signed byte count as a person reads it. The sign is always there: a
/// change of 4 KB and a loss of 4 KB are not the same event.
pub fn human_bytes(bytes: i64) -> (out: String)
    ensures
        out@ == bytes_text(bytes as int),
{
    let exact: u64 = if bytes == i64::MIN {
        9_223_372_036_854_775_808u64
    } else if bytes < 0 {
        (-bytes) as u64
    } else {
        bytes as u64
    };
    let v = as_double_exec(exact);
    let (k, d, name): (u64, u64, &str) = if v < 1024 {
        (0, 1, "B")
    } else if v < 1_048_576 {
        (1, 1024, "KB")
    } else if v < 1_073_741_824 {
        (2, 1_048_576, "MB")
    } else if v < 1_099_511_627_776 {
        (3, 1_073_741_824, "GB")
    } else {
        (4, 1_099_511_627_776, "TB")
    };
    assert(k == unit_of(v as nat) && d == unit_size(k as nat) && name@ == unit_name(k as nat));
    let mut out: Vec<char> = Vec::new();
    out.push(if bytes < 0 { '-' } else { '+' });
    if k == 0 || v >= 100 * d {
        assert(v / d < u64::MAX) by (nonlinear_arith)
            requires d >= 1, v <= 9_223_372_036_854_775_808u64;
        let digits = decimal_of(rounded_exec(v, d));
        push_all(&mut out, digits.as_slice());
    } else {
        assert(10 * v < 1000 * d) by (nonlinear_arith)
            requires v < 100 * d;
        let t = rounded_exec(10 * v, d);
        let digits = decimal_of(t / 10);
        push_all(&mut out, digits.as_slice());
        out.push('.');
        out.push(crate::chars::digit_char(t % 10));
    }
    out.push(' ');
    push_str(&mut out, name);
    proof {
        let vv: nat = v as nat;
        assert(vv == as_double(if bytes < 0 { (-bytes) as nat } else { bytes as nat }));
        assert(out@ =~= bytes_text(bytes as int));
    }
    string_of(out.as_slice())
}

/// How long ago, in the largest unit that is at least one.
pub open spec fn elapsed_text(seconds: nat) -> Seq<char> {
    if seconds <= 4 {
        "just now"@
    } else if seconds <= 59 {
        decimal(seconds) + "s ago"@
    } else if seconds <= 3599 {
        decimal(seconds / 60) + "m ago"@
    } else if seconds <= 86_399 {
        decimal(seconds / 3600) + "h ago"@
    } else {
        decimal(seconds / 86_400) + "d ago"@
    }
}

/// Relative rather than clock time on purpose: a local time needs a timezone
/// database, and a timestamp shown in the wrong zone is worse than none. An
/// export writes the UTC stamp instead, which is unambiguous.
pub fn elapsed(since: Timestamp, now: Timestamp) -> (out: String)
    ensures
        out@ == elapsed_text(since.seconds_until(now)),
{
    let seconds = since.whole_seconds_until(&now);
    if seconds <= 4 {
        return "just now".to_string();
    }
    let (count, suffix): (u64, &str) = if seconds <= 59 {
        (seconds, "s ago")
    } else if seconds <= 3599 {
        (seconds / 60, "m ago")
    } else if seconds <= 86_399 {
        (seconds / 3600, "h ago")
    } else {
        (seconds / 86_400, "d ago")
    };
    let mut out = decimal_of(count);
    push_str(&mut out, suffix);
    string_of(out.as_slice())
}

/// A finding's headline, naming the folder it is about.
pub open spec fn alert_title_text(kind: AnomalyKind, root: Seq<char>) -> Seq<char> {
    let name = leaf_of(root);
    match kind {
        AnomalyKind::Removal => "Many files deleted in "@ + name,
        AnomalyKind::Burst => name + " is filling up fast"@,
        AnomalyKind::Growth => name + " grew past the size you set"@,
    }
}

/// A finding's headline, naming the folder it is about.
pub fn alert_title(alert: &Anomaly, root: &str) -> (out: String)
    ensures
        out@ == alert_title_text(alert.kind, root@),
{
    let name = leaf(root);
    let mut out: Vec<char> = Vec::new();
    match alert.kind {
        AnomalyKind::Removal => {
            push_str(&mut out, "Many files deleted in ");
            push_str(&mut out, name.as_str());
        },
        AnomalyKind::Burst => {
            push_str(&mut out, name.as_str());
            push_str(&mut out, " is filling up fast");
        },
        AnomalyKind::Growth => {
            push_str(&mut out, name.as_str());
            push_str(&mut out, " grew past the size you set");
        },
    }
    string_of(out.as_slice())
}

/// A size without the sign a delta carries: the wording says the direction.
pub open spec fn size_text(bytes: int) -> Seq<char> {
    crate::chars::trim_start(bytes_text(bytes), '+')
}

/// The sentence under a finding's headline.
pub open spec fn alert_body_text(alert: Anomaly) -> Seq<char> {
    let size = size_text(alert.bytes as int);
    let minutes = decimal((WINDOW / 60) as nat);
    match alert.kind {
        AnomalyKind::Removal => decimal(alert.items as nat) + " items ("@ + size + ") removed in the last "@
            + minutes + " minutes."@,
        AnomalyKind::Burst => size + " written in the last "@ + minutes + " minutes."@,
        AnomalyKind::Growth => size + " added today."@,
    }
}

/// The sentence under a finding's headline.
pub fn alert_body(alert: &Anomaly) -> (out: String)
    ensures
        out@ == alert_body_text(*alert),
{
    let signed = human_bytes(alert.bytes);
    let signed_chars = chars_of(signed.as_str());
    let size = crate::chars::trimmed_start(signed_chars.as_slice(), '+');
    let minutes = decimal_of(WINDOW / 60);
    let mut out: Vec<char> = Vec::new();
    match alert.kind {
        AnomalyKind::Removal => {
            let items = decimal_of(alert.items);
            push_all(&mut out, items.as_slice());
            push_str(&mut out, " items (");
            push_all(&mut out, size.as_slice());
            push_str(&mut out, ") removed in the last ");
            push_all(&mut out, minutes.as_slice());
            push_str(&mut out, " minutes.");
        },
        AnomalyKind::Burst => {
            push_all(&mut out, size.as_slice());
            push_str(&mut out, " written in the last ");
            push_all(&mut out, minutes.as_slice());
            push_str(&mut out, " minutes.");
        },
        AnomalyKind::Growth => {
            push_all(&mut out, size.as_slice());
            push_str(&mut out, " added today.");
        },
    }
    string_of(out.as_slice())
}

/// What a host says when a watch is asked to open while monitoring is paused.
pub const PAUSED: &'static str = "Monitoring is paused. Resume it to open a watch.";

/// What a watcher promises, in a phrase for the diary.
pub open spec fn guarantees_text(c: Capabilities) -> Seq<char> {
    (if c.resumable_cursor { "resumes from its last event"@ } else { "starts over after a restart"@ })
        + ", "@ + (if c.pairs_renames { "pairs renames"@ } else { "leaves renames to the host"@ })
        + ", "@ + (if c.reports_process { "names the writing program"@ } else { "cannot name the writing program"@ })
        + ", "@ + (if c.may_drop_events { "may drop events under load"@ } else { "does not drop events"@ })
}

/// What a watcher promises, in a phrase for the diary.
pub fn guarantees(c: &Capabilities) -> (out: String)
    ensures
        out@ == guarantees_text(*c),
{
    let mut out: Vec<char> = Vec::new();
    push_str(&mut out, if c.resumable_cursor { "resumes from its last event" } else { "starts over after a restart" });
    push_str(&mut out, ", ");
    push_str(&mut out, if c.pairs_renames { "pairs renames" } else { "leaves renames to the host" });
    push_str(&mut out, ", ");
    push_str(&mut out, if c.reports_process { "names the writing program" } else { "cannot name the writing program" });
    push_str(&mut out, ", ");
    push_str(&mut out, if c.may_drop_events { "may drop events under load" } else { "does not drop events" });
    string_of(out.as_slice())
}

} // verus!
