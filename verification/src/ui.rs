//! Pure helpers of the screens: durations, the histogram's block characters,
//! the axis, time stamps, and the counts shown above the timeline.

use crate::app::{distinct, proto_label, App, AppView, Group, Mode};
use crate::export::{joined, push_joined, without_cr};
use crate::model::{Interaction, InteractionView};
use crate::text::{
    append_decimal, chars_of, decimal, lines, push_char, split_lines, string_of, to_uppercase, trim, trim_range,
    uppercase,
};
use crate::time::{day_of, format_instant, formatted, same_utc_day, seconds_between, seconds_from, Instant};
use vstd::prelude::*;

verus! {

/// A duration in seconds (negative ones as 0) in the coarsest fitting unit:
/// seconds below 90 s, minutes below 90 min, hours below 48 h, else days,
/// each rounded down.
pub open spec fn span_text(secs: i64) -> Seq<char> {
    let s: int = if secs < 0 {
        0
    } else {
        secs as int
    };
    if s < 90 {
        decimal(s as nat) + "s"@
    } else if s < 5400 {
        decimal((s / 60) as nat) + "m"@
    } else if s < 172800 {
        decimal((s / 3600) as nat) + "h"@
    } else {
        decimal((s / 86400) as nat) + "d"@
    }
}

/// A duration in seconds, in the coarsest fitting unit (see `span_text`).
pub fn human_span(secs: i64) -> (r: String)
    ensures
        r@ == span_text(secs),
{
    let s: u64 = if secs < 0 {
        0
    } else {
        secs as u64
    };
    let mut out = String::new();
    if s < 90 {
        append_decimal(&mut out, s);
        out.append("s");
    } else if s < 5400 {
        append_decimal(&mut out, s / 60);
        out.append("m");
    } else if s < 172800 {
        append_decimal(&mut out, s / 3600);
        out.append("h");
    } else {
        append_decimal(&mut out, s / 86400);
        out.append("d");
    }
    out
}

/// The block height (0 to 8) for a bucket of `c` interactions when the fullest
/// holds `peak`: 0 for an empty bucket, otherwise `ceil(8 * c / peak)` kept
/// within 1..=8 (8 when `peak` is 0).
pub open spec fn spark_level(c: u64, peak: u64) -> nat {
    if c == 0 {
        0
    } else if peak == 0 {
        8
    } else {
        let l = (8 * c + peak - 1) / (peak as int);
        if l < 1 {
            1
        } else if l > 8 {
            8
        } else {
            l as nat
        }
    }
}

/// The character for block height `l`: a space, then U+2581..U+2588.
pub open spec fn block_char(l: nat) -> char {
    if l == 0 {
        ' '
    } else {
        (0x2580 + l) as char
    }
}

/// One block character per bucket.
pub open spec fn spark_text(buckets: Seq<u64>, peak: u64) -> Seq<char> {
    buckets.map_values(|c: u64| block_char(spark_level(c, peak)))
}

fn block_of(l: u64) -> (r: char)
    requires
        l <= 8,
    ensures
        r == block_char(l as nat),
{
    if l == 0 {
        ' '
    } else if l == 1 {
        '\u{2581}'
    } else if l == 2 {
        '\u{2582}'
    } else if l == 3 {
        '\u{2583}'
    } else if l == 4 {
        '\u{2584}'
    } else if l == 5 {
        '\u{2585}'
    } else if l == 6 {
        '\u{2586}'
    } else if l == 7 {
        '\u{2587}'
    } else {
        '\u{2588}'
    }
}

/// Maps bucket counts to unicode block heights.
pub fn spark_line(buckets: &[u64], peak: u64) -> (r: String)
    ensures
        r@ == spark_text(buckets@, peak),
{
    let mut out = String::new();
    let mut k: usize = 0;
    while k < buckets.len()
        invariant
            k <= buckets@.len(),
            out@ == spark_text(buckets@.take(k as int), peak),
        decreases buckets@.len() - k,
    {
        let c = buckets[k];
        let l: u64 = if c == 0 {
            0
        } else if peak == 0 {
            8
        } else {
            let q: u128 = (8 * (c as u128) + (peak as u128) - 1) / (peak as u128);
            if q < 1 {
                1
            } else if q > 8 {
                8
            } else {
                q as u64
            }
        };
        assert(l == spark_level(c, peak));
        push_char(&mut out, block_of(l));
        assert(spark_text(buckets@.take(k + 1), peak) =~= spark_text(buckets@.take(k as int), peak).push(
            block_char(spark_level(c, peak)),
        ));
        k = k + 1;
    }
    assert(buckets@.take(k as int) =~= buckets@);
    out
}

/// `n` horizontal box-drawing lines.
pub fn axis_line(n: usize) -> (r: String)
    ensures
        r@ == Seq::new(n as nat, |i: int| '\u{2500}'),
{
    let mut out = String::new();
    let mut k: usize = 0;
    while k < n
        invariant
            k <= n,
            out@ == Seq::new(k as nat, |i: int| '\u{2500}'),
        decreases n - k,
    {
        push_char(&mut out, '\u{2500}');
        assert(out@ =~= Seq::new((k + 1) as nat, |i: int| '\u{2500}'));
        k = k + 1;
    }
    out
}

/// The time stamp of a row: month and day too when the rows span several days.
pub open spec fn row_time(t: Instant, multiday: bool) -> Seq<char> {
    if multiday {
        formatted(t, "%m-%d %H:%M:%S"@)
    } else {
        formatted(t, "%H:%M:%S"@)
    }
}

/// The time stamp of a row (see `row_time`).
pub fn fmt_time(t: Instant, multiday: bool) -> (r: String)
    ensures
        r@ == row_time(t, multiday),
{
    if multiday {
        format_instant(t, "%m-%d %H:%M:%S")
    } else {
        format_instant(t, "%H:%M:%S")
    }
}

/// Whether the earliest and the latest filtered interaction fall on different
/// UTC days.
pub open spec fn multiple_days(v: AppView) -> bool {
    v.filtered.len() > 0 && day_of(v.all[v.filtered[0] as int].timestamp) != day_of(
        v.all[v.filtered.last() as int].timestamp,
    )
}

/// Whether the filtered interactions span more than one UTC day.
pub fn spans_multiple_days(app: &App) -> (r: bool)
    requires
        app@.wf(),
    ensures
        r == multiple_days(app@),
{
    let n = app.filtered.len();
    if n == 0 {
        return false;
    }
    let a = &app.all[app.filtered[0]];
    let b = &app.all[app.filtered[n - 1]];
    assert(app@.all[app@.filtered[0] as int] == a@);
    assert(app@.all[app@.filtered.last() as int] == b@);
    !same_utc_day(a.timestamp, b.timestamp)
}

/// How many of the interactions at `idx` have each kind of protocol: HTTP, DNS,
/// anything else.
pub open spec fn protocol_counts(all: Seq<InteractionView>, idx: Seq<usize>) -> (nat, nat, nat)
    decreases idx.len(),
{
    if idx.len() == 0 {
        (0, 0, 0)
    } else {
        let (h, d, o) = protocol_counts(all, idx.drop_last());
        let p = all[idx.last() as int].protocol;
        if p == "http"@ {
            (h + 1, d, o)
        } else if p == "dns"@ {
            (h, d + 1, o)
        } else {
            (h, d, o + 1)
        }
    }
}

/// Whether the indexed interaction's protocol is exactly `p`.
pub open spec fn has_protocol(all: Seq<InteractionView>, p: Seq<char>) -> spec_fn(usize) -> bool {
    |i: usize| all[i as int].protocol == p
}

/// Whether the indexed interaction's protocol is neither "http" nor "dns".
pub open spec fn other_protocol(all: Seq<InteractionView>) -> spec_fn(usize) -> bool {
    |i: usize| all[i as int].protocol != "http"@ && all[i as int].protocol != "dns"@
}

/// The timeline's counts count each shown interaction once: the HTTP count is
/// the number whose protocol is exactly "http", the DNS count those with "dns",
/// and the other count the rest, so together they are all of them.
pub proof fn lemma_protocol_counts(all: Seq<InteractionView>, idx: Seq<usize>)
    ensures
        protocol_counts(all, idx).0 == idx.filter(has_protocol(all, "http"@)).len(),
        protocol_counts(all, idx).1 == idx.filter(has_protocol(all, "dns"@)).len(),
        protocol_counts(all, idx).2 == idx.filter(other_protocol(all)).len(),
        protocol_counts(all, idx).0 + protocol_counts(all, idx).1 + protocol_counts(all, idx).2 == idx.len(),
    decreases idx.len(),
{
    reveal_strlit("http");
    reveal_strlit("dns");
    if idx.len() == 0 {
        reveal(Seq::filter);
    } else {
        let d = idx.drop_last();
        lemma_protocol_counts(all, d);
        assert(d.push(idx.last()) =~= idx);
        d.lemma_filter_push(idx.last(), has_protocol(all, "http"@));
        d.lemma_filter_push(idx.last(), has_protocol(all, "dns"@));
        d.lemma_filter_push(idx.last(), other_protocol(all));
        assert("dns"@.len() == 3 && "http"@.len() == 4);
        let p = all[idx.last() as int].protocol;
        let (h, dn, o) = protocol_counts(all, d);
        if p == "http"@ {
            assert(protocol_counts(all, idx) == (h + 1, dn, o));
        } else if p == "dns"@ {
            assert(protocol_counts(all, idx) == (h, dn + 1, o));
        } else {
            assert(protocol_counts(all, idx) == (h, dn, o + 1));
        }
    }
}

/// How many filtered interactions are HTTP, DNS and other.
pub fn count_protocols(app: &App) -> (r: (u64, u64, u64))
    requires
        app@.wf(),
    ensures
        (r.0 as nat, r.1 as nat, r.2 as nat) == protocol_counts(app@.all, app@.filtered),
{
    let mut h: u64 = 0;
    let mut d: u64 = 0;
    let mut o: u64 = 0;
    let mut k: usize = 0;
    let http = crate::text::chars_of("http");
    let dns = crate::text::chars_of("dns");
    while k < app.filtered.len()
        invariant
            app@.wf(),
            http@ == "http"@,
            dns@ == "dns"@,
            k <= app@.filtered.len(),
            (h as nat, d as nat, o as nat) == protocol_counts(app@.all, app@.filtered.take(k as int)),
            h + d + o == k,
        decreases app@.filtered.len() - k,
    {
        let it = &app.all[app.filtered[k]];
        assert(app@.all[app@.filtered[k as int] as int] == it@);
        assert(app@.filtered.take(k + 1).drop_last() =~= app@.filtered.take(k as int));
        assert(app@.filtered.take(k + 1).last() == app@.filtered[k as int]);
        let p = crate::text::chars_of(it.protocol.as_str());
        if crate::text::chars_eq(&p, &http) {
            h = h + 1;
        } else if crate::text::chars_eq(&p, &dns) {
            d = d + 1;
        } else {
            o = o + 1;
        }
        k = k + 1;
    }
    assert(app@.filtered.take(k as int) =~= app@.filtered);
    (h, d, o)
}

/// The largest of the counts, and at least 1.
pub open spec fn peak_of(buckets: Seq<u64>) -> u64
    decreases buckets.len(),
{
    if buckets.len() == 0 {
        1
    } else {
        let m = peak_of(buckets.drop_last());
        if buckets.last() > m {
            buckets.last()
        } else {
            m
        }
    }
}

/// The largest bucket count, and at least 1.
pub fn bucket_peak(buckets: &[u64]) -> (r: u64)
    ensures
        r == peak_of(buckets@),
{
    let mut m: u64 = 1;
    let mut k: usize = 0;
    while k < buckets.len()
        invariant
            k <= buckets@.len(),
            m == peak_of(buckets@.take(k as int)),
        decreases buckets@.len() - k,
    {
        assert(buckets@.take(k + 1).drop_last() =~= buckets@.take(k as int));
        if buckets[k] > m {
            m = buckets[k];
        }
        k = k + 1;
    }
    assert(buckets@.take(k as int) =~= buckets@);
    m
}


/// The count badge of a grouped row: `×n` for more than one occurrence.
pub open spec fn badge_text(n: nat) -> Seq<char> {
    if n > 1 {
        seq!['\u{D7}'] + decimal(n)
    } else {
        seq![]
    }
}

/// The count badge of a grouped row (see `badge_text`).
pub fn count_badge(n: usize) -> (r: String)
    ensures
        r@ == badge_text(n as nat),
{
    let mut out = String::new();
    if n > 1 {
        push_char(&mut out, '\u{D7}');
        append_decimal(&mut out, n as u64);
        assert(out@ =~= seq!['\u{D7}'] + decimal(n as nat));
    }
    out
}

/// The source column of a row: its newest interaction's source, followed by
/// ` +k` when grouping is on and the row has `k` more distinct sources.
pub open spec fn source_text(v: AppView, g: Seq<usize>) -> Seq<char> {
    let rep = v.all[g.last() as int];
    let n = distinct(g.map_values(|i: usize| v.all[i as int].remote)).len();
    if v.grouping && n > 1 {
        rep.remote + " +"@ + decimal((n - 1) as nat)
    } else {
        rep.remote
    }
}

/// The source column of a row (see `source_text`).
pub fn row_source(app: &App, g: &Group) -> (r: String)
    requires
        app@.wf(),
        g.indices@.len() > 0,
        forall|k: int| 0 <= k < g.indices@.len() ==> #[trigger] g.indices@[k] < app@.all.len(),
    ensures
        r@ == source_text(app@, g.indices@),
{
    let rep = g.rep(app.all.as_slice());
    let srcs = g.sources(app.all.as_slice());
    proof {
        assert(g.indices@.map_values(|i: usize| app.all@[i as int].remote@) =~= g.indices@.map_values(
            |i: usize| app@.all[i as int].remote,
        ));
    }
    let mut out = String::from_str(rep.remote.as_str());
    if app.grouping && srcs.len() > 1 {
        out.append(" +");
        append_decimal(&mut out, (srcs.len() - 1) as u64);
    }
    out
}

/// The sources of a selected group: all of them when there are at most three,
/// else the first three and how many more.
pub open spec fn sources_line(srcs: Seq<Seq<char>>) -> Seq<char> {
    if srcs.len() <= 3 {
        joined(srcs, ", "@)
    } else {
        joined(srcs.take(3), ", "@) + ", +"@ + decimal((srcs.len() - 3) as nat) + " more"@
    }
}

/// The sources of a selected group (see `sources_line`).
pub fn sources_text(srcs: &Vec<String>) -> (r: String)
    ensures
        r@ == sources_line(srcs@.map_values(|s: String| s@)),
{
    let ghost sv = srcs@.map_values(|s: String| s@);
    let mut out = String::new();
    if srcs.len() <= 3 {
        push_joined(&mut out, srcs);
        assert(out@ =~= joined(sv, ", "@));
    } else {
        let mut first: Vec<String> = Vec::new();
        let mut k: usize = 0;
        while k < 3
            invariant
                k <= 3 < srcs@.len(),
                sv == srcs@.map_values(|s: String| s@),
                first@.map_values(|s: String| s@) == sv.take(k as int),
            decreases 3 - k,
        {
            let ghost before = first@.map_values(|s: String| s@);
            first.push(srcs[k].clone());
            assert(first@.map_values(|s: String| s@) =~= before.push(sv[k as int]));
            assert(sv.take(k + 1) =~= sv.take(k as int).push(sv[k as int]));
            k = k + 1;
        }
        push_joined(&mut out, &first);
        out.append(", +");
        append_decimal(&mut out, (srcs.len() - 3) as u64);
        out.append(" more");
        assert(out@ =~= joined(sv.take(3), ", "@) + ", +"@ + decimal((sv.len() - 3) as nat) + " more"@);
    }
    out
}

/// The header's count: groups and shown interactions when grouping, else shown
/// and total interactions.
pub open spec fn shown_line(v: AppView) -> Seq<char> {
    if v.grouping {
        " "@ + decimal(v.groups.len()) + " groups / "@ + decimal(v.filtered.len()) + " shown "@
    } else {
        " "@ + decimal(v.filtered.len()) + "/"@ + decimal(v.all.len()) + " shown "@
    }
}

/// The header's count (see `shown_line`).
pub fn shown_text(app: &App) -> (r: String)
    ensures
        r@ == shown_line(app@),
{
    let mut out = String::from_str(" ");
    if app.grouping {
        append_decimal(&mut out, app.groups.len() as u64);
        out.append(" groups / ");
        append_decimal(&mut out, app.filtered.len() as u64);
        out.append(" shown ");
    } else {
        append_decimal(&mut out, app.filtered.len() as u64);
        out.append("/");
        append_decimal(&mut out, app.all.len() as u64);
        out.append(" shown ");
    }
    out
}

/// The header's refresh label: the interval, or off.
pub open spec fn refresh_line(secs: u64) -> Seq<char> {
    if secs > 0 {
        " auto:"@ + decimal(secs as nat) + "s "@
    } else {
        " auto:off "@
    }
}

/// The header's refresh label (see `refresh_line`).
pub fn refresh_text(secs: u64) -> (r: String)
    ensures
        r@ == refresh_line(secs),
{
    if secs > 0 {
        let mut out = String::from_str(" auto:");
        append_decimal(&mut out, secs);
        out.append("s ");
        out
    } else {
        String::from_str(" auto:off ")
    }
}


/// Whether `s` is empty or all whitespace.
pub fn is_blank(s: &str) -> (r: bool)
    ensures
        r == (trim(s@).len() == 0),
{
    let c = chars_of(s);
    let t = trim_range(&c, 0, c.len());
    assert(c@.subrange(0, c@.len() as int) =~= s@);
    t.len() == 0
}

/// The lines under a raw request or response in the detail pane: `(empty)`
/// when it is blank, else all of its lines, carriage returns removed.
pub open spec fn raw_text_lines(raw: Seq<char>) -> Seq<Seq<char>> {
    if trim(raw).len() == 0 {
        seq!["(empty)"@]
    } else {
        lines(without_cr(raw))
    }
}

/// The lines under a raw request or response (see `raw_text_lines`).
pub fn raw_lines(raw: &str) -> (r: Vec<String>)
    ensures
        r@.map_values(|s: String| s@) == raw_text_lines(raw@),
{
    let c = chars_of(raw);
    let mut out: Vec<String> = Vec::new();
    if is_blank(raw) {
        out.push(String::from_str("(empty)"));
        assert(out@.map_values(|s: String| s@) =~= seq!["(empty)"@]);
        return out;
    }
    let mut w: Vec<char> = Vec::new();
    let mut i: usize = 0;
    while i < c.len()
        invariant
            i <= c@.len(),
            w@ == without_cr(c@.take(i as int)),
        decreases c@.len() - i,
    {
        assert(c@.take(i + 1).drop_last() =~= c@.take(i as int));
        if c[i] != '\r' {
            w.push(c[i]);
        }
        i = i + 1;
    }
    assert(c@.take(i as int) =~= raw@);
    let ls = split_lines(&w);
    let ghost lv = ls@.map_values(|l: Vec<char>| l@);
    let mut k: usize = 0;
    while k < ls.len()
        invariant
            k <= ls@.len(),
            lv == ls@.map_values(|l: Vec<char>| l@),
            out@.map_values(|s: String| s@) == lv.take(k as int),
        decreases ls@.len() - k,
    {
        let ghost before = out@.map_values(|s: String| s@);
        out.push(string_of(&ls[k]));
        assert(out@.map_values(|s: String| s@) =~= before.push(lv[k as int]));
        assert(lv.take(k + 1) =~= lv.take(k as int).push(lv[k as int]));
        k = k + 1;
    }
    assert(lv.take(k as int) =~= lv);
    out
}

/// The badge that leads the detail pane of a collapsed group of `n`.
pub open spec fn identical_line(n: nat) -> Seq<char> {
    " \u{D7}"@ + decimal(n) + " identical "@
}

/// The badge that leads the detail pane of a collapsed group (see
/// `identical_line`).
pub fn identical_badge(n: usize) -> (r: String)
    ensures
        r@ == identical_line(n as nat),
{
    let mut out = String::from_str(" \u{D7}");
    append_decimal(&mut out, n as u64);
    out.append(" identical ");
    out
}

/// When a collapsed group was seen: its first and last instants, month to
/// second.
pub open spec fn seen_line(first: Instant, last: Instant) -> Seq<char> {
    formatted(first, "%m-%d %H:%M:%S"@) + " \u{2192} "@ + formatted(last, "%m-%d %H:%M:%S"@)
}

/// When a collapsed group was seen (see `seen_line`).
pub fn seen_span(first: Instant, last: Instant) -> (r: String)
    ensures
        r@ == seen_line(first, last),
{
    let mut out = format_instant(first, "%m-%d %H:%M:%S");
    out.append(" \u{2192} ");
    let b = format_instant(last, "%m-%d %H:%M:%S");
    out.append(b.as_str());
    out
}

/// The timeline's count line: the total, the counts per protocol (others only
/// when there are some), the fullest column and the time a column spans.
pub open spec fn count_line(total: nat, http: u64, dns: u64, other: u64, peak: u64, per_col_secs: i64) -> Seq<char> {
    decimal(total) + " total   http:"@ + decimal(http as nat) + "  dns:"@ + decimal(dns as nat) + (if other > 0 {
        "  other:"@ + decimal(other as nat)
    } else {
        seq![]
    }) + "   peak "@ + decimal(peak as nat) + "/col (~"@ + span_text(per_col_secs) + " per col)"@
}

/// The timeline's count line (see `count_line`).
pub fn count_text(total: usize, http: u64, dns: u64, other: u64, peak: u64, per_col_secs: i64) -> (r: String)
    ensures
        r@ == count_line(total as nat, http, dns, other, peak, per_col_secs),
{
    let mut out = String::new();
    append_decimal(&mut out, total as u64);
    out.append(" total   http:");
    append_decimal(&mut out, http);
    out.append("  dns:");
    append_decimal(&mut out, dns);
    let ghost mid = out@;
    if other > 0 {
        out.append("  other:");
        append_decimal(&mut out, other);
    }
    out.append("   peak ");
    append_decimal(&mut out, peak);
    out.append("/col (~");
    let span = human_span(per_col_secs);
    out.append(span.as_str());
    out.append(" per col)");
    proof {
        let o: Seq<char> = if other > 0 {
            "  other:"@ + decimal(other as nat)
        } else {
            seq![]
        };
        assert(out@ =~= mid + o + "   peak "@ + decimal(peak as nat) + "/col (~"@ + span_text(per_col_secs)
            + " per col)"@);
    }
    out
}

/// Which of its three forms the status line takes.
#[derive(Clone, Copy, PartialEq, Eq, Structural, Debug)]
pub enum StatusKind {
    /// The query being edited, with a cursor.
    Editing,
    /// A status message.
    Message,
    /// The applied query and the key hints.
    Idle,
}

/// The status line's form: editing while the query is edited, else the status
/// message when there is one, else the idle hints.
pub open spec fn status_kind(v: AppView) -> StatusKind {
    if v.mode == Mode::Editing {
        StatusKind::Editing
    } else if v.status.len() > 0 {
        StatusKind::Message
    } else {
        StatusKind::Idle
    }
}

/// The text the status line shows in its form: the query being edited; the
/// message after a space; or the applied query, `(none)` when it is empty.
pub open spec fn status_body(v: AppView) -> Seq<char> {
    match status_kind(v) {
        StatusKind::Editing => v.query,
        StatusKind::Message => " "@ + v.status,
        StatusKind::Idle => if v.query.len() == 0 {
            "(none)"@
        } else {
            v.query
        },
    }
}

/// The status line's form and text (see `status_kind` and `status_body`).
pub fn status_line(app: &App) -> (r: (StatusKind, String))
    ensures
        r.0 == status_kind(app@),
        r.1@ == status_body(app@),
{
    if app.mode == Mode::Editing {
        (StatusKind::Editing, app.query.clone())
    } else if !app.status.as_str().is_empty() {
        let mut out = String::from_str(" ");
        out.append(app.status.as_str());
        (StatusKind::Message, out)
    } else if app.query.as_str().is_empty() {
        (StatusKind::Idle, String::from_str("(none)"))
    } else {
        (StatusKind::Idle, app.query.clone())
    }
}

/// `a - b`, or 0 when `b` exceeds `a`.
pub open spec fn less_or_zero(a: u16, b: u16) -> u16 {
    if a >= b {
        (a - b) as u16
    } else {
        0
    }
}

/// The help pop-up's rectangle (x, y, width, height) inside the area `(x, y,
/// width, height)`: at most 56 wide and 4 narrower than the area, as tall as
/// its `n` lines and a border but 2 shorter than the area, and centred.
pub open spec fn help_area(x: u16, y: u16, width: u16, height: u16, n: u16) -> (u16, u16, u16, u16) {
    let w = if less_or_zero(width, 4) < 56 {
        less_or_zero(width, 4)
    } else {
        56
    };
    let h = if less_or_zero(height, 2) < n + 2 {
        less_or_zero(height, 2)
    } else {
        (n + 2) as u16
    };
    ((x + less_or_zero(width, w) / 2) as u16, (y + less_or_zero(height, h) / 2) as u16, w, h)
}

/// The help pop-up's rectangle (see `help_area`).
pub fn help_rect(x: u16, y: u16, width: u16, height: u16, n: u16) -> (r: (u16, u16, u16, u16))
    requires
        x + width <= u16::MAX,
        y + height <= u16::MAX,
        n + 2 <= u16::MAX,
    ensures
        r == help_area(x, y, width, height, n),
{
    let w: u16 = if width.saturating_sub(4) < 56 {
        width.saturating_sub(4)
    } else {
        56
    };
    let h: u16 = if height.saturating_sub(2) < n + 2 {
        height.saturating_sub(2)
    } else {
        n + 2
    };
    (x + width.saturating_sub(w) / 2, y + height.saturating_sub(h) / 2, w, h)
}


/// The labelled fields of the detail pane, each label padded to 11 characters:
/// protocol (upper case), query type when there is a non-empty one, time to the
/// millisecond, source and correlation id.
pub open spec fn detail_pairs(it: InteractionView) -> Seq<(Seq<char>, Seq<char>)> {
    seq![("protocol   "@, uppercase(it.protocol))] + (match it.qtype {
        Some(q) => if q.len() > 0 {
            seq![("q-type     "@, q)]
        } else {
            seq![]
        },
        None => seq![],
    }) + seq![
        ("time       "@, formatted(it.timestamp, "%Y-%m-%d %H:%M:%S%.3f UTC"@)),
        ("source     "@, it.remote),
        ("full-id    "@, it.full_id),
    ]
}

/// The labelled fields of the detail pane (see `detail_pairs`).
pub fn detail_fields(it: &Interaction) -> (r: Vec<(String, String)>)
    ensures
        r@.map_values(|p: (String, String)| (p.0@, p.1@)) == detail_pairs(it@),
{
    let mut out: Vec<(String, String)> = Vec::new();
    out.push((String::from_str("protocol   "), to_uppercase(it.protocol.as_str())));
    let ghost q: Seq<(Seq<char>, Seq<char>)> = match it@.qtype {
        Some(q) => if q.len() > 0 {
            seq![("q-type     "@, q)]
        } else {
            seq![]
        },
        None => seq![],
    };
    match &it.qtype {
        Some(qt) => {
            if !qt.as_str().is_empty() {
                out.push((String::from_str("q-type     "), qt.clone()));
            }
        },
        None => {},
    }
    assert(out@.map_values(|p: (String, String)| (p.0@, p.1@)) =~= seq![("protocol   "@, uppercase(it@.protocol))] + q);
    let ghost before = out@.map_values(|p: (String, String)| (p.0@, p.1@));
    out.push((String::from_str("time       "), format_instant(it.timestamp, "%Y-%m-%d %H:%M:%S%.3f UTC")));
    out.push((String::from_str("source     "), it.remote.clone()));
    out.push((String::from_str("full-id    "), it.full_id.clone()));
    assert(out@.map_values(|p: (String, String)| (p.0@, p.1@)) =~= before + seq![
        ("time       "@, formatted(it@.timestamp, "%Y-%m-%d %H:%M:%S%.3f UTC"@)),
        ("source     "@, it@.remote),
        ("full-id    "@, it@.full_id),
    ]);
    out
}

/// The timeline's range: first and last instant to the minute, and how long
/// lies between them (nothing where chrono has no such instant).
pub open spec fn range_line(first: Instant, last: Instant) -> Seq<char> {
    formatted(first, "%Y-%m-%d %H:%M"@) + " \u{2192} "@ + formatted(last, "%Y-%m-%d %H:%M"@) + "  ("@ + (
    match seconds_from(first, last) {
        Some(s) => span_text(s),
        None => seq![],
    }) + ")"@
}

/// The timeline's range (see `range_line`).
pub fn range_text(first: Instant, last: Instant) -> (r: String)
    ensures
        r@ == range_line(first, last),
{
    let mut out = format_instant(first, "%Y-%m-%d %H:%M");
    out.append(" \u{2192} ");
    let b = format_instant(last, "%Y-%m-%d %H:%M");
    out.append(b.as_str());
    out.append("  (");
    let ghost mid = out@;
    match seconds_between(first, last) {
        Some(s) => {
            let h = human_span(s);
            out.append(h.as_str());
        },
        None => {},
    }
    out.append(")");
    proof {
        let d: Seq<char> = match seconds_from(first, last) {
            Some(s) => span_text(s),
            None => seq![],
        };
        assert(out@ =~= mid + d + ")"@);
    }
    out
}

/// `k` spaces.
pub open spec fn spaces(k: nat) -> Seq<char> {
    Seq::new(k, |i: int| ' ')
}

/// `s` padded with spaces on the right to `n` characters, as `{:<n}` pads.
pub open spec fn padded(s: Seq<char>, n: nat) -> Seq<char> {
    if s.len() < n {
        s + spaces((n - s.len()) as nat)
    } else {
        s
    }
}

/// Appends `k` spaces.
fn push_spaces(out: &mut String, k: usize)
    ensures
        final(out)@ == old(out)@ + spaces(k as nat),
{
    let ghost start = out@;
    let mut i: usize = 0;
    while i < k
        invariant
            i <= k,
            out@ == start + spaces(i as nat),
        decreases k - i,
    {
        push_char(out, ' ');
        assert(spaces((i + 1) as nat) =~= spaces(i as nat).push(' '));
        i = i + 1;
    }
}

/// Appends `s` padded to `n` characters (see `padded`).
fn push_padded(out: &mut String, s: &str, n: usize)
    ensures
        final(out)@ == old(out)@ + padded(s@, n as nat),
{
    let c = chars_of(s);
    out.append(s);
    if c.len() < n {
        push_spaces(out, n - c.len());
    }
}

/// The gap between the two time labels under the histogram of `n` columns.
pub open spec fn axis_gap_line(n: nat) -> Seq<char> {
    spaces(if n > 22 { (n - 22) as nat } else { 0 })
}

/// The gap between the two time labels under the histogram (see
/// `axis_gap_line`).
pub fn axis_gap(n: usize) -> (r: String)
    ensures
        r@ == axis_gap_line(n as nat),
{
    let mut out = String::new();
    let k: usize = if n > 22 { n - 22 } else { 0 };
    push_spaces(&mut out, k);
    out
}

/// A line of the timeline's list of newest interactions: time to the second,
/// protocol (upper case, padded to 5), source (padded to 15) and summary.
pub open spec fn newest_line(it: InteractionView) -> Seq<char> {
    "  "@ + formatted(it.timestamp, "%m-%d %H:%M:%S"@) + "  "@ + padded(uppercase(it.protocol), 5) + "  "@
        + padded(it.remote, 15) + "  "@ + it.summary
}

/// A line of the timeline's list of newest interactions (see `newest_line`).
pub fn newest_text(it: &Interaction) -> (r: String)
    ensures
        r@ == newest_line(it@),
{
    let mut out = String::from_str("  ");
    let t = format_instant(it.timestamp, "%m-%d %H:%M:%S");
    out.append(t.as_str());
    out.append("  ");
    let p = to_uppercase(it.protocol.as_str());
    push_padded(&mut out, p.as_str(), 5);
    out.append("  ");
    push_padded(&mut out, it.remote.as_str(), 15);
    out.append("  ");
    out.append(it.summary.as_str());
    out
}

/// The timeline's list: the newest of the shown interactions first, at most
/// `limit` of them.
pub open spec fn newest_list(v: AppView, limit: nat) -> Seq<Seq<char>> {
    let n = v.filtered.len();
    let m = if limit < n {
        limit
    } else {
        n
    };
    Seq::new(m, |k: int| newest_line(v.all[v.filtered[n - 1 - k] as int]))
}

/// The timeline's list (see `newest_list`).
pub fn newest_lines(app: &App, limit: usize) -> (r: Vec<String>)
    requires
        app@.wf(),
    ensures
        r@.map_values(|s: String| s@) == newest_list(app@, limit as nat),
{
    let n = app.filtered.len();
    let m = if limit < n {
        limit
    } else {
        n
    };
    let ghost want = newest_list(app@, limit as nat);
    let mut out: Vec<String> = Vec::new();
    let mut k: usize = 0;
    while k < m
        invariant
            app@.wf(),
            n == app@.filtered.len(),
            m <= n,
            m == want.len(),
            want == newest_list(app@, limit as nat),
            k <= m,
            out@.map_values(|s: String| s@) == want.take(k as int),
        decreases m - k,
    {
        let i = app.filtered[n - 1 - k];
        assert(i < app@.all.len());
        let line = newest_text(&app.all[i]);
        let ghost before = out@.map_values(|s: String| s@);
        out.push(line);
        assert(out@.map_values(|s: String| s@) =~= before.push(want[k as int]));
        assert(want.take(k + 1) =~= want.take(k as int).push(want[k as int]));
        k = k + 1;
    }
    assert(want.take(k as int) =~= want);
    out
}

/// The name of a screen.
pub open spec fn view_name(v: crate::app::View) -> Seq<char> {
    match v {
        crate::app::View::List => "list"@,
        crate::app::View::Timeline => "timeline"@,
    }
}

/// The header's labels: the data source, the protocol filter, the grouping
/// switch and the screen, each with a space on both sides.
pub open spec fn header_parts(v: AppView) -> (Seq<char>, Seq<char>, Seq<char>, Seq<char>) {
    (
        " "@ + v.source + " "@,
        " proto:"@ + proto_label(v.proto) + " "@,
        if v.grouping {
            " group:ON "@
        } else {
            " group:off "@
        },
        " view:"@ + view_name(v.view) + " "@,
    )
}

/// The header's labels (see `header_parts`).
pub fn header_labels(app: &App) -> (r: (String, String, String, String))
    ensures
        (r.0@, r.1@, r.2@, r.3@) == header_parts(app@),
{
    let mut source = String::from_str(" ");
    source.append(app.source.as_str());
    source.append(" ");
    let mut proto = String::from_str(" proto:");
    proto.append(app.proto.label());
    proto.append(" ");
    let group = if app.grouping {
        String::from_str(" group:ON ")
    } else {
        String::from_str(" group:off ")
    };
    let mut view = String::from_str(" view:");
    match app.view {
        crate::app::View::List => view.append("list"),
        crate::app::View::Timeline => view.append("timeline"),
    }
    view.append(" ");
    (source, proto, group, view)
}

} // verus!
