//! Parsing interactsh `interactions.jsonl` records into a typed, time-ordered
//! timeline, and what the filters and the grouping read of one interaction.

use crate::sorting::{
    at_instant, insert_by, lemma_insert_by_at, lemma_sort_by_keeps, lemma_sort_by_ordered,
    lemma_sort_by_stable, ordered_by, sort_by,
};
use crate::text::{
    append_chars, contains_chars, lemma_lines_step, lemma_lines_tail, no_newline, chars_eq, chars_of, contains_seq, first_two_words, lemma_newline_pos_at, lines,
    lowercase, slice_chars, string_of, strip_cr, to_lowercase, trim, trim_range, words,
};
use crate::time::{parse_rfc3339, rfc3339_instant, Instant};
use vstd::prelude::*;

verus! {

/// One out-of-band interaction as logged by the interactsh notifier.
#[derive(Debug)]
pub struct Interaction {
    pub timestamp: Instant,
    /// "http", "dns", "smtp", ... (lower case; "?" when the record has none).
    pub protocol: String,
    /// Source address.
    pub remote: String,
    /// Queried sub-domain / correlation id.
    pub full_id: String,
    /// DNS query type, when the record has one.
    pub qtype: Option<String>,
    pub raw_request: String,
    pub raw_response: String,
    /// One-line human summary derived from the request.
    pub summary: String,
}

/// What an `Interaction` holds, as values.
pub struct InteractionView {
    pub timestamp: Instant,
    pub protocol: Seq<char>,
    pub remote: Seq<char>,
    pub full_id: Seq<char>,
    pub qtype: Option<Seq<char>>,
    pub raw_request: Seq<char>,
    pub raw_response: Seq<char>,
    pub summary: Seq<char>,
}

/// The characters of an optional string.
pub open spec fn opt_view(s: Option<String>) -> Option<Seq<char>> {
    match s {
        Some(t) => Some(t@),
        None => None,
    }
}

impl View for Interaction {
    type V = InteractionView;

    open spec fn view(&self) -> InteractionView {
        InteractionView {
            timestamp: self.timestamp,
            protocol: self.protocol@,
            remote: self.remote@,
            full_id: self.full_id@,
            qtype: opt_view(self.qtype),
            raw_request: self.raw_request@,
            raw_response: self.raw_response@,
            summary: self.summary@,
        }
    }
}

/// What a sequence of interactions holds, as values.
pub open spec fn views(s: Seq<Interaction>) -> Seq<InteractionView> {
    s.map_values(|i: Interaction| i@)
}

/// The instant by which the timeline is ordered.
pub open spec fn by_time() -> spec_fn(InteractionView) -> Instant {
    |it: InteractionView| it.timestamp
}

/// What `serde_json::from_str::<serde_json::Value>` on `line`, followed by
/// `Value::get(key)` and `Value::as_str`, gives: `None` when the line is not
/// JSON, `Some(None)` when it is but holds no string under `key`.
pub uninterp spec fn json_str_field(line: Seq<char>, key: Seq<char>) -> Option<Option<Seq<char>>>;

/// serde_json's `from_str::<Value>`, then `Value::get` and `Value::as_str`; the
/// result is named, not stated.
#[verifier::external_body]
fn json_string_field(line: &str, key: &str) -> (r: Option<Option<String>>)
    ensures
        match r {
            None => json_str_field(line@, key@) is None,
            Some(v) => json_str_field(line@, key@) == Some(opt_view(v)),
        },
{
    match serde_json::from_str::<serde_json::Value>(line) {
        Ok(v) => Some(v.get(key).and_then(serde_json::Value::as_str).map(str::to_string)),
        Err(_) => None,
    }
}

/// The string under `key` in the record, empty when there is none.
pub open spec fn field_text(line: Seq<char>, key: Seq<char>) -> Seq<char> {
    match json_str_field(line, key) {
        Some(Some(v)) => v,
        _ => seq![],
    }
}

/// The first line of `s`, empty when `s` has none.
pub open spec fn first_line(s: Seq<char>) -> Seq<char> {
    if lines(s).len() > 0 {
        lines(s)[0]
    } else {
        seq![]
    }
}

/// The one-line summary of a request: for DNS the query type (or "?") and the
/// queried name; otherwise the first two words of the request's first line
/// (e.g. "GET /path"), or the correlation id when that line is blank.
pub open spec fn summarize(
    proto: Seq<char>,
    qtype: Option<Seq<char>>,
    raw_request: Seq<char>,
    full_id: Seq<char>,
) -> Seq<char> {
    if proto == "dns"@ {
        (match qtype {
            Some(q) => q,
            None => "?"@,
        }) + " "@ + full_id
    } else {
        let first = trim(first_line(raw_request));
        let w = words(first);
        if first.len() == 0 {
            full_id
        } else if w.len() >= 2 {
            w[0] + " "@ + w[1]
        } else if w.len() == 1 {
            w[0]
        } else {
            first
        }
    }
}

/// The interaction that a (trimmed) JSONL record describes, or `None` when the
/// record is not JSON, has no string timestamp, or chrono refuses it as RFC 3339.
pub open spec fn parse_record(line: Seq<char>) -> Option<InteractionView> {
    match json_str_field(line, "timestamp"@) {
        Some(Some(ts)) => match rfc3339_instant(ts) {
            Some((secs, nanos)) => {
                let p = field_text(line, "protocol"@);
                let protocol = if p.len() == 0 {
                    "?"@
                } else {
                    lowercase(p)
                };
                let qtype = match json_str_field(line, "q-type"@) {
                    Some(Some(q)) => Some(q),
                    _ => None,
                };
                let raw_request = field_text(line, "raw-request"@);
                let f = field_text(line, "full-id"@);
                let full_id = if f.len() == 0 {
                    field_text(line, "unique-id"@)
                } else {
                    f
                };
                Some(
                    InteractionView {
                        timestamp: Instant { secs, nanos },
                        protocol,
                        remote: field_text(line, "remote-address"@),
                        full_id,
                        qtype,
                        raw_request,
                        raw_response: field_text(line, "raw-response"@),
                        summary: summarize(protocol, qtype, raw_request, full_id),
                    },
                )
            },
            None => None,
        },
        _ => None,
    }
}

/// The interaction on one line of the log; blank lines hold none.
pub open spec fn parse_line(l: Seq<char>) -> Option<InteractionView> {
    if trim(l).len() == 0 {
        None
    } else {
        parse_record(trim(l))
    }
}

/// The interactions of the given lines, in line order, skipping lines that hold none.
pub open spec fn parse_lines(ls: Seq<Seq<char>>) -> Seq<InteractionView>
    decreases ls.len(),
{
    if ls.len() == 0 {
        seq![]
    } else {
        let prev = parse_lines(ls.drop_last());
        match parse_line(ls.last()) {
            Some(it) => prev.push(it),
            None => prev,
        }
    }
}

/// The timeline of a JSONL log: every record that parses, earliest first, records
/// with the same instant in log order.
pub open spec fn timeline(data: Seq<char>) -> Seq<InteractionView> {
    sort_by(parse_lines(lines(data)), by_time())
}

/// The separator between the parts of a group signature.
pub open spec fn sig_sep() -> Seq<char> {
    seq!['\u{1}']
}

/// Identity used by smart grouping: for DNS the source, query type and queried
/// name; otherwise protocol, source and raw request.
pub open spec fn group_signature(it: InteractionView) -> Seq<char> {
    if it.protocol == "dns"@ {
        "dns"@ + sig_sep() + it.remote + sig_sep() + (match it.qtype {
            Some(q) => q,
            None => seq![],
        }) + sig_sep() + it.full_id
    } else {
        it.protocol + sig_sep() + it.remote + sig_sep() + it.raw_request
    }
}

/// Whether the interaction matches a lower-cased free-text query: the empty
/// query matches all; otherwise the query occurs in the lower-cased summary,
/// source, correlation id, raw request or raw response, or in the protocol.
pub open spec fn matches_query(it: InteractionView, needle: Seq<char>) -> bool {
    ||| needle.len() == 0
    ||| contains_seq(lowercase(it.summary), needle)
    ||| contains_seq(lowercase(it.remote), needle)
    ||| contains_seq(it.protocol, needle)
    ||| contains_seq(lowercase(it.full_id), needle)
    ||| contains_seq(lowercase(it.raw_request), needle)
    ||| contains_seq(lowercase(it.raw_response), needle)
}

/// The free-text query looks in every field: the empty query matches every
/// interaction, and a query that occurs in the lower-cased summary, source,
/// correlation id, raw request or raw response, or in the protocol, matches;
/// a query found in none of these does not.
pub proof fn lemma_query_fields(it: InteractionView, needle: Seq<char>)
    ensures
        needle.len() == 0 ==> matches_query(it, needle),
        contains_seq(lowercase(it.summary), needle) ==> matches_query(it, needle),
        contains_seq(lowercase(it.remote), needle) ==> matches_query(it, needle),
        contains_seq(it.protocol, needle) ==> matches_query(it, needle),
        contains_seq(lowercase(it.full_id), needle) ==> matches_query(it, needle),
        contains_seq(lowercase(it.raw_request), needle) ==> matches_query(it, needle),
        contains_seq(lowercase(it.raw_response), needle) ==> matches_query(it, needle),
        !contains_seq(lowercase(it.summary), needle) && !contains_seq(lowercase(it.remote), needle)
            && !contains_seq(it.protocol, needle) && !contains_seq(lowercase(it.full_id), needle)
            && !contains_seq(lowercase(it.raw_request), needle) && !contains_seq(
            lowercase(it.raw_response),
            needle,
        ) && needle.len() > 0 ==> !matches_query(it, needle),
{
}

/// The string under `key`, empty when there is none.
fn field_or_empty(line: &str, key: &str) -> (r: String)
    ensures
        r@ == field_text(line@, key@),
{
    match json_string_field(line, key) {
        Some(Some(v)) => v,
        _ => String::new(),
    }
}

/// Whether a string is exactly the literal `lit`.
fn is_exactly(s: &str, lit: &str) -> (r: bool)
    ensures
        r == (s@ == lit@),
{
    let a = chars_of(s);
    let b = chars_of(lit);
    chars_eq(&a, &b)
}

/// The first line of `s`.
fn first_line_chars(s: &Vec<char>) -> (r: Vec<char>)
    ensures
        r@ == first_line(s@),
{
    let n = s.len();
    let mut p: usize = 0;
    while p < n && s[p] != '\n'
        invariant
            p <= n == s.len(),
            forall|i: int| 0 <= i < p ==> #[trigger] s@[i] != '\n',
        decreases n - p,
    {
        p = p + 1;
    }
    if n == 0 {
        return Vec::new();
    }
    proof {
        lemma_newline_pos_at(s@, p as int);
    }
    if p == n {
        assert(s@.take(n as int) =~= s@);
        return slice_chars(s, 0, n);
    }
    let mut e = p;
    if e > 0 && s[e - 1] == '\r' {
        e = e - 1;
    }
    assert(s@.take(p as int) =~= s@.subrange(0, p as int));
    assert(strip_cr(s@.take(p as int)) =~= s@.subrange(0, e as int));
    slice_chars(s, 0, e)
}

/// The one-line summary of a request (see `summarize`).
pub fn summarize_request(
    proto: &str,
    qtype: &Option<String>,
    raw_request: &str,
    full_id: &str,
) -> (r: String)
    ensures
        r@ == summarize(proto@, opt_view(*qtype), raw_request@, full_id@),
{
    if is_exactly(proto, "dns") {
        let mut out = match qtype {
            Some(q) => q.clone(),
            None => String::from_str("?"),
        };
        out.append(" ");
        out.append(full_id);
        return out;
    }
    let raw = chars_of(raw_request);
    let line = first_line_chars(&raw);
    let first = trim_range(&line, 0, line.len());
    assert(line@.subrange(0, line@.len() as int) =~= line@);
    if first.len() == 0 {
        return String::from_str(full_id);
    }
    let (w0, w1) = first_two_words(&first);
    match (w0, w1) {
        (Some(a), Some(b)) => {
            let mut out = string_of(&a);
            out.append(" ");
            append_chars(&mut out, &b);
            out
        },
        (Some(a), None) => string_of(&a),
        (None, _) => string_of(&first),
    }
}

/// The interaction that a trimmed JSONL record describes (see `parse_record`).
pub fn parse_record_text(line: &str) -> (r: Option<Interaction>)
    ensures
        opt_interaction_view(r) == parse_record(line@),
{
    let ts = match json_string_field(line, "timestamp") {
        Some(Some(t)) => t,
        _ => return None,
    };
    let (secs, nanos) = match parse_rfc3339(ts.as_str()) {
        Some(p) => p,
        None => return None,
    };
    let p = field_or_empty(line, "protocol");
    let protocol = if p.as_str().unicode_len() == 0 {
        String::from_str("?")
    } else {
        to_lowercase(p.as_str())
    };
    let qtype = match json_string_field(line, "q-type") {
        Some(Some(q)) => Some(q),
        _ => None,
    };
    let raw_request = field_or_empty(line, "raw-request");
    let f = field_or_empty(line, "full-id");
    let full_id = if f.as_str().unicode_len() == 0 {
        field_or_empty(line, "unique-id")
    } else {
        f
    };
    let summary = summarize_request(protocol.as_str(), &qtype, raw_request.as_str(), full_id.as_str());
    Some(
        Interaction {
            timestamp: Instant { secs, nanos },
            protocol,
            remote: field_or_empty(line, "remote-address"),
            full_id,
            qtype,
            raw_request,
            raw_response: field_or_empty(line, "raw-response"),
            summary,
        },
    )
}

/// The view of an optional interaction.
pub open spec fn opt_interaction_view(r: Option<Interaction>) -> Option<InteractionView> {
    match r {
        Some(it) => Some(it@),
        None => None,
    }
}


/// Places `x` into the time-ordered `items` after every interaction that is not
/// later than it.
pub fn insert_by_time(items: &mut Vec<Interaction>, x: Interaction)
    ensures
        views(final(items)@) == insert_by(views(old(items)@), x@, by_time()),
{
    let ghost s = views(items@);
    let mut p = items.len();
    while p > 0 && !items[p - 1].timestamp.is_at_or_before(&x.timestamp)
        invariant
            p <= items.len(),
            s == views(items@),
            forall|j: int| p <= j < s.len() ==> !(#[trigger] s[j]).timestamp.le(x.timestamp),
        decreases p,
    {
        p = p - 1;
    }
    proof {
        lemma_insert_by_at(s, x@, by_time(), p as int);
    }
    let ghost xv = x@;
    items.insert(p, x);
    assert(views(items@) =~= s.insert(p as int, xv));
}

proof fn lemma_parse_lines_push(prev: Seq<Seq<char>>, l: Seq<char>)
    ensures
        sort_by(parse_lines(prev.push(l)), by_time()) == (match parse_line(l) {
            Some(it) => insert_by(sort_by(parse_lines(prev), by_time()), it, by_time()),
            None => sort_by(parse_lines(prev), by_time()),
        }),
{
    let ls = prev.push(l);
    assert(ls.drop_last() =~= prev);
    assert(ls.last() == l);
    match parse_line(l) {
        Some(it) => {
            let q = parse_lines(prev).push(it);
            assert(q.drop_last() =~= parse_lines(prev));
            assert(q.last() == it);
        },
        None => {},
    }
}

/// Parses every JSONL line and returns the interactions sorted ascending by
/// time; lines that are blank, not JSON, or without a valid RFC 3339 timestamp
/// are skipped.
pub fn parse_all(data: &str) -> (r: Vec<Interaction>)
    ensures
        views(r@) == timeline(data@),
{
    let chars = chars_of(data);
    let mut items: Vec<Interaction> = Vec::new();
    let ghost mut done: Seq<Seq<char>> = seq![];
    let mut start: usize = 0;
    let mut i: usize = 0;
    assert(data@.skip(0) =~= data@);
    assert(done + lines(data@) =~= lines(data@));
    while i < chars.len()
        invariant
            chars@ == data@,
            start <= i <= chars.len(),
            lines(data@) == done + lines(data@.skip(start as int)),
            no_newline(data@.subrange(start as int, i as int)),
            views(items@) == sort_by(parse_lines(done), by_time()),
        decreases chars.len() - i,
    {
        if chars[i] == '\n' {
            let ghost cur = data@.subrange(start as int, i as int);
            proof {
                assert(data@.skip(start as int) =~= cur + data@.skip(i as int));
                lemma_lines_step(cur, data@.skip(i as int));
                assert(data@.skip(i as int).skip(1) =~= data@.skip(i + 1));
            }
            let mut e = i;
            if e > start && chars[e - 1] == '\r' {
                e = e - 1;
            }
            assert(strip_cr(cur) =~= data@.subrange(start as int, e as int));
            let ghost prev = done;
            proof {
                done = done.push(strip_cr(cur));
                assert(lines(data@) =~= done + lines(data@.skip(i + 1)));
                lemma_parse_lines_push(prev, strip_cr(cur));
            }
            let t = trim_range(&chars, start, e);
            if t.len() > 0 {
                let line = string_of(&t);
                match parse_record_text(line.as_str()) {
                    Some(it) => insert_by_time(&mut items, it),
                    None => {},
                }
            }
            start = i + 1;
            proof {
                assert(data@.subrange(start as int, start as int) =~= Seq::<char>::empty());
            }
        } else {
            proof {
                assert(data@.subrange(start as int, i + 1) =~= data@.subrange(
                    start as int,
                    i as int,
                ).push(data@[i as int]));
            }
        }
        i = i + 1;
    }
    let ghost cur = data@.skip(start as int);
    proof {
        assert(data@.subrange(start as int, i as int) =~= cur);
        lemma_lines_tail(cur);
    }
    if start < chars.len() {
        let ghost prev = done;
        proof {
            done = done.push(cur);
            assert(lines(data@) =~= done);
            lemma_parse_lines_push(prev, cur);
            assert(data@.subrange(start as int, chars.len() as int) =~= cur);
        }
        let t = trim_range(&chars, start, chars.len());
        if t.len() > 0 {
            let line = string_of(&t);
            match parse_record_text(line.as_str()) {
                Some(it) => insert_by_time(&mut items, it),
                None => {},
            }
        }
    } else {
        assert(lines(data@) =~= done + Seq::<Seq<char>>::empty());
    }
    items
}

/// Appends the separator of signature parts.
fn push_sep(out: &mut String)
    ensures
        final(out)@ == old(out)@ + sig_sep(),
{
    crate::text::push_char(out, '\u{1}');
    assert(seq!['\u{1}'] =~= sig_sep());
}

impl Interaction {
    /// Identity used by smart grouping (see `group_signature`): interactions
    /// sharing a signature differ only in time and response, so they collapse into
    /// one navigable group.
    pub fn group_signature(&self) -> (r: String)
        ensures
            r@ == group_signature(self@),
    {
        let mut out = String::new();
        if is_exactly(self.protocol.as_str(), "dns") {
            out.append("dns");
            push_sep(&mut out);
            out.append(self.remote.as_str());
            push_sep(&mut out);
            match &self.qtype {
                Some(q) => out.append(q.as_str()),
                None => {},
            }
            push_sep(&mut out);
            out.append(self.full_id.as_str());
        } else {
            out.append(self.protocol.as_str());
            push_sep(&mut out);
            out.append(self.remote.as_str());
            push_sep(&mut out);
            out.append(self.raw_request.as_str());
        }
        out
    }

    /// Whether the interaction matches a lower-cased free-text query (see
    /// `matches_query`).
    pub fn matches(&self, needle_lower: &str) -> (r: bool)
        ensures
            r == matches_query(self@, needle_lower@),
    {
        let needle = chars_of(needle_lower);
        if needle.len() == 0 {
            return true;
        }
        contains_lower(&self.summary, &needle) || contains_lower(&self.remote, &needle)
            || contains_chars(&chars_of(self.protocol.as_str()), &needle) || contains_lower(
            &self.full_id,
            &needle,
        ) || contains_lower(&self.raw_request, &needle) || contains_lower(
            &self.raw_response,
            &needle,
        )
    }
}

/// Whether `needle` occurs in the lower-cased `hay`.
fn contains_lower(hay: &String, needle: &Vec<char>) -> (r: bool)
    ensures
        r == contains_seq(lowercase(hay@), needle@),
{
    let lower = to_lowercase(hay.as_str());
    contains_chars(&chars_of(lower.as_str()), needle)
}


/// The timeline of a log is ordered by instant, holds every record that parses
/// as often as it occurs, and keeps records with the same instant in log order.
pub proof fn lemma_timeline(data: Seq<char>, t: Instant)
    ensures
        ordered_by(timeline(data), by_time()),
        timeline(data).to_multiset() == parse_lines(lines(data)).to_multiset(),
        timeline(data).filter(at_instant(by_time(), t)) == parse_lines(lines(data)).filter(
            at_instant(by_time(), t),
        ),
{
    let s = parse_lines(lines(data));
    lemma_sort_by_ordered(s, by_time());
    lemma_sort_by_keeps(s, by_time());
    lemma_sort_by_stable(s, by_time(), t);
}

/// Whether `s` holds the separator character.
pub open spec fn has_sep(s: Seq<char>) -> bool {
    s.contains('\u{1}')
}

proof fn lemma_split_at_sep(a: Seq<char>, b: Seq<char>, a2: Seq<char>, b2: Seq<char>)
    requires
        !has_sep(a),
        !has_sep(a2),
        a + sig_sep() + b == a2 + sig_sep() + b2,
    ensures
        a == a2,
        b == b2,
{
    let l = a + sig_sep() + b;
    let r = a2 + sig_sep() + b2;
    if a.len() < a2.len() {
        assert(l[a.len() as int] == '\u{1}');
        assert(r[a.len() as int] == a2[a.len() as int]);
        assert(a2.contains(a2[a.len() as int]));
    } else if a.len() > a2.len() {
        assert(r[a2.len() as int] == '\u{1}');
        assert(l[a2.len() as int] == a[a2.len() as int]);
        assert(a.contains(a[a2.len() as int]));
    }
    assert(a =~= l.take(a.len() as int));
    assert(a2 =~= r.take(a.len() as int));
    assert(b =~= l.skip(a.len() + 1 as int));
    assert(b2 =~= r.skip(a.len() + 1 as int));
}

/// The part of a signature before its first separator.
pub open spec fn sig_head(x: InteractionView) -> Seq<char> {
    if x.protocol == "dns"@ {
        "dns"@
    } else {
        x.protocol
    }
}

/// The part of a signature after its first separator.
pub open spec fn sig_tail(x: InteractionView) -> Seq<char> {
    if x.protocol == "dns"@ {
        x.remote + sig_sep() + (x.qtype.unwrap_or(seq![]) + sig_sep() + x.full_id)
    } else {
        x.remote + sig_sep() + x.raw_request
    }
}

proof fn lemma_sig_parts(x: InteractionView)
    ensures
        group_signature(x) == sig_head(x) + sig_sep() + sig_tail(x),
{
    if x.protocol == "dns"@ {
        let q = match x.qtype {
            Some(q) => q,
            None => seq![],
        };
        assert(q == x.qtype.unwrap_or(seq![]));
        assert(group_signature(x) =~= sig_head(x) + sig_sep() + sig_tail(x));
    } else {
        assert(group_signature(x) =~= sig_head(x) + sig_sep() + sig_tail(x));
    }
}

/// Whether a signature's parts hold no separator character.
pub open spec fn sep_free(x: InteractionView) -> bool {
    &&& !has_sep(x.protocol)
    &&& !has_sep(x.remote)
    &&& !has_sep(x.qtype.unwrap_or(seq![]))
}

/// Interactions with the same protocol, source and request (for DNS: source,
/// query type and queried name) share a signature; and where protocols,
/// sources and query types hold no separator character, a shared signature
/// means exactly that.
pub proof fn lemma_signature_identifies(x: InteractionView, y: InteractionView)
    requires
        sep_free(x),
        sep_free(y),
    ensures
        group_signature(x) == group_signature(y) <==> (x.protocol == y.protocol && x.remote
            == y.remote && if x.protocol == "dns"@ {
            x.qtype.unwrap_or(seq![]) == y.qtype.unwrap_or(seq![]) && x.full_id == y.full_id
        } else {
            x.raw_request == y.raw_request
        }),
{
    lemma_sig_parts(x);
    lemma_sig_parts(y);
    assert(!has_sep("dns"@)) by {
        reveal_strlit("dns");
    }
    if group_signature(x) == group_signature(y) {
        lemma_split_at_sep(sig_head(x), sig_tail(x), sig_head(y), sig_tail(y));
        assert(x.protocol == y.protocol);
        if x.protocol == "dns"@ {
            let qx = x.qtype.unwrap_or(seq![]);
            let qy = y.qtype.unwrap_or(seq![]);
            lemma_split_at_sep(x.remote, qx + sig_sep() + x.full_id, y.remote, qy + sig_sep() + y.full_id);
            lemma_split_at_sep(qx, x.full_id, qy, y.full_id);
        } else {
            lemma_split_at_sep(x.remote, x.raw_request, y.remote, y.raw_request);
        }
    }
}

} // verus!
