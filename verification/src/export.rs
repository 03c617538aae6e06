//! The selected row as a self-contained text document, for opening in an editor.

use crate::app::{distinct, App, AppView};
use crate::model::InteractionView;
use crate::app::{rows_wf, Group};
use crate::model::views;
use crate::text::{
    append_chars, append_decimal, chars_of, decimal, is_whitespace, is_ws, lemma_trim_end_at,
    to_uppercase, trim_end, uppercase,
};
use crate::time::{format_instant, formatted};
use vstd::prelude::*;

verus! {

/// `s` with every carriage return removed.
pub open spec fn without_cr(s: Seq<char>) -> Seq<char>
    decreases s.len(),
{
    if s.len() == 0 {
        s
    } else if s.last() == '\r' {
        without_cr(s.drop_last())
    } else {
        without_cr(s.drop_last()).push(s.last())
    }
}

/// The parts of `parts` with `sep` between neighbours, as `join` gives them.
pub open spec fn joined(parts: Seq<Seq<char>>, sep: Seq<char>) -> Seq<char>
    decreases parts.len(),
{
    if parts.len() == 0 {
        seq![]
    } else if parts.len() == 1 {
        parts[0]
    } else {
        joined(parts.drop_last(), sep) + sep + parts.last()
    }
}

/// Format of a full date and time to the second.
pub open spec fn fmt_seconds_utc() -> Seq<char> {
    "%Y-%m-%d %H:%M:%S UTC"@
}

/// Format of a full date and time to the millisecond.
pub open spec fn fmt_millis() -> Seq<char> {
    "%Y-%m-%d %H:%M:%S%.3f"@
}

/// Format of a full date and time to the millisecond, marked UTC.
pub open spec fn fmt_millis_utc() -> Seq<char> {
    "%Y-%m-%d %H:%M:%S%.3f UTC"@
}

/// One line per occurrence: its time to the millisecond and its source.
pub open spec fn occurrence_lines(all: Seq<InteractionView>, g: Seq<usize>) -> Seq<char>
    decreases g.len(),
{
    if g.len() == 0 {
        seq![]
    } else {
        let it = all[g.last() as int];
        occurrence_lines(all, g.drop_last()) + "  "@ + formatted(it.timestamp, fmt_millis()) + "  "@
            + it.remote + "\n"@
    }
}

/// The line of one occurrence in an export: two spaces, its time to the
/// millisecond, two spaces, its source, and a line end.
pub open spec fn occurrence_line(it: InteractionView) -> Seq<char> {
    "  "@ + formatted(it.timestamp, fmt_millis()) + "  "@ + it.remote + "\n"@
}

/// A group's occurrence section lists every occurrence of the group, one line
/// each, in the group's order: it is the lines of the group's interactions, one
/// after another.
pub proof fn lemma_occurrence_lines(all: Seq<InteractionView>, g: Seq<usize>)
    ensures
        occurrence_lines(all, g) == g.map_values(|i: usize| occurrence_line(all[i as int])).flatten(),
    decreases g.len(),
{
    let f = |i: usize| occurrence_line(all[i as int]);
    if g.len() == 0 {
        assert(g.map_values(f) =~= Seq::<Seq<char>>::empty());
    } else {
        let d = g.drop_last();
        lemma_occurrence_lines(all, d);
        assert(g.map_values(f) =~= d.map_values(f).push(f(g.last())));
        d.map_values(f).lemma_flatten_push(f(g.last()));
        assert(occurrence_lines(all, g) =~= occurrence_lines(all, d) + f(g.last()));
    }
}

/// The sources of a row, distinct, in first-seen order.
pub open spec fn row_sources(all: Seq<InteractionView>, g: Seq<usize>) -> Seq<Seq<char>> {
    distinct(g.map_values(|i: usize| all[i as int].remote))
}

/// The heading of an export: protocol, query type (when there is a non-empty
/// one) and correlation id of the representative.
pub open spec fn export_head(rep: InteractionView) -> Seq<char> {
    "# interactsh-tui interaction export\n\n"@ + "protocol : "@ + uppercase(rep.protocol) + "\n"@
        + (match rep.qtype {
        Some(q) => if q.len() > 0 {
            "q-type   : "@ + q + "\n"@
        } else {
            seq![]
        },
        None => seq![],
    }) + "full-id  : "@ + rep.full_id + "\n"@
}

/// The middle of an export: for a collapsed group its size, time span, sources
/// and every occurrence; for a single interaction its source and time.
pub open spec fn export_middle(all: Seq<InteractionView>, g: Seq<usize>) -> Seq<char> {
    let rep = all[g.last() as int];
    if g.len() > 1 {
        let first = all[g[0] as int];
        "group    : "@ + decimal(g.len()) + " identical occurrences\n"@ + "seen     : "@ + formatted(
            first.timestamp,
            fmt_seconds_utc(),
        ) + " -> "@ + formatted(rep.timestamp, fmt_seconds_utc()) + "\n"@ + "sources  : "@
            + joined(row_sources(all, g), ", "@) + "\n"@ + "\n## occurrences (time  source)\n"@
            + occurrence_lines(all, g)
            + "\n(request below is the newest occurrence; the rest are identical)\n"@
    } else {
        "source   : "@ + rep.remote + "\n"@ + "time     : "@ + formatted(
            rep.timestamp,
            fmt_millis_utc(),
        ) + "\n"@
    }
}

/// The end of an export: the full raw request and response, without carriage
/// returns or trailing whitespace.
pub open spec fn export_tail(rep: InteractionView) -> Seq<char> {
    "\n===== RAW REQUEST =====\n"@ + trim_end(without_cr(rep.raw_request))
        + "\n\n===== RAW RESPONSE =====\n"@ + trim_end(without_cr(rep.raw_response)) + "\n"@
}

/// The export of the selected row, when a row is selected.
pub open spec fn export_text(v: AppView) -> Option<Seq<char>> {
    if v.selected < v.groups.len() {
        let g = v.groups[v.selected as int];
        let rep = v.all[g.last() as int];
        Some(export_head(rep) + export_middle(v.all, g) + export_tail(rep))
    } else {
        None
    }
}


/// The characters of `s` without carriage returns and trailing whitespace.
fn cleaned(s: &str) -> (r: Vec<char>)
    ensures
        r@ == trim_end(without_cr(s@)),
{
    let c = chars_of(s);
    let mut v: Vec<char> = Vec::new();
    let mut i: usize = 0;
    while i < c.len()
        invariant
            i <= c@.len(),
            v@ == without_cr(c@.take(i as int)),
        decreases c@.len() - i,
    {
        assert(c@.take(i + 1).drop_last() =~= c@.take(i as int));
        if c[i] != '\r' {
            v.push(c[i]);
        }
        i = i + 1;
    }
    assert(c@.take(i as int) =~= s@);
    let mut b = v.len();
    while b > 0 && is_whitespace(v[b - 1])
        invariant
            b <= v@.len(),
            forall|k: int| b <= k < v@.len() ==> is_ws(#[trigger] v@[k]),
        decreases b,
    {
        b = b - 1;
    }
    proof {
        lemma_trim_end_at(v@, b as int);
    }
    v.truncate(b);
    v
}

/// Appends the heading of an export for `rep`.
fn push_head(out: &mut String, rep: &crate::model::Interaction)
    ensures
        final(out)@ == old(out)@ + export_head(rep@),
{
    let ghost start = out@;
    out.append("# interactsh-tui interaction export\n\n");
    out.append("protocol : ");
    let up = to_uppercase(rep.protocol.as_str());
    out.append(up.as_str());
    out.append("\n");
    let ghost mid = out@;
    match &rep.qtype {
        Some(q) => {
            if q.as_str().unicode_len() > 0 {
                out.append("q-type   : ");
                out.append(q.as_str());
                out.append("\n");
            }
        },
        None => {},
    }
    let ghost q_part = match rep@.qtype {
        Some(q) => if q.len() > 0 {
            "q-type   : "@ + q + "\n"@
        } else {
            Seq::<char>::empty()
        },
        None => Seq::<char>::empty(),
    };
    assert(out@ =~= mid + q_part);
    out.append("full-id  : ");
    out.append(rep.full_id.as_str());
    out.append("\n");
    assert(out@ =~= start + export_head(rep@));
}

/// Appends the end of an export for `rep`.
fn push_tail(out: &mut String, rep: &crate::model::Interaction)
    ensures
        final(out)@ == old(out)@ + export_tail(rep@),
{
    let ghost start = out@;
    out.append("\n===== RAW REQUEST =====\n");
    let req = cleaned(rep.raw_request.as_str());
    append_chars(out, &req);
    out.append("\n\n===== RAW RESPONSE =====\n");
    let resp = cleaned(rep.raw_response.as_str());
    append_chars(out, &resp);
    out.append("\n");
    assert(out@ =~= start + export_tail(rep@));
}

/// Appends the parts with `", "` between neighbours.
pub(crate) fn push_joined(out: &mut String, parts: &Vec<String>)
    ensures
        final(out)@ == old(out)@ + joined(parts@.map_values(|s: String| s@), ", "@),
{
    let ghost start = out@;
    let ghost pv = parts@.map_values(|s: String| s@);
    let mut k: usize = 0;
    while k < parts.len()
        invariant
            k <= parts@.len(),
            pv == parts@.map_values(|s: String| s@),
            out@ == start + joined(pv.take(k as int), ", "@),
        decreases parts@.len() - k,
    {
        let ghost before = out@;
        assert(pv.take(k + 1).drop_last() =~= pv.take(k as int));
        if k > 0 {
            out.append(", ");
        }
        out.append(parts[k].as_str());
        proof {
            if k == 0 {
                assert(pv.take(1)[0] == pv[0]);
                assert(joined(pv.take(1), ", "@) == pv.take(1)[0]);
            }
            assert(out@ =~= start + joined(pv.take(k + 1), ", "@));
        }
        k = k + 1;
    }
    assert(pv.take(k as int) =~= pv);
}

/// Appends one line per occurrence of the row.
fn push_occurrences(out: &mut String, all: &Vec<crate::model::Interaction>, g: &Group)
    requires
        rows_wf(all@.len(), seq![g.indices@]),
    ensures
        final(out)@ == old(out)@ + occurrence_lines(views(all@), g.indices@),
{
    let ghost start = out@;
    let ghost gv = g.indices@;
    assert(seq![gv][0] == gv);
    let mut k: usize = 0;
    while k < g.indices.len()
        invariant
            k <= gv.len(),
            gv == g.indices@,
            forall|m: int| 0 <= m < gv.len() ==> #[trigger] gv[m] < all@.len(),
            out@ == start + occurrence_lines(views(all@), gv.take(k as int)),
        decreases gv.len() - k,
    {
        let it = &all[g.indices[k]];
        assert(views(all@)[gv[k as int] as int] == it@);
        assert(gv.take(k + 1).drop_last() =~= gv.take(k as int));
        assert(gv.take(k + 1).last() == gv[k as int]);
        out.append("  ");
        let t = format_instant(it.timestamp, "%Y-%m-%d %H:%M:%S%.3f");
        out.append(t.as_str());
        out.append("  ");
        out.append(it.remote.as_str());
        out.append("\n");
        assert(out@ =~= start + occurrence_lines(views(all@), gv.take(k + 1)));
        k = k + 1;
    }
    assert(gv.take(k as int) =~= gv);
}

/// Appends the middle of an export for row `g` of more than one interaction.
#[verifier::rlimit(40)]
fn push_group_middle(out: &mut String, all: &Vec<crate::model::Interaction>, g: &Group)
    requires
        rows_wf(all@.len(), seq![g.indices@]),
        g.indices@.len() > 1,
    ensures
        final(out)@ == old(out)@ + export_middle(views(all@), g.indices@),
{
    let ghost start = out@;
    let ghost gv = g.indices@;
    let ghost av = views(all@);
    assert(seq![gv][0] == gv);
    let rep = g.rep(all.as_slice());
    let first = g.first(all.as_slice());
    let srcs = g.sources(all.as_slice());
    out.append("group    : ");
    append_decimal(out, g.count() as u64);
    out.append(" identical occurrences\n");
    let ghost p1 = out@;
    assert(p1 =~= start + "group    : "@ + decimal(gv.len()) + " identical occurrences\n"@);
    out.append("seen     : ");
    let a = format_instant(first.timestamp, "%Y-%m-%d %H:%M:%S UTC");
    out.append(a.as_str());
    out.append(" -> ");
    let b = format_instant(rep.timestamp, "%Y-%m-%d %H:%M:%S UTC");
    out.append(b.as_str());
    out.append("\n");
    let ghost p2 = out@;
    assert(p2 =~= p1 + "seen     : "@ + formatted(av[gv[0] as int].timestamp, fmt_seconds_utc()) + " -> "@
        + formatted(av[gv.last() as int].timestamp, fmt_seconds_utc()) + "\n"@);
    out.append("sources  : ");
    push_joined(out, &srcs);
    out.append("\n");
    proof {
        assert(gv.map_values(|i: usize| all@[i as int].remote@) =~= gv.map_values(
            |i: usize| views(all@)[i as int].remote,
        ));
    }
    let ghost p3 = out@;
    assert(p3 =~= p2 + "sources  : "@ + joined(row_sources(av, gv), ", "@) + "\n"@);
    out.append("\n## occurrences (time  source)\n");
    push_occurrences(out, all, g);
    out.append("\n(request below is the newest occurrence; the rest are identical)\n");
    assert(out@ =~= p3 + "\n## occurrences (time  source)\n"@ + occurrence_lines(av, gv)
        + "\n(request below is the newest occurrence; the rest are identical)\n"@);
    assert(out@ =~= start + export_middle(av, gv));
}

/// Appends the middle of an export for row `g`.
fn push_middle(out: &mut String, all: &Vec<crate::model::Interaction>, g: &Group)
    requires
        rows_wf(all@.len(), seq![g.indices@]),
    ensures
        final(out)@ == old(out)@ + export_middle(views(all@), g.indices@),
{
    let ghost start = out@;
    let ghost gv = g.indices@;
    assert(seq![gv][0] == gv);
    if g.count() > 1 {
        push_group_middle(out, all, g);
    } else {
        let rep = g.rep(all.as_slice());
        out.append("source   : ");
        out.append(rep.remote.as_str());
        out.append("\n");
        out.append("time     : ");
        let t = format_instant(rep.timestamp, "%Y-%m-%d %H:%M:%S%.3f UTC");
        out.append(t.as_str());
        out.append("\n");
        assert(out@ =~= start + export_middle(views(all@), gv));
    }
}

impl App {
    /// The selected row as a self-contained text document: metadata, for a
    /// collapsed group every occurrence's time and source, and the full request
    /// and response, never truncated.
    pub fn export_selected(&self) -> (r: Option<String>)
        requires
            self@.wf(),
        ensures
            match r {
                Some(s) => export_text(self@) == Some(s@),
                None => export_text(self@) is None,
            },
    {
        let g = match self.selected_group() {
            Some(g) => g,
            None => return None,
        };
        proof {
            let gv = self@.groups[self@.selected as int];
            assert(rows_wf(self@.all.len(), seq![g.indices@])) by {
                assert(seq![g.indices@][0] == gv);
            }
        }
        let rep = g.rep(self.all.as_slice());
        let mut out = String::new();
        push_head(&mut out, rep);
        push_middle(&mut out, &self.all, g);
        push_tail(&mut out, rep);
        assert(out@ =~= export_head(rep@) + export_middle(self@.all, g.indices@) + export_tail(rep@));
        Some(out)
    }
}

} // verus!
