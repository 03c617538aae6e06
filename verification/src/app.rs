//! Application state: the loaded interactions, the active filter, grouping, and
//! view state. Navigation is always over `groups`: with grouping off, each group
//! is a single interaction; with it on, identical requests collapse into one.

use crate::model::{
    by_time, group_signature, matches_query, parse_all, timeline, views,
    Interaction, InteractionView,
};
use crate::sorting::{
    distinct_under, insert_by, lemma_insert_by_at, lemma_sort_by_distinct_under, lemma_sort_by_members,
    lemma_sort_by_ordered, ordered_by, sort_by,
};
use crate::text::{chars_eq, chars_of, lowercase, to_lowercase};
use crate::time::Instant;
use vstd::prelude::*;
use vstd::view::View as _;

verus! {

/// Which protocols the list and the timeline show.
#[derive(Clone, Copy, PartialEq, Eq, Structural, Debug)]
pub enum ProtoFilter {
    All,
    Http,
    Dns,
}

/// The label of a protocol filter.
pub open spec fn proto_label(p: ProtoFilter) -> Seq<char> {
    match p {
        ProtoFilter::All => "ALL"@,
        ProtoFilter::Http => "HTTP"@,
        ProtoFilter::Dns => "DNS"@,
    }
}

/// The filter after `p` in the cycle ALL -> HTTP -> DNS -> ALL.
pub open spec fn proto_next(p: ProtoFilter) -> ProtoFilter {
    match p {
        ProtoFilter::All => ProtoFilter::Http,
        ProtoFilter::Http => ProtoFilter::Dns,
        ProtoFilter::Dns => ProtoFilter::All,
    }
}

/// Whether the filter lets an interaction with this protocol through.
pub open spec fn proto_accepts(p: ProtoFilter, proto: Seq<char>) -> bool {
    match p {
        ProtoFilter::All => true,
        ProtoFilter::Http => proto == "http"@,
        ProtoFilter::Dns => proto == "dns"@,
    }
}

impl ProtoFilter {
    pub fn label(self) -> (r: &'static str)
        ensures
            r@ == proto_label(self),
    {
        match self {
            ProtoFilter::All => "ALL",
            ProtoFilter::Http => "HTTP",
            ProtoFilter::Dns => "DNS",
        }
    }

    pub fn next(self) -> (r: Self)
        ensures
            r == proto_next(self),
    {
        match self {
            ProtoFilter::All => ProtoFilter::Http,
            ProtoFilter::Http => ProtoFilter::Dns,
            ProtoFilter::Dns => ProtoFilter::All,
        }
    }

    fn accepts(self, proto: &str) -> (r: bool)
        ensures
            r == proto_accepts(self, proto@),
    {
        match self {
            ProtoFilter::All => true,
            ProtoFilter::Http => chars_eq(&chars_of(proto), &chars_of("http")),
            ProtoFilter::Dns => chars_eq(&chars_of(proto), &chars_of("dns")),
        }
    }
}

/// Cycling the protocol filter three times comes back to where it started.
pub proof fn lemma_proto_cycle(p: ProtoFilter)
    ensures
        proto_next(proto_next(proto_next(p))) == p,
        proto_next(p) != p,
{
}

/// Which screen is shown.
#[derive(Clone, Copy, PartialEq, Eq, Structural, Debug)]
pub enum View {
    List,
    Timeline,
}

/// Whether keys edit the query or act as commands.
#[derive(Clone, Copy, PartialEq, Eq, Structural, Debug)]
pub enum Mode {
    Normal,
    Editing,
}

/// A navigable row: one or more interactions (indices into `App.all`) that share a
/// group signature. Indices are time-ascending; the representative is the newest.
pub struct Group {
    pub indices: Vec<usize>,
}

/// The elements of `s` without repeats, each where it first occurs.
pub open spec fn distinct<A>(s: Seq<A>) -> Seq<A>
    decreases s.len(),
{
    if s.len() == 0 {
        s
    } else {
        let d = distinct(s.drop_last());
        if d.contains(s.last()) {
            d
        } else {
            d.push(s.last())
        }
    }
}

/// `distinct` keeps exactly the elements of `s`, once each.
pub proof fn lemma_distinct<A>(s: Seq<A>)
    ensures
        forall|x: A| #[trigger] distinct(s).contains(x) <==> s.contains(x),
        distinct(s).no_duplicates(),
    decreases s.len(),
{
    if s.len() > 0 {
        let t = s.drop_last();
        lemma_distinct(t);
        assert(s =~= t.push(s.last()));
        assert forall|x: A| #[trigger] distinct(s).contains(x) <==> s.contains(x) by {
            if s.contains(x) {
                let k = choose|k: int| 0 <= k < s.len() && s[k] == x;
                if k < t.len() {
                    assert(t[k] == x);
                    assert(t.contains(x));
                }
            }
            if t.contains(x) {
                let k = choose|k: int| 0 <= k < t.len() && t[k] == x;
                assert(s[k] == x);
            }
            if distinct(s).contains(x) && !distinct(t).contains(x) {
                assert(distinct(s) == distinct(t).push(s.last()));
                let k = choose|k: int| 0 <= k < distinct(s).len() && distinct(s)[k] == x;
                assert(k == distinct(t).len());
                assert(s[s.len() - 1] == x);
            }
            if distinct(t).contains(x) && !distinct(t).contains(s.last()) {
                let k = choose|k: int| 0 <= k < distinct(t).len() && distinct(t)[k] == x;
                assert(distinct(s)[k] == x);
            }
            if !distinct(t).contains(s.last()) {
                assert(distinct(s)[distinct(t).len() as int] == s.last());
            }
        }
    }
}

/// Whether `k` is where `x` first occurs in `s`.
pub open spec fn first_occurrence<A>(s: Seq<A>, x: A, k: int) -> bool {
    &&& 0 <= k < s.len()
    &&& s[k] == x
    &&& forall|m: int| 0 <= m < k ==> s[m] != x
}

/// `distinct` lists the elements in the order in which they are first seen:
/// of two of its elements, the earlier one first occurs earlier in `s`.
pub proof fn lemma_distinct_first_seen<A>(s: Seq<A>, i: int, j: int, a: int, b: int)
    requires
        0 <= i < j < distinct(s).len(),
        first_occurrence(s, distinct(s)[i], a),
        first_occurrence(s, distinct(s)[j], b),
    ensures
        a < b,
    decreases s.len(),
{
    let t = s.drop_last();
    let dt = distinct(t);
    lemma_distinct(t);
    assert(s.len() > 0);
    assert(dt.contains(dt[i]) ==> t.contains(dt[i]));
    if j < dt.len() {
        assert(distinct(s)[i] == dt[i] && distinct(s)[j] == dt[j]);
        assert(dt.contains(dt[i]));
        assert(dt.contains(dt[j]));
        let ka = choose|k: int| 0 <= k < t.len() && t[k] == dt[i];
        let kb = choose|k: int| 0 <= k < t.len() && t[k] == dt[j];
        assert(s[ka] == dt[i]);
        assert(s[kb] == dt[j]);
        assert(a <= ka);
        assert(b <= kb);
        assert(first_occurrence(t, dt[i], a));
        assert(first_occurrence(t, dt[j], b));
        lemma_distinct_first_seen(t, i, j, a, b);
    } else {
        assert(distinct(s) == dt.push(s.last()));
        assert(!dt.contains(s.last()));
        assert(!t.contains(s.last()));
        assert(distinct(s)[i] == dt[i]);
        assert(dt.contains(dt[i]));
        let ka = choose|k: int| 0 <= k < t.len() && t[k] == dt[i];
        assert(s[ka] == dt[i]);
        assert(a <= ka);
        if b < t.len() {
            assert(t[b] == s.last());
        }
        assert(b == s.len() - 1);
    }
}

impl Group {
    pub fn count(&self) -> (r: usize)
        ensures
            r == self.indices@.len(),
    {
        self.indices.len()
    }

    /// The newest interaction of the group.
    pub fn rep<'a>(&self, all: &'a [Interaction]) -> (r: &'a Interaction)
        requires
            self.indices@.len() > 0,
            self.indices@.last() < all@.len(),
        ensures
            r@ == all@[self.indices@.last() as int]@,
    {
        &all[self.indices[self.indices.len() - 1]]
    }

    /// The oldest interaction of the group.
    pub fn first<'a>(&self, all: &'a [Interaction]) -> (r: &'a Interaction)
        requires
            self.indices@.len() > 0,
            self.indices@[0] < all@.len(),
        ensures
            r@ == all@[self.indices@[0] as int]@,
    {
        &all[self.indices[0]]
    }

    /// Distinct source addresses in the group, in first-seen order.
    pub fn sources(&self, all: &[Interaction]) -> (r: Vec<String>)
        requires
            forall|k: int| 0 <= k < self.indices@.len() ==> #[trigger] self.indices@[k] < all@.len(),
        ensures
            r@.map_values(|s: String| s@) == distinct(
                self.indices@.map_values(|i: usize| all@[i as int].remote@),
            ),
    {
        let ghost src = self.indices@.map_values(|i: usize| all@[i as int].remote@);
        let mut seen: Vec<String> = Vec::new();
        let mut k: usize = 0;
        while k < self.indices.len()
            invariant
                k <= self.indices@.len(),
                src == self.indices@.map_values(|i: usize| all@[i as int].remote@),
                forall|m: int| 0 <= m < self.indices@.len() ==> #[trigger] self.indices@[m] < all@.len(),
                seen@.map_values(|s: String| s@) == distinct(src.take(k as int)),
            decreases self.indices@.len() - k,
        {
            let r = &all[self.indices[k]].remote;
            let ghost d = seen@.map_values(|s: String| s@);
            let mut found = false;
            let mut j: usize = 0;
            while j < seen.len()
                invariant
                    j <= seen@.len(),
                    d == seen@.map_values(|s: String| s@),
                    found ==> d.contains(r@),
                    !found ==> forall|m: int| 0 <= m < j ==> d[m] != r@,
                decreases seen@.len() - j,
            {
                if seen[j] == *r {
                    found = true;
                    assert(d[j as int] == r@);
                }
                j = j + 1;
            }
            proof {
                assert(src.take(k + 1).drop_last() =~= src.take(k as int));
                assert(src.take(k + 1).last() == r@);
                if !found {
                    assert(!d.contains(r@));
                }
            }
            if !found {
                seen.push(r.clone());
                assert(seen@.map_values(|s: String| s@) =~= d.push(r@));
            }
            k = k + 1;
        }
        assert(src.take(k as int) =~= src);
        seen
    }
}


/// The group signature of the interaction at index `i`.
pub open spec fn sig_at(all: Seq<InteractionView>) -> spec_fn(usize) -> Seq<char> {
    |i: usize| group_signature(all[i as int])
}

/// Whether the interaction at an index has the signature `key`.
pub open spec fn has_sig(all: Seq<InteractionView>, key: Seq<char>) -> spec_fn(usize) -> bool {
    |i: usize| group_signature(all[i as int]) == key
}

/// The distinct signatures among the interactions at `idx`, in first-seen order.
pub open spec fn group_keys(all: Seq<InteractionView>, idx: Seq<usize>) -> Seq<Seq<char>> {
    distinct(idx.map_values(sig_at(all)))
}

/// The interactions at `idx` collapsed by signature: one group per distinct
/// signature, in first-seen order, each holding the indices with that signature
/// in the order of `idx`.
pub open spec fn collapse(all: Seq<InteractionView>, idx: Seq<usize>) -> Seq<Seq<usize>> {
    group_keys(all, idx).map_values(|k: Seq<char>| idx.filter(has_sig(all, k)))
}

/// The instant of a group's last (newest) interaction.
pub open spec fn newest_time(all: Seq<InteractionView>) -> spec_fn(Seq<usize>) -> Instant {
    |g: Seq<usize>| all[g.last() as int].timestamp
}

/// Collapsed groups ordered by their newest interaction, oldest activity first.
pub open spec fn grouped(all: Seq<InteractionView>, idx: Seq<usize>) -> Seq<Seq<usize>> {
    sort_by(collapse(all, idx), newest_time(all))
}

/// One single-interaction group per index.
pub open spec fn singletons(idx: Seq<usize>) -> Seq<Seq<usize>> {
    idx.map_values(|i: usize| seq![i])
}

/// The navigable rows for the (time-ascending) indices `idx`, newest first.
pub open spec fn rows_of(all: Seq<InteractionView>, idx: Seq<usize>, grouping: bool) -> Seq<Seq<usize>> {
    (if grouping {
        grouped(all, idx)
    } else {
        singletons(idx)
    }).reverse()
}

/// The indices that groups hold, as values.
pub open spec fn rows_view(groups: Seq<Group>) -> Seq<Seq<usize>> {
    groups.map_values(|g: Group| g.indices@)
}

/// Every row is non-empty and indexes an interaction.
pub open spec fn rows_wf(n: nat, rows: Seq<Seq<usize>>) -> bool {
    forall|r: int|
        0 <= r < rows.len() ==> (#[trigger] rows[r]).len() > 0 && forall|k: int|
            0 <= k < rows[r].len() ==> #[trigger] rows[r][k] < n
}

/// Every index is below `n`.
pub open spec fn indices_below(n: nat, idx: Seq<usize>) -> bool {
    forall|k: int| 0 <= k < idx.len() ==> #[trigger] idx[k] < n
}

proof fn lemma_filter_none<A>(s: Seq<A>, pred: spec_fn(A) -> bool)
    requires
        forall|k: int| 0 <= k < s.len() ==> !pred(#[trigger] s[k]),
    ensures
        s.filter(pred) == Seq::<A>::empty(),
    decreases s.len(),
{
    reveal(Seq::filter);
    if s.len() > 0 {
        let t = s.drop_last();
        assert forall|k: int| 0 <= k < t.len() implies !pred(#[trigger] t[k]) by {
            assert(t[k] == s[k]);
        }
        lemma_filter_none(t, pred);
        assert(!pred(s[s.len() - 1]));
    }
}

/// The groups of `idx` by signature, first-seen order (see `collapse`).
fn collapse_groups(all: &Vec<Interaction>, idx: &Vec<usize>) -> (r: Vec<Group>)
    requires
        indices_below(all@.len(), idx@),
    ensures
        rows_view(r@) == collapse(views(all@), idx@),
        rows_wf(all@.len(), rows_view(r@)),
{
    let ghost av = views(all@);
    let mut keys: Vec<String> = Vec::new();
    let mut groups: Vec<Group> = Vec::new();
    let mut k: usize = 0;
    while k < idx.len()
        invariant
            av == views(all@),
            k <= idx@.len(),
            indices_below(all@.len(), idx@),
            keys@.map_values(|s: String| s@) == group_keys(av, idx@.take(k as int)),
            groups@.len() == keys@.len(),
            forall|j: int|
                0 <= j < groups@.len() ==> (#[trigger] groups@[j]).indices@ == idx@.take(
                    k as int,
                ).filter(has_sig(av, keys@[j]@)),
            rows_wf(all@.len(), rows_view(groups@)),
        decreases idx@.len() - k,
    {
        let i = idx[k];
        let sig = all[i].group_signature();
        let ghost kv = keys@.map_values(|s: String| s@);
        let ghost pre = idx@.take(k as int);
        let ghost m = pre.map_values(sig_at(av));
        proof {
            lemma_distinct(m);
            assert(idx@.take(k + 1) =~= pre.push(i));
            assert(pre.push(i).map_values(sig_at(av)) =~= m.push(sig@));
            assert(m.push(sig@).drop_last() =~= m);
        }
        let mut found: Option<usize> = None;
        let mut j: usize = 0;
        while j < keys.len()
            invariant
                j <= keys@.len(),
                kv == keys@.map_values(|s: String| s@),
                match found {
                    Some(f) => f < keys@.len() && kv[f as int] == sig@,
                    None => forall|q: int| 0 <= q < j ==> kv[q] != sig@,
                },
            decreases keys@.len() - j,
        {
            if found.is_none() && keys[j] == sig {
                found = Some(j);
            }
            j = j + 1;
        }
        match found {
            Some(f) => {
                let ghost old_groups = groups@;
                let mut g = Group { indices: Vec::new() };
                groups.set_and_swap(f, &mut g);
                g.indices.push(i);
                groups.set_and_swap(f, &mut g);
                proof {
                    assert(kv.contains(sig@));
                    assert(distinct(m.push(sig@)) == kv);
                    assert forall|q: int| 0 <= q < groups@.len() implies (#[trigger] groups@[
                        q
                    ]).indices@ == idx@.take(k + 1).filter(has_sig(av, keys@[q]@)) by {
                        pre.lemma_filter_push(i, has_sig(av, keys@[q]@));
                        if q != f {
                            assert(kv[q] != kv[f as int]);
                            assert(groups@[q] == old_groups[q]);
                        }
                    }
                    assert forall|r: int| 0 <= r < rows_view(groups@).len() implies (
                    #[trigger] rows_view(groups@)[r]).len() > 0 && forall|kk: int|
                        0 <= kk < rows_view(groups@)[r].len() ==> #[trigger] rows_view(
                            groups@,
                        )[r][kk] < all@.len() by {
                        if r != f {
                            assert(groups@[r] == old_groups[r]);
                            assert(rows_view(groups@)[r] == rows_view(old_groups)[r]);
                        } else {
                            assert(rows_view(groups@)[r] == rows_view(old_groups)[r].push(i));
                        }
                    }
                }
            },
            None => {
                let ghost old_groups = groups@;
                let ghost sv = sig@;
                let mut v: Vec<usize> = Vec::new();
                v.push(i);
                keys.push(sig);
                groups.push(Group { indices: v });
                proof {
                    assert(!kv.contains(sv));
                    assert(distinct(m.push(sv)) == kv.push(sv));
                    assert(keys@.map_values(|s: String| s@) =~= kv.push(sv));
                    assert forall|e: int| 0 <= e < pre.len() implies !has_sig(av, sv)(
                        #[trigger] pre[e],
                    ) by {
                        assert(m[e] == sig_at(av)(pre[e]));
                        assert(m.contains(m[e]));
                    }
                    lemma_filter_none(pre, has_sig(av, sv));
                    assert forall|q: int| 0 <= q < groups@.len() implies (#[trigger] groups@[
                        q
                    ]).indices@ == idx@.take(k + 1).filter(has_sig(av, keys@[q]@)) by {
                        pre.lemma_filter_push(i, has_sig(av, keys@[q]@));
                        if q < old_groups.len() {
                            assert(groups@[q] == old_groups[q]);
                            assert(keys@[q]@ == kv[q]);
                        } else {
                            assert(keys@[q]@ == sv);
                            assert(groups@[q].indices@ =~= seq![i]);
                        }
                    }
                    assert forall|r: int| 0 <= r < rows_view(groups@).len() implies (
                    #[trigger] rows_view(groups@)[r]).len() > 0 && forall|kk: int|
                        0 <= kk < rows_view(groups@)[r].len() ==> #[trigger] rows_view(
                            groups@,
                        )[r][kk] < all@.len() by {
                        if r < old_groups.len() {
                            assert(rows_view(groups@)[r] == rows_view(old_groups)[r]);
                        }
                    }
                }
            },
        }
        k = k + 1;
    }
    proof {
        assert(idx@.take(k as int) =~= idx@);
        assert(rows_view(groups@) =~= collapse(av, idx@));
    }
    groups
}


/// The instant of the newest interaction of row `j`.
fn newest_of(groups: &Vec<Group>, j: usize, all: &Vec<Interaction>) -> (r: Instant)
    requires
        rows_wf(all@.len(), rows_view(groups@)),
        j < groups@.len(),
    ensures
        r == newest_time(views(all@))(rows_view(groups@)[j as int]),
{
    let h = &groups[j];
    assert(rows_view(groups@)[j as int] == h.indices@);
    all[h.indices[h.indices.len() - 1]].timestamp
}

/// Places group `g` into the `groups` ordered by newest interaction, after every
/// group whose newest interaction is not later.
fn insert_group_by_time(groups: &mut Vec<Group>, g: Group, all: &Vec<Interaction>)
    requires
        rows_wf(all@.len(), rows_view(old(groups)@)),
        rows_wf(all@.len(), seq![g.indices@]),
    ensures
        rows_view(final(groups)@) == insert_by(
            rows_view(old(groups)@),
            g.indices@,
            newest_time(views(all@)),
        ),
        rows_wf(all@.len(), rows_view(final(groups)@)),
{
    let ghost s = rows_view(groups@);
    let ghost gv = g.indices@;
    let ghost av = views(all@);
    assert(seq![gv][0] == gv);
    let t = all[g.indices[g.indices.len() - 1]].timestamp;
    let mut p = groups.len();
    while p > 0 && !newest_of(&groups, p - 1, all).is_at_or_before(&t)
        invariant
            p <= groups@.len(),
            s == rows_view(groups@),
            av == views(all@),
            t == newest_time(av)(gv),
            rows_wf(all@.len(), s),
            forall|j: int| p <= j < s.len() ==> !(#[trigger] newest_time(av)(s[j])).le(t),
        decreases p,
    {
        p = p - 1;
    }
    proof {
        lemma_insert_by_at(s, gv, newest_time(av), p as int);
    }
    groups.insert(p, g);
    proof {
        assert(rows_view(groups@) =~= s.insert(p as int, gv));
        assert forall|r: int| 0 <= r < rows_view(groups@).len() implies (#[trigger] rows_view(
            groups@,
        )[r]).len() > 0 && forall|kk: int|
            0 <= kk < rows_view(groups@)[r].len() ==> #[trigger] rows_view(groups@)[r][kk]
                < all@.len() by {
            if r < p {
                assert(rows_view(groups@)[r] == s[r]);
            } else if r == p {
                assert(rows_view(groups@)[r] == seq![gv][0]);
            } else {
                assert(rows_view(groups@)[r] == s[r - 1]);
            }
        }
    }
}

/// `groups` ordered by newest interaction, stably.
fn sort_groups_by_time(groups: Vec<Group>, all: &Vec<Interaction>) -> (r: Vec<Group>)
    requires
        rows_wf(all@.len(), rows_view(groups@)),
    ensures
        rows_view(r@) == sort_by(rows_view(groups@), newest_time(views(all@))),
        rows_wf(all@.len(), rows_view(r@)),
{
    let ghost gs = rows_view(groups@);
    let mut rest = groups;
    let mut taken: Vec<Group> = Vec::new();
    let mut out: Vec<Group> = Vec::new();
    // Take groups from the back, then insert them front to back.
    while rest.len() > 0
        invariant
            gs == rows_view(rest@) + rows_view(taken@).reverse(),
            rows_wf(all@.len(), rows_view(rest@)),
            rows_wf(all@.len(), rows_view(taken@)),
        decreases rest@.len(),
    {
        let ghost before_rest = rows_view(rest@);
        let ghost before_taken = rows_view(taken@);
        let g = rest.pop().unwrap();
        taken.push(g);
        proof {
            assert(rows_view(rest@) =~= before_rest.drop_last());
            assert(rows_view(taken@) =~= before_taken.push(before_rest.last()));
            assert(rows_view(taken@).reverse() =~= seq![before_rest.last()] + before_taken.reverse());
            assert(gs =~= rows_view(rest@) + rows_view(taken@).reverse());
            assert forall|r: int| 0 <= r < rows_view(taken@).len() implies (#[trigger] rows_view(
                taken@,
            )[r]).len() > 0 && forall|kk: int|
                0 <= kk < rows_view(taken@)[r].len() ==> #[trigger] rows_view(taken@)[r][kk]
                    < all@.len() by {
                if r < before_taken.len() {
                    assert(rows_view(taken@)[r] == before_taken[r]);
                } else {
                    assert(rows_view(taken@)[r] == before_rest[before_rest.len() - 1]);
                }
            }
            assert forall|r: int| 0 <= r < rows_view(rest@).len() implies (#[trigger] rows_view(
                rest@,
            )[r]).len() > 0 && forall|kk: int|
                0 <= kk < rows_view(rest@)[r].len() ==> #[trigger] rows_view(rest@)[r][kk]
                    < all@.len() by {
                assert(rows_view(rest@)[r] == before_rest[r]);
            }
        }
    }
    assert(rows_view(taken@).reverse() =~= gs);
    let ghost n = gs.len();
    while taken.len() > 0
        invariant
            rows_view(taken@).reverse() == gs.skip(gs.len() - rows_view(taken@).len()),
            rows_view(taken@).len() <= gs.len(),
            rows_view(out@) == sort_by(gs.take(gs.len() - rows_view(taken@).len()), newest_time(views(all@))),
            rows_wf(all@.len(), rows_view(taken@)),
            rows_wf(all@.len(), rows_view(out@)),
        decreases taken@.len(),
    {
        let ghost before_taken = rows_view(taken@);
        let ghost k = gs.len() - before_taken.len();
        let g = taken.pop().unwrap();
        proof {
            assert(rows_view(taken@) =~= before_taken.drop_last());
            assert(before_taken.reverse()[0] == before_taken.last());
            assert(gs.skip(k)[0] == gs[k]);
            assert(g.indices@ == gs[k]);
            assert(before_taken.drop_last().reverse() =~= before_taken.reverse().skip(1));
            assert(gs.skip(k).skip(1) =~= gs.skip(k + 1));
            assert(rows_view(taken@).reverse() =~= gs.skip(k + 1));
            assert(gs.take(k + 1).drop_last() =~= gs.take(k));
            assert(gs.take(k + 1).last() == gs[k]);
            assert(before_taken.last() == before_taken[before_taken.len() - 1]);
            assert(rows_view(seq![g])[0] == g.indices@);
            assert forall|r: int| 0 <= r < rows_view(taken@).len() implies (#[trigger] rows_view(
                taken@,
            )[r]).len() > 0 && forall|kk: int|
                0 <= kk < rows_view(taken@)[r].len() ==> #[trigger] rows_view(taken@)[r][kk]
                    < all@.len() by {
                assert(rows_view(taken@)[r] == before_taken[r]);
            }
        }
        insert_group_by_time(&mut out, g, all);
    }
    assert(gs.take(gs.len() as int) =~= gs);
    out
}

/// `groups` in reverse order.
fn reverse_groups(groups: Vec<Group>, Ghost(n): Ghost<nat>) -> (r: Vec<Group>)
    requires
        rows_wf(n, rows_view(groups@)),
    ensures
        rows_view(r@) == rows_view(groups@).reverse(),
        rows_wf(n, rows_view(r@)),
{
    let ghost gs = rows_view(groups@);
    let mut rest = groups;
    let mut out: Vec<Group> = Vec::new();
    while rest.len() > 0
        invariant
            gs == rows_view(rest@) + rows_view(out@).reverse(),
            rows_wf(n, rows_view(rest@)),
            rows_wf(n, rows_view(out@)),
        decreases rest@.len(),
    {
        let ghost before_rest = rows_view(rest@);
        let ghost before_out = rows_view(out@);
        let g = rest.pop().unwrap();
        out.push(g);
        proof {
            assert(rows_view(rest@) =~= before_rest.drop_last());
            assert(rows_view(out@) =~= before_out.push(before_rest.last()));
            assert(rows_view(out@).reverse() =~= seq![before_rest.last()] + before_out.reverse());
            assert(gs =~= rows_view(rest@) + rows_view(out@).reverse());
            assert forall|r: int| 0 <= r < rows_view(out@).len() implies (#[trigger] rows_view(
                out@,
            )[r]).len() > 0 && forall|kk: int|
                0 <= kk < rows_view(out@)[r].len() ==> #[trigger] rows_view(out@)[r][kk] < n by {
                if r < before_out.len() {
                    assert(rows_view(out@)[r] == before_out[r]);
                } else {
                    assert(rows_view(out@)[r] == before_rest[before_rest.len() - 1]);
                }
            }
            assert forall|r: int| 0 <= r < rows_view(rest@).len() implies (#[trigger] rows_view(
                rest@,
            )[r]).len() > 0 && forall|kk: int|
                0 <= kk < rows_view(rest@)[r].len() ==> #[trigger] rows_view(rest@)[r][kk] < n by {
                assert(rows_view(rest@)[r] == before_rest[r]);
            }
        }
    }
    assert(rows_view(out@).reverse().reverse() =~= rows_view(out@));
    assert(gs.reverse() =~= rows_view(out@));
    out
}

/// One single-interaction group per index.
fn singleton_groups(idx: &Vec<usize>, Ghost(n): Ghost<nat>) -> (r: Vec<Group>)
    requires
        indices_below(n, idx@),
    ensures
        rows_view(r@) == singletons(idx@),
        rows_wf(n, rows_view(r@)),
{
    let mut out: Vec<Group> = Vec::new();
    let mut k: usize = 0;
    while k < idx.len()
        invariant
            k <= idx@.len(),
            indices_below(n, idx@),
            rows_view(out@) == singletons(idx@.take(k as int)),
            rows_wf(n, rows_view(out@)),
        decreases idx@.len() - k,
    {
        let ghost before = rows_view(out@);
        let mut v: Vec<usize> = Vec::new();
        v.push(idx[k]);
        out.push(Group { indices: v });
        proof {
            assert(rows_view(out@) =~= before.push(seq![idx@[k as int]]));
            assert(singletons(idx@.take(k + 1)) =~= singletons(idx@.take(k as int)).push(
                seq![idx@[k as int]],
            ));
            assert forall|r: int| 0 <= r < rows_view(out@).len() implies (#[trigger] rows_view(
                out@,
            )[r]).len() > 0 && forall|kk: int|
                0 <= kk < rows_view(out@)[r].len() ==> #[trigger] rows_view(out@)[r][kk] < n by {
                if r < before.len() {
                    assert(rows_view(out@)[r] == before[r]);
                } else {
                    assert(rows_view(out@)[r] =~= seq![idx@[k as int]]);
                }
            }
        }
        k = k + 1;
    }
    assert(idx@.take(k as int) =~= idx@);
    out
}


/// Whether the protocol filter and the lower-cased query let an interaction through.
pub open spec fn shown(proto: ProtoFilter, needle: Seq<char>) -> spec_fn(InteractionView) -> bool {
    |it: InteractionView| proto_accepts(proto, it.protocol) && matches_query(it, needle)
}

/// The indices below `n` of the interactions that `pred` lets through, ascending.
pub open spec fn indices_where(
    all: Seq<InteractionView>,
    pred: spec_fn(InteractionView) -> bool,
    n: nat,
) -> Seq<usize>
    decreases n,
{
    if n == 0 {
        seq![]
    } else {
        let prev = indices_where(all, pred, (n - 1) as nat);
        if pred(all[n - 1]) {
            prev.push((n - 1) as usize)
        } else {
            prev
        }
    }
}

/// The indices of the interactions that the filter and query show, ascending.
pub open spec fn filtered_of(all: Seq<InteractionView>, proto: ProtoFilter, needle: Seq<char>) -> Seq<
    usize,
> {
    indices_where(all, shown(proto, needle), all.len())
}

/// The row that stays selected when the number of rows becomes `len`.
pub open spec fn clamp_selection(selected: usize, len: nat) -> usize {
    if selected >= len {
        if len == 0 {
            0
        } else {
            (len - 1) as usize
        }
    } else {
        selected
    }
}

/// The row reached by moving `delta` rows from `selected` among `len > 0` rows,
/// stopping at the first and the last.
pub open spec fn moved(selected: usize, delta: i64, len: nat) -> usize {
    (if selected + delta < 0 {
        0
    } else if selected + delta > len - 1 {
        len - 1
    } else {
        selected + delta
    }) as usize
}

/// The detail offset after scrolling `delta` lines from `d`: not above the top,
/// modulo 2^16.
pub open spec fn scrolled(d: u16, delta: i32) -> u16 {
    (if d + delta < 0 {
        0
    } else {
        (d + delta) % 65536
    }) as u16
}

/// The other screen.
pub open spec fn other_view(v: View) -> View {
    match v {
        View::List => View::Timeline,
        View::Timeline => View::List,
    }
}

/// What an `App` holds, as values.
pub struct AppView {
    pub source: Seq<char>,
    pub editor: Option<Seq<char>>,
    pub refresh_secs: u64,
    pub all: Seq<InteractionView>,
    pub filtered: Seq<usize>,
    pub groups: Seq<Seq<usize>>,
    pub selected: usize,
    pub query: Seq<char>,
    pub query_before_edit: Seq<char>,
    pub proto: ProtoFilter,
    pub grouping: bool,
    pub view: View,
    pub mode: Mode,
    pub detail_scroll: u16,
    pub show_help: bool,
    pub status: Seq<char>,
    pub should_quit: bool,
}

impl AppView {
    /// The filtered indices and the rows are those that the interactions, the
    /// filter, the query and the grouping give; indices point into `all`, rows
    /// are non-empty, and the selection is a row (or 0 when there are none).
    pub open spec fn wf(self) -> bool {
        &&& self.filtered == filtered_of(self.all, self.proto, lowercase(self.query))
        &&& self.groups == rows_of(self.all, self.filtered, self.grouping)
        &&& indices_below(self.all.len(), self.filtered)
        &&& rows_wf(self.all.len(), self.groups)
        &&& (self.selected < self.groups.len() || self.selected == 0)
    }

    /// `self` with row `sel` selected and the detail pane at the top.
    pub open spec fn at_row(self, sel: usize) -> AppView {
        AppView { selected: sel, detail_scroll: 0, ..self }
    }

    /// `self` with these interactions.
    pub open spec fn with_all(self, all: Seq<InteractionView>) -> AppView {
        AppView { all, ..self }
    }

    /// `self` with this protocol filter.
    pub open spec fn with_proto(self, proto: ProtoFilter) -> AppView {
        AppView { proto, ..self }
    }

    /// `self` with grouping on or off.
    pub open spec fn with_grouping(self, grouping: bool) -> AppView {
        AppView { grouping, ..self }
    }

    /// `self` showing this screen.
    pub open spec fn with_view(self, view: View) -> AppView {
        AppView { view, ..self }
    }

    /// `self` with the detail pane scrolled to this offset.
    pub open spec fn with_scroll(self, detail_scroll: u16) -> AppView {
        AppView { detail_scroll, ..self }
    }

    /// `self` with filtered indices and rows rebuilt from `all` under the current
    /// filter, query and grouping, the selection clamped to the rows, and the
    /// detail pane scrolled to the top.
    pub open spec fn recomputed(self) -> AppView {
        let filtered = filtered_of(self.all, self.proto, lowercase(self.query));
        let groups = rows_of(self.all, filtered, self.grouping);
        AppView {
            filtered,
            groups,
            selected: clamp_selection(self.selected, groups.len()),
            detail_scroll: 0,
            ..self
        }
    }
}

/// The interaction that the selected row stands for (its newest one), by
/// instant and correlation id, when a row is selected.
pub open spec fn selection_key(v: AppView) -> Option<(Instant, Seq<char>)> {
    if v.selected < v.groups.len() {
        let rep = v.all[v.groups[v.selected as int].last() as int];
        Some((rep.timestamp, rep.full_id))
    } else {
        None
    }
}

/// A selection key, as values.
pub open spec fn key_view(key: Option<(Instant, String)>) -> Option<(Instant, Seq<char>)> {
    match key {
        Some((ts, fid)) => Some((ts, fid@)),
        None => None,
    }
}

/// Whether a row holds an interaction with this instant and correlation id.
pub open spec fn row_holds(
    all: Seq<InteractionView>,
    row: Seq<usize>,
    ts: Instant,
    fid: Seq<char>,
) -> bool {
    exists|k: int| 0 <= k < row.len() && all[row[k] as int].timestamp == ts && #[trigger] all[row[k] as int].full_id == fid
}

/// The first row that holds an interaction with this instant and correlation id.
pub open spec fn first_row_holding(v: AppView, ts: Instant, fid: Seq<char>) -> int {
    choose|g: int|
        0 <= g < v.groups.len() && row_holds(v.all, v.groups[g], ts, fid) && forall|h: int|
            0 <= h < g ==> !row_holds(v.all, #[trigger] v.groups[h], ts, fid)
}

/// Whether some row holds an interaction with this instant and correlation id.
pub open spec fn some_row_holds(v: AppView, ts: Instant, fid: Seq<char>) -> bool {
    exists|g: int| 0 <= g < v.groups.len() && row_holds(v.all, #[trigger] v.groups[g], ts, fid)
}

/// `v` after a refresh has rebuilt its rows: back at the top when the selection
/// was there (or there are no rows); otherwise on the first row that holds the
/// interaction selected before, or at the top when none does.
pub open spec fn restored(v: AppView, was_top: bool, key: Option<(Instant, Seq<char>)>) -> AppView {
    let sel: usize = if was_top || v.groups.len() == 0 {
        0
    } else {
        match key {
            Some((ts, fid)) => if some_row_holds(v, ts, fid) {
                first_row_holding(v, ts, fid) as usize
            } else {
                0
            },
            None => 0,
        }
    };
    AppView { selected: sel, detail_scroll: 0, ..v }
}

/// The first row holding an interaction is the row at which a search from the
/// top stops.
proof fn lemma_first_row(v: AppView, ts: Instant, fid: Seq<char>, g: int)
    requires
        0 <= g < v.groups.len(),
        row_holds(v.all, v.groups[g], ts, fid),
        forall|h: int| 0 <= h < g ==> !row_holds(v.all, #[trigger] v.groups[h], ts, fid),
    ensures
        some_row_holds(v, ts, fid),
        first_row_holding(v, ts, fid) == g,
{
    let f = first_row_holding(v, ts, fid);
    assert(0 <= g < v.groups.len() && row_holds(v.all, v.groups[g], ts, fid));
    if f < g {
        assert(!row_holds(v.all, v.groups[f], ts, fid));
    }
    if f > g {
        assert(!row_holds(v.all, v.groups[g], ts, fid));
    }
}

/// When some row holds an interaction, a first such row exists.
pub proof fn lemma_first_row_exists(v: AppView, ts: Instant, fid: Seq<char>, g: int)
    requires
        0 <= g < v.groups.len(),
        row_holds(v.all, v.groups[g], ts, fid),
    ensures
        0 <= first_row_holding(v, ts, fid) < v.groups.len(),
        row_holds(v.all, v.groups[first_row_holding(v, ts, fid)], ts, fid),
        forall|h: int|
            0 <= h < first_row_holding(v, ts, fid) ==> !row_holds(
                v.all,
                #[trigger] v.groups[h],
                ts,
                fid,
            ),
    decreases g,
{
    if exists|h: int| 0 <= h < g && row_holds(v.all, #[trigger] v.groups[h], ts, fid) {
        let h = choose|h: int| 0 <= h < g && row_holds(v.all, #[trigger] v.groups[h], ts, fid);
        lemma_first_row_exists(v, ts, fid, h);
    } else {
        lemma_first_row(v, ts, fid, g);
    }
}

/// A refresh follows the selected interaction wherever it sits in a row: when
/// the selection was not at the top and row `g` is the first row holding, at
/// any of its positions, an interaction with the old selection's instant and
/// correlation id, the selection lands on row `g`.
pub proof fn lemma_reload_finds_any_occurrence(v: AppView, ts: Instant, fid: Seq<char>, g: int, k: int)
    requires
        v.groups.len() <= usize::MAX,
        0 <= g < v.groups.len(),
        0 <= k < v.groups[g].len(),
        v.all[v.groups[g][k] as int].timestamp == ts,
        v.all[v.groups[g][k] as int].full_id == fid,
        forall|h: int, m: int|
            0 <= h < g && 0 <= m < v.groups[h].len() ==> !(v.all[v.groups[h][m] as int].timestamp == ts
                && #[trigger] v.all[v.groups[h][m] as int].full_id == fid),
    ensures
        restored(v, false, Some((ts, fid))).selected == g,
{
    assert(row_holds(v.all, v.groups[g], ts, fid));
    assert forall|h: int| 0 <= h < g implies !row_holds(v.all, #[trigger] v.groups[h], ts, fid) by {
        if row_holds(v.all, v.groups[h], ts, fid) {
            let m = choose|m: int|
                0 <= m < v.groups[h].len() && v.all[v.groups[h][m] as int].timestamp == ts
                    && #[trigger] v.all[v.groups[h][m] as int].full_id == fid;
            assert(!(v.all[v.groups[h][m] as int].timestamp == ts && v.all[v.groups[h][m] as int].full_id == fid));
        }
    }
    lemma_first_row(v, ts, fid, g);
}

/// A refresh keeps the user's place: a selection at the top stays at the top;
/// otherwise, when some new row holds the interaction selected before, the
/// selection is on the first such row.
pub proof fn lemma_restored_follows(v: AppView, was_top: bool, ts: Instant, fid: Seq<char>)
    requires
        v.groups.len() <= usize::MAX,
    ensures
        was_top ==> restored(v, was_top, Some((ts, fid))).selected == 0,
        !was_top && some_row_holds(v, ts, fid) ==> {
            let s = restored(v, was_top, Some((ts, fid))).selected;
            &&& s < v.groups.len()
            &&& row_holds(v.all, v.groups[s as int], ts, fid)
            &&& forall|h: int| 0 <= h < s ==> !row_holds(v.all, #[trigger] v.groups[h], ts, fid)
        },
{
    if !was_top && some_row_holds(v, ts, fid) {
        let g = choose|g: int| 0 <= g < v.groups.len() && row_holds(v.all, #[trigger] v.groups[g], ts, fid);
        lemma_first_row_exists(v, ts, fid, g);
        assert(v.groups.len() > 0);
    }
}

pub struct App {
    /// Short label for the data source (ssh host or local file name).
    pub source: String,
    /// Configured editor override; `None` falls back to $EDITOR then `nvim`.
    pub editor: Option<String>,
    /// Auto-refresh interval in seconds (0 = disabled). Driven by the run loop.
    pub refresh_secs: u64,
    pub all: Vec<Interaction>,
    /// Flat filtered indices (time-sorted), used by the timeline.
    pub filtered: Vec<usize>,
    /// Navigable rows built from `filtered`, honoring the grouping toggle.
    pub groups: Vec<Group>,
    /// Index into `groups`.
    pub selected: usize,
    pub query: String,
    /// The query as it was when editing began; `Esc` puts it back.
    pub query_before_edit: String,
    pub proto: ProtoFilter,
    pub grouping: bool,
    pub view: View,
    pub mode: Mode,
    pub detail_scroll: u16,
    pub show_help: bool,
    pub status: String,
    pub should_quit: bool,
}

impl vstd::view::View for App {
    type V = AppView;

    open spec fn view(&self) -> AppView {
        AppView {
            source: self.source@,
            editor: crate::model::opt_view(self.editor),
            refresh_secs: self.refresh_secs,
            all: views(self.all@),
            filtered: self.filtered@,
            groups: rows_view(self.groups@),
            selected: self.selected,
            query: self.query@,
            query_before_edit: self.query_before_edit@,
            proto: self.proto,
            grouping: self.grouping,
            view: self.view,
            mode: self.mode,
            detail_scroll: self.detail_scroll,
            show_help: self.show_help,
            status: self.status@,
            should_quit: self.should_quit,
        }
    }
}

impl App {
    /// An app over the given interactions, showing all of them ungrouped, newest
    /// first, with the newest selected.
    pub fn new(source: String, editor: Option<String>, refresh_secs: u64, all: Vec<Interaction>) -> (r: Self)
        ensures
            r@ == (AppView {
                source: source@,
                editor: crate::model::opt_view(editor),
                refresh_secs,
                all: views(all@),
                filtered: Seq::empty(),
                groups: Seq::empty(),
                selected: 0,
                query: Seq::empty(),
                query_before_edit: Seq::empty(),
                proto: ProtoFilter::All,
                grouping: false,
                view: View::List,
                mode: Mode::Normal,
                detail_scroll: 0,
                show_help: false,
                status: Seq::empty(),
                should_quit: false,
            }).recomputed(),
            r@.selected == 0,
            r@.wf(),
    {
        let mut app = App {
            source,
            editor,
            refresh_secs,
            all,
            filtered: Vec::new(),
            groups: Vec::new(),
            selected: 0,
            query: String::new(),
            query_before_edit: String::new(),
            proto: ProtoFilter::All,
            grouping: false,
            view: View::List,
            mode: Mode::Normal,
            detail_scroll: 0,
            show_help: false,
            status: String::new(),
            should_quit: false,
        };
        app.recompute();
        app.select_first();
        app
    }

    /// Replaces all interactions with those parsed from `data`, keeping the
    /// user's place: pinned to the top if the selection was there, otherwise on
    /// whichever row now holds the interaction selected before. Returns the new
    /// number of interactions.
    pub fn reload(&mut self, data: &str) -> (n: usize)
        requires
            old(self)@.wf(),
        ensures
            final(self)@ == restored(
                old(self)@.with_all(timeline(data@)).recomputed(),
                old(self)@.selected == 0,
                selection_key(old(self)@),
            ),
            final(self)@.wf(),
            n == final(self)@.all.len(),
    {
        let was_top = self.selected == 0;
        let key = match self.selected_interaction() {
            Some(it) => Some((it.timestamp, it.full_id.clone())),
            None => None,
        };
        self.all = parse_all(data);
        self.recompute();
        self.restore_selection(was_top, key);
        self.all.len()
    }

    fn restore_selection(&mut self, was_top: bool, key: Option<(Instant, String)>)
        requires
            old(self)@.wf(),
        ensures
            final(self)@ == restored(old(self)@, was_top, key_view(key)),
            final(self)@.wf(),
    {
        let ghost kview = key_view(key);
        if was_top || self.groups.len() == 0 {
            self.select_first();
            return;
        }
        match key {
            Some((ts, fid)) => {
                let ghost v = self@;
                let fid_chars = chars_of(fid.as_str());
                let mut g: usize = 0;
                while g < self.groups.len()
                    invariant
                        v == self@,
                        v == old(self)@,
                        v.wf(),
                        !was_top,
                        kview == Some((ts, fid@)),
                        kview == key_view(key),
                        fid_chars@ == fid@,
                        g <= v.groups.len(),
                        forall|h: int| 0 <= h < g ==> !row_holds(v.all, #[trigger] v.groups[h], ts, fid@),
                    decreases v.groups.len() - g,
                {
                    let row = &self.groups[g];
                    assert(v.groups[g as int] == row.indices@);
                    let mut k: usize = 0;
                    let mut hit = false;
                    while k < row.indices.len()
                        invariant
                            v == self@,
                            v.wf(),
                            g < v.groups.len(),
                            v.groups[g as int] == row.indices@,
                            fid_chars@ == fid@,
                            k <= row.indices@.len(),
                            hit ==> row_holds(v.all, v.groups[g as int], ts, fid@),
                            !hit ==> forall|m: int| 0 <= m < k ==> !(v.all[row.indices@[m] as int].timestamp == ts && #[trigger] v.all[row.indices@[m] as int].full_id == fid@),
                        decreases row.indices@.len() - k,
                    {
                        let i = row.indices[k];
                        assert(v.groups[g as int][k as int] == i);
                        assert(i < v.all.len());
                        let it = &self.all[i];
                        assert(v.all[i as int] == it@);
                        if !hit && it.timestamp.same_as(&ts) && chars_eq(&chars_of(it.full_id.as_str()), &fid_chars) {
                            hit = true;
                            assert(v.all[row.indices@[k as int] as int].full_id == fid@);
                        }
                        k = k + 1;
                    }
                    if hit {
                        proof {
                            lemma_first_row(v, ts, fid@, g as int);
                        }
                        self.selected = g;
                        self.detail_scroll = 0;
                        return;
                    }
                    g = g + 1;
                }
                self.select_first();
            },
            None => {
                self.select_first();
            },
        }
    }

    /// The selected row, when there is one.
    pub fn selected_group(&self) -> (r: Option<&Group>)
        ensures
            match r {
                Some(g) => self@.selected < self@.groups.len() && g.indices@ == self@.groups[self@.selected as int],
                None => self@.selected >= self@.groups.len(),
            },
    {
        if self.selected < self.groups.len() {
            Some(&self.groups[self.selected])
        } else {
            None
        }
    }

    /// The newest interaction of the selected row, when there is one.
    pub fn selected_interaction(&self) -> (r: Option<&Interaction>)
        requires
            self@.wf(),
        ensures
            match r {
                Some(it) => self@.selected < self@.groups.len() && it@ == self@.all[self@.groups[self@.selected as int].last() as int],
                None => self@.selected >= self@.groups.len(),
            },
    {
        match self.selected_group() {
            Some(g) => {
                assert(self@.groups[self@.selected as int].len() > 0);
                assert(g.indices@.last() == self@.groups[self@.selected as int][g.indices@.len() - 1]);
                Some(g.rep(self.all.as_slice()))
            },
            None => None,
        }
    }

    /// The filtered interactions, time-ascending.
    pub fn filtered_items(&self) -> (r: Vec<&Interaction>)
        requires
            self@.wf(),
        ensures
            r@.len() == self@.filtered.len(),
            forall|k: int| 0 <= k < r@.len() ==> r@[k]@ == self@.all[self@.filtered[k] as int],
    {
        let mut out: Vec<&Interaction> = Vec::new();
        let mut k: usize = 0;
        while k < self.filtered.len()
            invariant
                self@.wf(),
                k <= self@.filtered.len(),
                out@.len() == k,
                forall|m: int| 0 <= m < k ==> out@[m]@ == self@.all[self@.filtered[m] as int],
            decreases self@.filtered.len() - k,
        {
            let i = self.filtered[k];
            assert(i < self@.all.len());
            out.push(&self.all[i]);
            k = k + 1;
        }
        out
    }

    /// Moves the selection by `delta` rows, stopping at the first and last row.
    pub fn move_selection(&mut self, delta: i64)
        requires
            old(self)@.wf(),
            old(self)@.groups.len() <= i64::MAX,
            i64::MIN <= old(self)@.selected + delta <= i64::MAX,
        ensures
            old(self)@.groups.len() == 0 ==> final(self)@ == old(self)@,
            old(self)@.groups.len() > 0 ==> final(self)@ == old(self)@.at_row(
                moved(old(self)@.selected, delta, old(self)@.groups.len()),
            ),
            final(self)@.wf(),
    {
        if self.groups.len() == 0 {
            return;
        }
        let len = self.groups.len() as i64;
        let s = self.selected as i64 + delta;
        let c = if s < 0 {
            0
        } else if s > len - 1 {
            len - 1
        } else {
            s
        };
        self.selected = c as usize;
        self.detail_scroll = 0;
    }

    /// Selects the top (newest) row.
    pub fn select_first(&mut self)
        ensures
            final(self)@ == old(self)@.at_row(0),
            old(self)@.wf() ==> final(self)@.wf(),
    {
        self.selected = 0;
        self.detail_scroll = 0;
    }

    /// Selects the bottom (oldest) row.
    pub fn select_last(&mut self)
        ensures
            final(self)@ == old(self)@.at_row(clamp_selection(usize::MAX, old(self)@.groups.len())),
            old(self)@.wf() ==> final(self)@.wf(),
    {
        self.selected = if self.groups.len() == 0 {
            0
        } else {
            self.groups.len() - 1
        };
        self.detail_scroll = 0;
    }

    /// Scrolls the detail pane by `delta` lines, not above the top; the offset is
    /// kept as a `u16`, taken modulo 2^16.
    pub fn scroll_detail(&mut self, delta: i32)
        requires
            old(self)@.detail_scroll + delta <= i32::MAX,
        ensures
            final(self)@ == old(self)@.with_scroll(scrolled(old(self)@.detail_scroll, delta)),
    {
        let v = self.detail_scroll as i32 + delta;
        let m = if v < 0 {
            0
        } else {
            v
        };
        self.detail_scroll = (m % 65536) as u16;
    }

    /// Moves to the next protocol filter and rebuilds the rows.
    pub fn cycle_proto(&mut self)
        ensures
            final(self)@ == old(self)@.with_proto(proto_next(old(self)@.proto)).recomputed(),
            final(self)@.wf(),
    {
        self.proto = self.proto.next();
        self.recompute();
    }

    /// Switches between the list and the timeline.
    pub fn toggle_view(&mut self)
        ensures
            final(self)@ == old(self)@.with_view(other_view(old(self)@.view)),
    {
        self.view = match self.view {
            View::List => View::Timeline,
            View::Timeline => View::List,
        };
    }

    /// Turns smart grouping on or off, rebuilds the rows and selects the newest.
    pub fn toggle_grouping(&mut self)
        ensures
            final(self)@ == old(self)@.with_grouping(!old(self)@.grouping).recomputed().at_row(0),
            final(self)@.wf(),
    {
        self.grouping = !self.grouping;
        self.recompute();
        self.select_first();
    }

    /// Rebuilds `filtered` and `groups` from `all` using the filter and grouping
    /// state; `groups` is ordered newest-first.
    pub fn recompute(&mut self)
        ensures
            final(self)@ == old(self)@.recomputed(),
            final(self)@.wf(),
    {
        let needle = to_lowercase(self.query.as_str());
        let ghost av = views(self.all@);
        let ghost pred = shown(self.proto, needle@);
        let mut filtered: Vec<usize> = Vec::new();
        let mut i: usize = 0;
        while i < self.all.len()
            invariant
                av == views(self.all@),
                pred == shown(self.proto, needle@),
                i <= self.all@.len(),
                filtered@ == indices_where(av, pred, i as nat),
                indices_below(self.all@.len(), filtered@),
            decreases self.all@.len() - i,
        {
            let it = &self.all[i];
            let ghost before = filtered@;
            if self.proto.accepts(it.protocol.as_str()) && it.matches(needle.as_str()) {
                filtered.push(i);
            }
            proof {
                assert(av[i as int] == it@);
                assert forall|k: int| 0 <= k < filtered@.len() implies #[trigger] filtered@[k]
                    < self.all@.len() by {
                    if k < before.len() {
                        assert(filtered@[k] == before[k]);
                    }
                }
            }
            i = i + 1;
        }
        self.filtered = filtered;
        let rows = if self.grouping {
            let c = collapse_groups(&self.all, &self.filtered);
            sort_groups_by_time(c, &self.all)
        } else {
            singleton_groups(&self.filtered, Ghost(self.all@.len()))
        };
        self.groups = reverse_groups(rows, Ghost(self.all@.len()));
        if self.selected >= self.groups.len() {
            self.selected = if self.groups.len() == 0 {
                0
            } else {
                self.groups.len() - 1
            };
        }
        self.detail_scroll = 0;
    }
}


proof fn lemma_filter_members<A>(s: Seq<A>, pred: spec_fn(A) -> bool)
    ensures
        forall|k: int| 0 <= k < s.filter(pred).len() ==> s.contains(#[trigger] s.filter(pred)[k]) && pred(s.filter(pred)[k]),
        forall|k: int| 0 <= k < s.len() && pred(s[k]) ==> #[trigger] s.filter(pred).contains(s[k]),
    decreases s.len(),
{
    reveal(Seq::filter);
    if s.len() > 0 {
        let d = s.drop_last();
        lemma_filter_members(d, pred);
        d.lemma_filter_push(s.last(), pred);
        assert(d.push(s.last()) =~= s);
        let f = s.filter(pred);
        let fd = d.filter(pred);
        assert forall|k: int| 0 <= k < f.len() implies s.contains(#[trigger] f[k]) && pred(f[k]) by {
            if k < fd.len() {
                assert(f[k] == fd[k]);
                let j = choose|j: int| 0 <= j < d.len() && d[j] == fd[k];
                assert(s[j] == d[j]);
            } else {
                assert(f[k] == s.last());
                assert(s[s.len() - 1] == s.last());
            }
        }
        assert forall|k: int| 0 <= k < s.len() && pred(s[k]) implies #[trigger] f.contains(s[k]) by {
            if k < d.len() {
                assert(d[k] == s[k]);
                assert(fd.contains(d[k]));
                let j = choose|j: int| 0 <= j < fd.len() && fd[j] == d[k];
                assert(f[j] == fd[j]);
            } else {
                assert(f[f.len() - 1] == s.last());
            }
        }
    }
}

/// The signature of a row's first interaction.
pub open spec fn row_sig(all: Seq<InteractionView>) -> spec_fn(Seq<usize>) -> Seq<char> {
    |g: Seq<usize>| group_signature(all[g[0] as int])
}

/// What grouping promises of a set of rows over the indices `idx`: every row is
/// non-empty and holds only indices of `idx` that share its signature, different
/// rows have different signatures, and every index of `idx` is in some row.
pub open spec fn collapses_identical(all: Seq<InteractionView>, idx: Seq<usize>, rows: Seq<Seq<usize>>) -> bool {
    &&& forall|r: int| 0 <= r < rows.len() ==> (#[trigger] rows[r]).len() > 0
    &&& forall|r: int, k: int|
        0 <= r < rows.len() && 0 <= k < rows[r].len() ==> idx.contains(#[trigger] rows[r][k])
            && group_signature(all[rows[r][k] as int]) == group_signature(all[rows[r][0] as int])
    &&& distinct_under(rows, row_sig(all))
    &&& forall|k: int| 0 <= k < idx.len() ==> in_some_row(rows, #[trigger] idx[k])
}

/// Whether some row holds index `e`.
pub open spec fn in_some_row(rows: Seq<Seq<usize>>, e: usize) -> bool {
    exists|r: int| 0 <= r < rows.len() && #[trigger] rows[r].contains(e)
}

proof fn lemma_collapse_collapses(all: Seq<InteractionView>, idx: Seq<usize>)
    ensures
        collapses_identical(all, idx, collapse(all, idx)),
{
    let m = idx.map_values(sig_at(all));
    let keys = group_keys(all, idx);
    let c = collapse(all, idx);
    lemma_distinct(m);
    assert forall|r: int| 0 <= r < c.len() implies (#[trigger] c[r]).len() > 0 && forall|k: int|
        0 <= k < c[r].len() ==> idx.contains(#[trigger] c[r][k]) && group_signature(all[c[r][k] as int])
            == keys[r] by {
        let p = has_sig(all, keys[r]);
        lemma_filter_members(idx, p);
        assert(keys.contains(keys[r]));
        assert(m.contains(keys[r]));
        let e = choose|e: int| 0 <= e < m.len() && m[e] == keys[r];
        assert(p(idx[e]));
        assert(c[r] == idx.filter(p));
        assert(idx.filter(p).contains(idx[e]));
        assert forall|k: int| 0 <= k < c[r].len() implies idx.contains(#[trigger] c[r][k]) && group_signature(
            all[c[r][k] as int],
        ) == keys[r] by {
            assert(p(idx.filter(p)[k]));
        }
    }
    assert forall|r: int, k: int|
        0 <= r < c.len() && 0 <= k < c[r].len() implies idx.contains(#[trigger] c[r][k])
            && group_signature(all[c[r][k] as int]) == group_signature(all[c[r][0] as int]) by {
        assert(c[r].len() > 0);
    }
    assert(distinct_under(c, row_sig(all))) by {
        assert forall|i: int, j: int| 0 <= i < c.len() && 0 <= j < c.len() && i != j implies row_sig(all)(#[trigger] c[i]) != row_sig(all)(#[trigger] c[j]) by {
            assert(c[i].len() > 0 && c[j].len() > 0);
            assert(row_sig(all)(c[i]) == keys[i]);
            assert(row_sig(all)(c[j]) == keys[j]);
        }
    }
    assert forall|k: int| 0 <= k < idx.len() implies in_some_row(c, #[trigger] idx[k]) by {
        assert(m[k] == group_signature(all[idx[k] as int]));
        assert(m.contains(m[k]));
        assert(keys.contains(m[k]));
        let r = choose|r: int| 0 <= r < keys.len() && keys[r] == m[k];
        let p = has_sig(all, keys[r]);
        lemma_filter_members(idx, p);
        assert(p(idx[k]));
        assert(c[r] == idx.filter(p));
        assert(idx.filter(p).contains(idx[k]));
        assert(0 <= r < c.len() && c[r].contains(idx[k]));
    }
}

/// Reordering rows keeps what grouping promises.
proof fn lemma_collapses_reordered(
    all: Seq<InteractionView>,
    idx: Seq<usize>,
    rows: Seq<Seq<usize>>,
    other: Seq<Seq<usize>>,
)
    requires
        collapses_identical(all, idx, rows),
        distinct_under(other, row_sig(all)),
        forall|g: Seq<usize>| #[trigger] other.contains(g) <==> rows.contains(g),
    ensures
        collapses_identical(all, idx, other),
{
    assert forall|r: int| 0 <= r < other.len() implies (#[trigger] other[r]).len() > 0 && forall|k: int|
        0 <= k < other[r].len() ==> idx.contains(#[trigger] other[r][k]) && group_signature(
            all[other[r][k] as int],
        ) == group_signature(all[other[r][0] as int]) by {
        assert(other.contains(other[r]));
        let q = choose|q: int| 0 <= q < rows.len() && rows[q] == other[r];
        assert(rows[q].len() > 0);
        assert forall|k: int| 0 <= k < other[r].len() implies idx.contains(#[trigger] other[r][k])
            && group_signature(all[other[r][k] as int]) == group_signature(all[other[r][0] as int]) by {
            assert(rows[q][k] == other[r][k]);
        }
    }
    assert forall|r: int, k: int|
        0 <= r < other.len() && 0 <= k < other[r].len() implies idx.contains(#[trigger] other[r][k])
            && group_signature(all[other[r][k] as int]) == group_signature(all[other[r][0] as int]) by {
        assert(other[r].len() > 0);
    }
    assert forall|k: int| 0 <= k < idx.len() implies in_some_row(other, #[trigger] idx[k]) by {
        assert(in_some_row(rows, idx[k]));
        let r = choose|r: int| 0 <= r < rows.len() && #[trigger] rows[r].contains(idx[k]);
        assert(rows.contains(rows[r]));
        assert(other.contains(rows[r]));
        let q = choose|q: int| 0 <= q < other.len() && other[q] == rows[r];
        assert(0 <= q < other.len() && other[q].contains(idx[k]));
    }
}

/// Smart grouping collapses exactly the interactions that share a signature:
/// with grouping on, the rows over the filtered indices are non-empty, each holds
/// only filtered indices with one signature, no two rows share a signature, and
/// every filtered index is in some row.
pub proof fn lemma_grouping_collapses_identical(all: Seq<InteractionView>, idx: Seq<usize>)
    ensures
        collapses_identical(all, idx, rows_of(all, idx, true)),
{
    let c = collapse(all, idx);
    lemma_collapse_collapses(all, idx);
    let g = sort_by(c, newest_time(all));
    lemma_sort_by_members(c, newest_time(all));
    lemma_sort_by_distinct_under(c, newest_time(all), row_sig(all));
    lemma_collapses_reordered(all, idx, c, g);
    let r = g.reverse();
    assert(distinct_under(r, row_sig(all))) by {
        assert forall|i: int, j: int| 0 <= i < r.len() && 0 <= j < r.len() && i != j implies row_sig(all)(#[trigger] r[i]) != row_sig(all)(#[trigger] r[j]) by {
            assert(r[i] == g[g.len() - 1 - i] && r[j] == g[g.len() - 1 - j]);
        }
    }
    assert forall|x: Seq<usize>| #[trigger] r.contains(x) <==> g.contains(x) by {
        if r.contains(x) {
            let k = choose|k: int| 0 <= k < r.len() && r[k] == x;
            assert(g[g.len() - 1 - k] == x);
        }
        if g.contains(x) {
            let k = choose|k: int| 0 <= k < g.len() && g[k] == x;
            assert(r[g.len() - 1 - k] == x);
        }
    }
    lemma_collapses_reordered(all, idx, g, r);
}


/// Whether the indices strictly increase.
pub open spec fn increasing(s: Seq<usize>) -> bool {
    forall|i: int, j: int| 0 <= i < j < s.len() ==> #[trigger] s[i] < #[trigger] s[j]
}

proof fn lemma_indices_where_increasing(
    all: Seq<InteractionView>,
    pred: spec_fn(InteractionView) -> bool,
    n: nat,
)
    requires
        n <= usize::MAX + 1,
    ensures
        increasing(indices_where(all, pred, n)),
        forall|k: int| 0 <= k < indices_where(all, pred, n).len() ==> #[trigger] indices_where(all, pred, n)[k] < n,
    decreases n,
{
    if n > 0 {
        lemma_indices_where_increasing(all, pred, (n - 1) as nat);
    }
}

proof fn lemma_filter_increasing(s: Seq<usize>, pred: spec_fn(usize) -> bool)
    requires
        increasing(s),
    ensures
        increasing(s.filter(pred)),
    decreases s.len(),
{
    reveal(Seq::filter);
    if s.len() > 0 {
        let d = s.drop_last();
        assert(increasing(d)) by {
            assert forall|i: int, j: int| 0 <= i < j < d.len() implies #[trigger] d[i] < #[trigger] d[j] by {
                assert(d[i] == s[i] && d[j] == s[j]);
            }
        }
        lemma_filter_increasing(d, pred);
        lemma_filter_members(d, pred);
        d.lemma_filter_push(s.last(), pred);
        assert(d.push(s.last()) =~= s);
        let fd = d.filter(pred);
        if pred(s.last()) {
            let f = fd.push(s.last());
            assert forall|i: int, j: int| 0 <= i < j < f.len() implies #[trigger] f[i] < #[trigger] f[j] by {
                if j == fd.len() {
                    assert(d.contains(fd[i]));
                    let q = choose|q: int| 0 <= q < d.len() && d[q] == fd[i];
                    assert(s[q] == d[q]);
                    assert(s[s.len() - 1] == s.last());
                } else {
                    assert(f[i] == fd[i] && f[j] == fd[j]);
                }
            }
        }
    }
}

proof fn lemma_ordered_at(all: Seq<InteractionView>, a: int, b: int)
    requires
        ordered_by(all, by_time()),
        0 <= a <= b < all.len(),
    ensures
        all[a].timestamp.le(all[b].timestamp),
{
    assert(by_time()(all[a]).le(by_time()(all[b])));
}

/// The newest interaction of an increasing row over a time-ordered timeline is
/// its last one.
proof fn lemma_last_is_newest(all: Seq<InteractionView>, g: Seq<usize>)
    requires
        ordered_by(all, by_time()),
        increasing(g),
        g.len() > 0,
        forall|k: int| 0 <= k < g.len() ==> #[trigger] g[k] < all.len(),
    ensures
        forall|k: int| 0 <= k < g.len() ==> all[#[trigger] g[k] as int].timestamp.le(all[g.last() as int].timestamp),
{
    assert forall|k: int| 0 <= k < g.len() implies all[#[trigger] g[k] as int].timestamp.le(all[g.last() as int].timestamp) by {
        if k < g.len() - 1 {
            assert(g[k] < g[g.len() - 1]);
        }
        lemma_ordered_at(all, g[k] as int, g.last() as int);
    }
}

/// Over a time-ordered timeline, the rows come newest first (by each row's
/// newest interaction), and each row's last interaction, the one it shows, is
/// its newest.
pub proof fn lemma_rows_newest_first(
    all: Seq<InteractionView>,
    proto: ProtoFilter,
    needle: Seq<char>,
    grouping: bool,
)
    requires
        ordered_by(all, by_time()),
        all.len() <= usize::MAX,
    ensures
        ({
            let rows = rows_of(all, filtered_of(all, proto, needle), grouping);
            &&& forall|i: int, j: int| 0 <= i <= j < rows.len() ==> newest_time(all)(#[trigger] rows[j]).le(
                newest_time(all)(#[trigger] rows[i]),
            )
            &&& forall|r: int, k: int| 0 <= r < rows.len() && 0 <= k < rows[r].len() ==> all[#[trigger] rows[r][k] as int].timestamp.le(
                all[rows[r].last() as int].timestamp,
            )
        }),
{
    let idx = filtered_of(all, proto, needle);
    lemma_indices_where_increasing(all, shown(proto, needle), all.len());
    let rows = rows_of(all, idx, grouping);
    if grouping {
        let c = collapse(all, idx);
        let g = sort_by(c, newest_time(all));
        lemma_sort_by_ordered(c, newest_time(all));
        lemma_sort_by_members(c, newest_time(all));
        lemma_collapse_collapses(all, idx);
        assert forall|i: int, j: int| 0 <= i <= j < rows.len() implies newest_time(all)(#[trigger] rows[j]).le(
            newest_time(all)(#[trigger] rows[i]),
        ) by {
            assert(rows[i] == g[g.len() - 1 - i] && rows[j] == g[g.len() - 1 - j]);
            assert(newest_time(all)(g[g.len() - 1 - j]).le(newest_time(all)(g[g.len() - 1 - i])));
        }
        assert forall|r: int, k: int| 0 <= r < rows.len() && 0 <= k < rows[r].len() implies all[#[trigger] rows[r][k] as int].timestamp.le(
            all[rows[r].last() as int].timestamp,
        ) by {
            assert(rows[r] == g[g.len() - 1 - r]);
            assert(g.contains(g[g.len() - 1 - r]));
            assert(c.contains(rows[r]));
            let q = choose|q: int| 0 <= q < c.len() && c[q] == rows[r];
            let keys = group_keys(all, idx);
            assert(c[q] == idx.filter(has_sig(all, keys[q])));
            lemma_filter_increasing(idx, has_sig(all, keys[q]));
            lemma_filter_members(idx, has_sig(all, keys[q]));
            assert forall|m: int| 0 <= m < rows[r].len() implies #[trigger] rows[r][m] < all.len() by {
                assert(idx.contains(rows[r][m]));
                let e = choose|e: int| 0 <= e < idx.len() && idx[e] == rows[r][m];
            }
            lemma_last_is_newest(all, rows[r]);
        }
    } else {
        let sg = singletons(idx);
        assert forall|i: int, j: int| 0 <= i <= j < rows.len() implies newest_time(all)(#[trigger] rows[j]).le(
            newest_time(all)(#[trigger] rows[i]),
        ) by {
            let a = idx.len() - 1 - j;
            let b = idx.len() - 1 - i;
            assert(rows[i] == sg[b] && rows[j] == sg[a]);
            assert(sg[a] == seq![idx[a]] && sg[b] == seq![idx[b]]);
            if a < b {
                assert(idx[a] < idx[b]);
            }
            lemma_ordered_at(all, idx[a] as int, idx[b] as int);
        }
        assert forall|r: int, k: int| 0 <= r < rows.len() && 0 <= k < rows[r].len() implies all[#[trigger] rows[r][k] as int].timestamp.le(
            all[rows[r].last() as int].timestamp,
        ) by {
            assert(rows[r] == sg[idx.len() - 1 - r]);
            assert(rows[r] == seq![idx[idx.len() - 1 - r]]);
        }
    }
}


proof fn lemma_all_shown_up_to(all: Seq<InteractionView>, n: nat)
    requires
        n <= usize::MAX + 1,
    ensures
        indices_where(all, shown(ProtoFilter::All, seq![]), n) == Seq::new(n, |i: int| i as usize),
    decreases n,
{
    if n > 0 {
        lemma_all_shown_up_to(all, (n - 1) as nat);
        assert(shown(ProtoFilter::All, seq![])(all[n - 1]));
        assert(Seq::new((n - 1) as nat, |i: int| i as usize).push((n - 1) as usize) =~= Seq::new(
            n,
            |i: int| i as usize,
        ));
    }
}

proof fn lemma_indices_where_members(all: Seq<InteractionView>, pred: spec_fn(InteractionView) -> bool, n: nat, i: int)
    requires
        n <= usize::MAX + 1,
        0 <= i < n,
    ensures
        indices_where(all, pred, n).contains(i as usize) <==> pred(all[i]),
    decreases n,
{
    let prev = indices_where(all, pred, (n - 1) as nat);
    lemma_indices_where_increasing(all, pred, (n - 1) as nat);
    if i < n - 1 {
        lemma_indices_where_members(all, pred, (n - 1) as nat, i);
        if pred(all[n - 1]) {
            let cur = prev.push((n - 1) as usize);
            if cur.contains(i as usize) {
                let j = choose|j: int| 0 <= j < cur.len() && cur[j] == i as usize;
                if j < prev.len() {
                    assert(prev[j] == i as usize);
                }
            }
            if prev.contains(i as usize) {
                let j = choose|j: int| 0 <= j < prev.len() && prev[j] == i as usize;
                assert(cur[j] == i as usize);
            }
        }
    } else {
        if prev.contains(i as usize) {
            let j = choose|j: int| 0 <= j < prev.len() && prev[j] == i as usize;
            assert(prev[j] < n - 1);
        }
        if pred(all[n - 1]) {
            let cur = prev.push((n - 1) as usize);
            assert(cur[prev.len() as int] == i as usize);
        }
    }
}

/// The filter shows exactly the interactions it lets through: an interaction is
/// among the shown ones when and only when its protocol passes the protocol
/// filter and it matches the lower-cased query.
pub proof fn lemma_shown_exactly(all: Seq<InteractionView>, proto: ProtoFilter, query: Seq<char>, i: int)
    requires
        all.len() <= usize::MAX,
        0 <= i < all.len(),
    ensures
        filtered_of(all, proto, lowercase(query)).contains(i as usize) <==> (proto_accepts(proto, all[i].protocol)
            && matches_query(all[i], lowercase(query))),
{
    lemma_indices_where_members(all, shown(proto, lowercase(query)), all.len(), i);
}

/// With every protocol shown and an empty query, every interaction is shown, in
/// timeline order.
pub proof fn lemma_empty_query_shows_all(all: Seq<InteractionView>)
    requires
        all.len() <= usize::MAX,
    ensures
        filtered_of(all, ProtoFilter::All, seq![]) == Seq::new(all.len(), |i: int| i as usize),
{
    lemma_all_shown_up_to(all, all.len());
}


/// Turning grouping on and off again (or off and on) gives back the rows that
/// the current settings give, with the newest row selected.
pub proof fn lemma_toggle_grouping_twice(v: AppView)
    ensures
        v.with_grouping(!v.grouping).recomputed().at_row(0).with_grouping(v.grouping).recomputed().at_row(0)
            == v.recomputed().at_row(0),
{
    let l = v.with_grouping(!v.grouping).recomputed().at_row(0).with_grouping(v.grouping).recomputed().at_row(0);
    let r = v.recomputed().at_row(0);
    assert(l.filtered == r.filtered);
    assert(l.groups == r.groups);
}

/// Switching the screen twice comes back to the screen one started on, with
/// nothing else changed.
pub proof fn lemma_toggle_view_twice(v: AppView)
    ensures
        v.with_view(other_view(v.view)).with_view(other_view(other_view(v.view))) == v,
{
}

} // verus!
