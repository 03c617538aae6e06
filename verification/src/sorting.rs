//! Stable ordering by instant, stated as insertion from the back, with the laws
//! that it orders, keeps every element, and keeps equal instants in input order.

use crate::time::Instant;
use vstd::prelude::*;

verus! {

/// `s` with `x` placed after every element whose instant is not later than
/// `x`'s, counting from the back: the step of a stable sort.
pub open spec fn insert_by<A>(s: Seq<A>, x: A, key: spec_fn(A) -> Instant) -> Seq<A>
    decreases s.len(),
{
    if s.len() == 0 || key(s.last()).le(key(x)) {
        s.push(x)
    } else {
        insert_by(s.drop_last(), x, key).push(s.last())
    }
}

/// `s` ordered by instant, earlier first, elements with the same instant in the
/// order of `s` (what std's stable `sort_by_key` gives).
pub open spec fn sort_by<A>(s: Seq<A>, key: spec_fn(A) -> Instant) -> Seq<A>
    decreases s.len(),
{
    if s.len() == 0 {
        s
    } else {
        insert_by(sort_by(s.drop_last(), key), s.last(), key)
    }
}

/// Whether the instants of `s` never decrease.
pub open spec fn ordered_by<A>(s: Seq<A>, key: spec_fn(A) -> Instant) -> bool {
    forall|i: int, j: int| 0 <= i <= j < s.len() ==> #[trigger] key(s[i]).le(#[trigger] key(s[j]))
}

/// Inserting at the first position from the back whose predecessor is not later
/// than `x` is `insert_by`.
pub proof fn lemma_insert_by_at<A>(s: Seq<A>, x: A, key: spec_fn(A) -> Instant, p: int)
    requires
        0 <= p <= s.len(),
        forall|j: int| p <= j < s.len() ==> !(#[trigger] key(s[j])).le(key(x)),
        p == 0 || key(s[p - 1]).le(key(x)),
    ensures
        insert_by(s, x, key) == s.insert(p, x),
    decreases s.len() - p,
{
    if p == s.len() {
        assert(s.insert(p, x) =~= s.push(x));
    } else {
        let t = s.drop_last();
        assert(!key(s[s.len() - 1]).le(key(x)));
        assert forall|j: int| p <= j < t.len() implies !(#[trigger] key(t[j])).le(key(x)) by {
            assert(t[j] == s[j]);
        }
        if p > 0 {
            assert(t[p - 1] == s[p - 1]);
        }
        lemma_insert_by_at(t, x, key, p);
        assert(t.insert(p, x).push(s.last()) =~= s.insert(p, x));
    }
}

proof fn lemma_insert_by_keeps<A>(s: Seq<A>, x: A, key: spec_fn(A) -> Instant)
    ensures
        insert_by(s, x, key).to_multiset() == s.to_multiset().insert(x),
        insert_by(s, x, key).len() == s.len() + 1,
    decreases s.len(),
{
    broadcast use vstd::seq_lib::group_seq_properties;
    if s.len() == 0 || key(s.last()).le(key(x)) {
    } else {
        lemma_insert_by_keeps(s.drop_last(), x, key);
        assert(s.drop_last().push(s.last()) =~= s);
        assert(s.drop_last().to_multiset().insert(x).insert(s.last()) =~= s.to_multiset().insert(
            x,
        ));
    }
}

/// Sorting keeps every element, as often as it occurs.
pub proof fn lemma_sort_by_keeps<A>(s: Seq<A>, key: spec_fn(A) -> Instant)
    ensures
        sort_by(s, key).to_multiset() == s.to_multiset(),
        sort_by(s, key).len() == s.len(),
    decreases s.len(),
{
    broadcast use vstd::seq_lib::group_seq_properties;
    if s.len() > 0 {
        lemma_sort_by_keeps(s.drop_last(), key);
        lemma_insert_by_keeps(sort_by(s.drop_last(), key), s.last(), key);
        assert(s.drop_last().push(s.last()) =~= s);
    }
}

proof fn lemma_insert_by_ordered<A>(s: Seq<A>, x: A, key: spec_fn(A) -> Instant)
    requires
        ordered_by(s, key),
    ensures
        ordered_by(insert_by(s, x, key), key),
        insert_by(s, x, key).len() == s.len() + 1,
        forall|i: int|
            0 <= i < insert_by(s, x, key).len() ==> #[trigger] insert_by(s, x, key)[i] == x
                || s.contains(insert_by(s, x, key)[i]),
    decreases s.len(),
{
    if s.len() == 0 || key(s.last()).le(key(x)) {
        let r = s.push(x);
        assert forall|i: int, j: int| 0 <= i <= j < r.len() implies #[trigger] key(r[i]).le(
            #[trigger] key(r[j]),
        ) by {
            if j == s.len() && i < s.len() {
                assert(key(s[i]).le(key(s[s.len() - 1])));
            }
        }
        assert forall|i: int| 0 <= i < r.len() implies #[trigger] r[i] == x || s.contains(r[i]) by {
            if i < s.len() {
                assert(r[i] == s[i]);
            }
        }
    } else {
        let t = s.drop_last();
        assert forall|i: int, j: int| 0 <= i <= j < t.len() implies #[trigger] key(t[i]).le(
            #[trigger] key(t[j]),
        ) by {
            assert(t[i] == s[i] && t[j] == s[j]);
        }
        lemma_insert_by_ordered(t, x, key);
        let m = insert_by(t, x, key);
        let r = m.push(s.last());
        assert forall|i: int| 0 <= i < m.len() implies #[trigger] key(m[i]).le(key(s.last())) by {
            if m[i] == x {
            } else {
                assert(t.contains(m[i]));
                let k = choose|k: int| 0 <= k < t.len() && t[k] == m[i];
                assert(key(s[k]).le(key(s[s.len() - 1])));
            }
        }
        assert forall|i: int, j: int| 0 <= i <= j < r.len() implies #[trigger] key(r[i]).le(
            #[trigger] key(r[j]),
        ) by {
            if j == m.len() {
                if i < m.len() {
                    assert(r[i] == m[i]);
                }
            } else {
                assert(r[i] == m[i] && r[j] == m[j]);
            }
        }
        assert forall|i: int| 0 <= i < r.len() implies #[trigger] r[i] == x || s.contains(r[i]) by {
            if i < m.len() {
                assert(r[i] == m[i]);
                if m[i] != x {
                    assert(t.contains(m[i]));
                    let k = choose|k: int| 0 <= k < t.len() && t[k] == m[i];
                    assert(s[k] == t[k]);
                }
            } else {
                assert(s[s.len() - 1] == s.last());
            }
        }
    }
}

/// Sorting orders by instant.
pub proof fn lemma_sort_by_ordered<A>(s: Seq<A>, key: spec_fn(A) -> Instant)
    ensures
        ordered_by(sort_by(s, key), key),
    decreases s.len(),
{
    if s.len() > 0 {
        lemma_sort_by_ordered(s.drop_last(), key);
        lemma_insert_by_ordered(sort_by(s.drop_last(), key), s.last(), key);
    }
}


/// Whether an element has instant `t`.
pub open spec fn at_instant<A>(key: spec_fn(A) -> Instant, t: Instant) -> spec_fn(A) -> bool {
    |x: A| key(x) == t
}

proof fn lemma_insert_by_filter<A>(s: Seq<A>, x: A, key: spec_fn(A) -> Instant, t: Instant)
    ensures
        insert_by(s, x, key).filter(at_instant(key, t)) == (if key(x) == t {
            s.filter(at_instant(key, t)).push(x)
        } else {
            s.filter(at_instant(key, t))
        }),
    decreases s.len(),
{
    let p = at_instant(key, t);
    if s.len() == 0 || key(s.last()).le(key(x)) {
        s.lemma_filter_push(x, p);
    } else {
        let d = s.drop_last();
        lemma_insert_by_filter(d, x, key, t);
        insert_by(d, x, key).lemma_filter_push(s.last(), p);
        d.lemma_filter_push(s.last(), p);
        assert(d.push(s.last()) =~= s);
    }
}

/// Sorting is stable: the elements with any one instant keep their order.
pub proof fn lemma_sort_by_stable<A>(s: Seq<A>, key: spec_fn(A) -> Instant, t: Instant)
    ensures
        sort_by(s, key).filter(at_instant(key, t)) == s.filter(at_instant(key, t)),
    decreases s.len(),
{
    if s.len() > 0 {
        let d = s.drop_last();
        lemma_sort_by_stable(d, key, t);
        lemma_insert_by_filter(sort_by(d, key), s.last(), key, t);
        d.lemma_filter_push(s.last(), at_instant(key, t));
        assert(d.push(s.last()) =~= s);
    }
}

proof fn lemma_insert_by_is_insert<A>(s: Seq<A>, x: A, key: spec_fn(A) -> Instant) -> (p: int)
    ensures
        0 <= p <= s.len(),
        insert_by(s, x, key) == s.insert(p, x),
    decreases s.len(),
{
    if s.len() == 0 || key(s.last()).le(key(x)) {
        assert(s.insert(s.len() as int, x) =~= s.push(x));
        s.len() as int
    } else {
        let d = s.drop_last();
        let q = lemma_insert_by_is_insert(d, x, key);
        assert(d.insert(q, x).push(s.last()) =~= s.insert(q, x));
        q
    }
}

/// Sorting keeps exactly the elements that were there.
pub proof fn lemma_sort_by_members<A>(s: Seq<A>, key: spec_fn(A) -> Instant)
    ensures
        sort_by(s, key).len() == s.len(),
        forall|y: A| #[trigger] sort_by(s, key).contains(y) <==> s.contains(y),
    decreases s.len(),
{
    if s.len() > 0 {
        let d = s.drop_last();
        let x = s.last();
        lemma_sort_by_members(d, key);
        let sd = sort_by(d, key);
        let p = lemma_insert_by_is_insert(sd, x, key);
        let r = sd.insert(p, x);
        assert(s =~= d.push(x));
        assert forall|y: A| #[trigger] sort_by(s, key).contains(y) <==> s.contains(y) by {
            if r.contains(y) {
                let k = choose|k: int| 0 <= k < r.len() && r[k] == y;
                if k < p {
                    assert(sd[k] == y && sd.contains(y));
                    let j = choose|j: int| 0 <= j < d.len() && d[j] == y;
                    assert(s[j] == y);
                } else if k == p {
                    assert(s[s.len() - 1] == y);
                } else {
                    assert(sd[k - 1] == y && sd.contains(y));
                    let j = choose|j: int| 0 <= j < d.len() && d[j] == y;
                    assert(s[j] == y);
                }
            }
            if s.contains(y) {
                let k = choose|k: int| 0 <= k < s.len() && s[k] == y;
                if k < d.len() {
                    assert(d[k] == y && d.contains(y) && sd.contains(y));
                    let j = choose|j: int| 0 <= j < sd.len() && sd[j] == y;
                    if j < p {
                        assert(r[j] == y);
                    } else {
                        assert(r[j + 1] == y);
                    }
                } else {
                    assert(r[p] == y);
                }
            }
        }
    }
}

/// Whether `f` differs on any two positions of `s`.
pub open spec fn distinct_under<A, B>(s: Seq<A>, f: spec_fn(A) -> B) -> bool {
    forall|i: int, j: int| 0 <= i < s.len() && 0 <= j < s.len() && i != j ==> f(#[trigger] s[i]) != f(#[trigger] s[j])
}

/// Sorting keeps apart elements that `f` kept apart.
pub proof fn lemma_sort_by_distinct_under<A, B>(s: Seq<A>, key: spec_fn(A) -> Instant, f: spec_fn(A) -> B)
    requires
        distinct_under(s, f),
    ensures
        distinct_under(sort_by(s, key), f),
    decreases s.len(),
{
    if s.len() > 0 {
        let d = s.drop_last();
        let x = s.last();
        assert(distinct_under(d, f)) by {
            assert forall|i: int, j: int| 0 <= i < d.len() && 0 <= j < d.len() && i != j implies f(#[trigger] d[i]) != f(#[trigger] d[j]) by {
                assert(d[i] == s[i] && d[j] == s[j]);
            }
        }
        lemma_sort_by_distinct_under(d, key, f);
        lemma_sort_by_members(d, key);
        let sd = sort_by(d, key);
        let p = lemma_insert_by_is_insert(sd, x, key);
        let r = sd.insert(p, x);
        assert forall|k: int| 0 <= k < sd.len() implies f(#[trigger] sd[k]) != f(x) by {
            assert(sd.contains(sd[k]));
            let j = choose|j: int| 0 <= j < d.len() && d[j] == sd[k];
            assert(s[j] == d[j]);
            assert(s[s.len() - 1] == x);
        }
        assert forall|i: int, j: int| 0 <= i < r.len() && 0 <= j < r.len() && i != j implies f(#[trigger] r[i]) != f(#[trigger] r[j]) by {
            let ii = if i < p { i } else { i - 1 };
            let jj = if j < p { j } else { j - 1 };
            if i == p {
                assert(r[j] == sd[jj]);
            } else if j == p {
                assert(r[i] == sd[ii]);
            } else {
                assert(r[i] == sd[ii] && r[j] == sd[jj]);
            }
        }
    }
}

} // verus!
