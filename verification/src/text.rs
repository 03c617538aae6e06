//! Character-level text processing, stated over `Seq<char>`.

use vstd::prelude::*;

verus! {

/// Exactly the characters for which Rust's `char::is_whitespace` holds
/// (the Unicode `White_Space` property).
pub open spec fn is_ws(c: char) -> bool {
    let u = c as u32;
    ||| 0x09 <= u <= 0x0D
    ||| u == 0x20
    ||| u == 0x85
    ||| u == 0xA0
    ||| u == 0x1680
    ||| 0x2000 <= u <= 0x200A
    ||| u == 0x2028
    ||| u == 0x2029
    ||| u == 0x202F
    ||| u == 0x205F
    ||| u == 0x3000
}

/// Whether `c` is whitespace in the sense of `char::is_whitespace`.
pub fn is_whitespace(c: char) -> (r: bool)
    ensures
        r == is_ws(c),
{
    let u = c as u32;
    (0x09 <= u && u <= 0x0D) || u == 0x20 || u == 0x85 || u == 0xA0 || u == 0x1680 || (0x2000
        <= u && u <= 0x200A) || u == 0x2028 || u == 0x2029 || u == 0x202F || u == 0x205F || u
        == 0x3000
}

/// `s` without its leading whitespace.
pub open spec fn trim_start(s: Seq<char>) -> Seq<char>
    decreases s.len(),
{
    if s.len() > 0 && is_ws(s[0]) {
        trim_start(s.skip(1))
    } else {
        s
    }
}

/// `s` without its trailing whitespace.
pub open spec fn trim_end(s: Seq<char>) -> Seq<char>
    decreases s.len(),
{
    if s.len() > 0 && is_ws(s.last()) {
        trim_end(s.drop_last())
    } else {
        s
    }
}

/// `s` without leading and trailing whitespace, as `str::trim` gives it.
pub open spec fn trim(s: Seq<char>) -> Seq<char> {
    trim_end(trim_start(s))
}


/// Whether every character of `s` is whitespace.
pub open spec fn all_ws(s: Seq<char>) -> bool {
    forall|i: int| 0 <= i < s.len() ==> is_ws(#[trigger] s[i])
}

pub proof fn lemma_trim_start_at(s: Seq<char>, a: int)
    requires
        0 <= a <= s.len(),
        forall|i: int| 0 <= i < a ==> is_ws(#[trigger] s[i]),
        a == s.len() || !is_ws(s[a]),
    ensures
        trim_start(s) == s.skip(a),
    decreases a,
{
    if a > 0 {
        assert(is_ws(s[0]));
        assert forall|i: int| 0 <= i < a - 1 implies is_ws(#[trigger] s.skip(1)[i]) by {
            assert(s.skip(1)[i] == s[i + 1]);
        }
        if a - 1 < s.skip(1).len() {
            assert(s.skip(1)[a - 1] == s[a]);
        }
        lemma_trim_start_at(s.skip(1), a - 1);
        assert(s.skip(1).skip(a - 1) =~= s.skip(a));
    } else {
        assert(s.skip(0) =~= s);
    }
}

pub proof fn lemma_trim_end_at(s: Seq<char>, b: int)
    requires
        0 <= b <= s.len(),
        forall|i: int| b <= i < s.len() ==> is_ws(#[trigger] s[i]),
        b == 0 || !is_ws(s[b - 1]),
    ensures
        trim_end(s) == s.take(b),
    decreases s.len() - b,
{
    if b < s.len() {
        assert(is_ws(s.last()));
        let t = s.drop_last();
        assert forall|i: int| b <= i < t.len() implies is_ws(#[trigger] t[i]) by {
            assert(t[i] == s[i]);
        }
        if b > 0 {
            assert(t[b - 1] == s[b - 1]);
        }
        lemma_trim_end_at(t, b);
        assert(t.take(b) =~= s.take(b));
    } else {
        assert(s.take(b) =~= s);
    }
}

/// The characters of `s[from..to]` with leading and trailing whitespace removed.
pub fn trim_range(s: &Vec<char>, from: usize, to: usize) -> (r: Vec<char>)
    requires
        from <= to <= s.len(),
    ensures
        r@ == trim(s@.subrange(from as int, to as int)),
{
    let ghost sub = s@.subrange(from as int, to as int);
    let mut a = from;
    while a < to && is_whitespace(s[a])
        invariant
            from <= a <= to <= s.len(),
            forall|i: int| from <= i < a ==> is_ws(#[trigger] s@[i]),
        decreases to - a,
    {
        a = a + 1;
    }
    proof {
        assert forall|i: int| 0 <= i < a - from implies is_ws(#[trigger] sub[i]) by {
            assert(sub[i] == s@[from + i]);
        }
        if a < to {
            assert(sub[a - from] == s@[a as int]);
        }
        lemma_trim_start_at(sub, a - from);
    }
    let mut b = to;
    while b > a && is_whitespace(s[b - 1])
        invariant
            from <= a <= b <= to <= s.len(),
            forall|i: int| b <= i < to ==> is_ws(#[trigger] s@[i]),
        decreases b - a,
    {
        b = b - 1;
    }
    let ghost ts = sub.skip(a - from);
    proof {
        assert forall|i: int| b - a <= i < ts.len() implies is_ws(#[trigger] ts[i]) by {
            assert(ts[i] == s@[a + i]);
        }
        if b > a {
            assert(ts[b - a - 1] == s@[b - 1]);
        }
        lemma_trim_end_at(ts, b - a);
    }
    let mut r: Vec<char> = Vec::new();
    let mut k = a;
    while k < b
        invariant
            a <= k <= b <= s.len(),
            r@ == s@.subrange(a as int, k as int),
        decreases b - k,
    {
        r.push(s[k]);
        proof {
            assert(s@.subrange(a as int, k + 1) =~= s@.subrange(a as int, k as int).push(s@[k as int]));
        }
        k = k + 1;
    }
    assert(ts.take(b - a) =~= s@.subrange(a as int, b as int));
    r
}

/// The characters of `s`, in order.
pub fn chars_of(s: &str) -> (r: Vec<char>)
    ensures
        r@ == s@,
{
    let mut r: Vec<char> = Vec::new();
    for c in it: s.chars()
        invariant
            it.seq() == s@,
            r@ == s@.take(it.index() as int),
    {
        r.push(c);
        proof {
            assert(s@.take(it.index() + 1) =~= s@.take(it.index() as int).push(c));
        }
    }
    assert(r@ =~= s@);
    r
}



/// Appends `c` to `s` (std's `String::push`, documented as appending the char).
#[verifier::external_body]
pub(crate) fn push_char(s: &mut String, c: char)
    ensures
        final(s)@ == old(s)@.push(c),
{
    s.push(c);
}

/// A `String` holding exactly the characters of `v`.
pub fn string_of(v: &Vec<char>) -> (r: String)
    ensures
        r@ == v@,
{
    let mut s = String::new();
    append_chars(&mut s, v);
    assert(Seq::<char>::empty() + v@ =~= v@);
    s
}

/// Appends the characters of `v` to `s`.
pub fn append_chars(s: &mut String, v: &Vec<char>)
    ensures
        final(s)@ == old(s)@ + v@,
{
    let mut i: usize = 0;
    while i < v.len()
        invariant
            i <= v.len(),
            s@ == old(s)@ + v@.take(i as int),
        decreases v.len() - i,
    {
        push_char(s, v[i]);
        proof {
            assert(v@.take(i + 1) =~= v@.take(i as int).push(v@[i as int]));
        }
        i = i + 1;
    }
    assert(v@.take(i as int) =~= v@);
}

/// What std's `str::to_lowercase` returns for a string with these characters
/// (full Unicode case mapping, independent of locale).
pub uninterp spec fn lowercase(s: Seq<char>) -> Seq<char>;

/// What std's `str::to_uppercase` returns for a string with these characters
/// (full Unicode case mapping, independent of locale).
pub uninterp spec fn uppercase(s: Seq<char>) -> Seq<char>;

/// std's `str::to_lowercase`; its result is named, not stated, beyond that the
/// lower-case form of the empty string is empty.
#[verifier::external_body]
pub(crate) fn to_lowercase(s: &str) -> (r: String)
    ensures
        r@ == lowercase(s@),
        s@.len() == 0 ==> r@.len() == 0,
{
    s.to_lowercase()
}

/// std's `str::to_uppercase`; its result is named, not stated.
#[verifier::external_body]
pub(crate) fn to_uppercase(s: &str) -> (r: String)
    ensures
        r@ == uppercase(s@),
{
    s.to_uppercase()
}

/// Position of the first `'\n'` in `s`, or `s.len()` when there is none.
pub open spec fn newline_pos(s: Seq<char>) -> nat
    decreases s.len(),
{
    if s.len() == 0 {
        0
    } else if s[0] == '\n' {
        0
    } else {
        1 + newline_pos(s.skip(1))
    }
}

/// `l` without one trailing carriage return.
pub open spec fn strip_cr(l: Seq<char>) -> Seq<char> {
    if l.len() > 0 && l.last() == '\r' {
        l.drop_last()
    } else {
        l
    }
}

/// The lines of `s` as `str::lines` yields them: split after each `'\n'`, each
/// line that ended in `'\n'` loses that and one `'\r'` before it, and a final
/// line ending adds no empty line.
pub open spec fn lines(s: Seq<char>) -> Seq<Seq<char>>
    decreases s.len(),
{
    if s.len() == 0 {
        seq![]
    } else {
        let p = newline_pos(s);
        if p >= s.len() {
            seq![s]
        } else {
            seq![strip_cr(s.take(p as int))] + lines(s.skip(p + 1 as int))
        }
    }
}

/// Whether `s` holds no `'\n'`.
pub open spec fn no_newline(s: Seq<char>) -> bool {
    forall|i: int| 0 <= i < s.len() ==> #[trigger] s[i] != '\n'
}

pub proof fn lemma_newline_pos_at(s: Seq<char>, k: int)
    requires
        0 <= k <= s.len(),
        forall|i: int| 0 <= i < k ==> #[trigger] s[i] != '\n',
        k == s.len() || s[k] == '\n',
    ensures
        newline_pos(s) == k,
    decreases k,
{
    if k > 0 {
        assert forall|i: int| 0 <= i < k - 1 implies #[trigger] s.skip(1)[i] != '\n' by {
            assert(s.skip(1)[i] == s[i + 1]);
        }
        if k < s.len() {
            assert(s.skip(1)[k - 1] == s[k]);
        }
        lemma_newline_pos_at(s.skip(1), k - 1);
    }
}

/// A line without `'\n'` followed by a line ending: the first line is `cur`.
pub proof fn lemma_lines_step(cur: Seq<char>, rest: Seq<char>)
    requires
        no_newline(cur),
        rest.len() > 0,
        rest[0] == '\n',
    ensures
        lines(cur + rest) == seq![strip_cr(cur)] + lines(rest.skip(1)),
{
    let s = cur + rest;
    assert forall|i: int| 0 <= i < cur.len() implies #[trigger] s[i] != '\n' by {
        assert(s[i] == cur[i]);
    }
    assert(s[cur.len() as int] == rest[0]);
    lemma_newline_pos_at(s, cur.len() as int);
    assert(s.take(cur.len() as int) =~= cur);
    assert(s.skip(cur.len() + 1 as int) =~= rest.skip(1));
}

/// The text after the last line ending.
pub proof fn lemma_lines_tail(cur: Seq<char>)
    requires
        no_newline(cur),
    ensures
        lines(cur) == (if cur.len() == 0 { Seq::<Seq<char>>::empty() } else { seq![cur] }),
{
    if cur.len() > 0 {
        lemma_newline_pos_at(cur, cur.len() as int);
    }
}

/// The lines of `s` (see `lines`).
pub fn split_lines(s: &Vec<char>) -> (r: Vec<Vec<char>>)
    ensures
        r@.map_values(|l: Vec<char>| l@) == lines(s@),
{
    let mut out: Vec<Vec<char>> = Vec::new();
    let mut start: usize = 0;
    let mut i: usize = 0;
    assert(s@.skip(0) =~= s@);
    assert(out@.map_values(|l: Vec<char>| l@) + lines(s@) =~= lines(s@));
    while i < s.len()
        invariant
            start <= i <= s@.len(),
            lines(s@) == out@.map_values(|l: Vec<char>| l@) + lines(s@.skip(start as int)),
            no_newline(s@.subrange(start as int, i as int)),
        decreases s@.len() - i,
    {
        if s[i] == '\n' {
            let ghost cur = s@.subrange(start as int, i as int);
            let ghost done = out@.map_values(|l: Vec<char>| l@);
            proof {
                assert(s@.skip(start as int) =~= cur + s@.skip(i as int));
                lemma_lines_step(cur, s@.skip(i as int));
                assert(s@.skip(i as int).skip(1) =~= s@.skip(i + 1));
            }
            let mut e = i;
            if e > start && s[e - 1] == '\r' {
                e = e - 1;
            }
            let line = slice_chars(s, start, e);
            assert(line@ =~= strip_cr(cur));
            out.push(line);
            assert(out@.map_values(|l: Vec<char>| l@) =~= done.push(strip_cr(cur)));
            assert(lines(s@) =~= out@.map_values(|l: Vec<char>| l@) + lines(s@.skip(i + 1)));
            start = i + 1;
            assert(s@.subrange(start as int, start as int) =~= Seq::<char>::empty());
        } else {
            assert(s@.subrange(start as int, i + 1) =~= s@.subrange(start as int, i as int).push(s@[i as int]));
        }
        i = i + 1;
    }
    let ghost cur = s@.skip(start as int);
    let ghost done = out@.map_values(|l: Vec<char>| l@);
    assert(s@.subrange(start as int, i as int) =~= cur);
    proof {
        lemma_lines_tail(cur);
    }
    if start < s.len() {
        let line = slice_chars(s, start, s.len());
        assert(line@ =~= cur);
        out.push(line);
        assert(out@.map_values(|l: Vec<char>| l@) =~= done.push(cur));
        assert(lines(s@) =~= out@.map_values(|l: Vec<char>| l@));
    } else {
        assert(cur.len() == 0);
        assert(lines(s@) =~= done);
    }
    out
}

/// Length of the longest prefix of `s` that holds no whitespace.
pub open spec fn word_len(s: Seq<char>) -> nat
    decreases s.len(),
{
    if s.len() > 0 && !is_ws(s[0]) {
        1 + word_len(s.skip(1))
    } else {
        0
    }
}

pub proof fn lemma_trim_start_shape(s: Seq<char>)
    ensures
        trim_start(s).len() <= s.len(),
        trim_start(s).len() > 0 ==> !is_ws(trim_start(s)[0]),
        trim_start(s) == s.skip(s.len() - trim_start(s).len()),
    decreases s.len(),
{
    if s.len() > 0 && is_ws(s[0]) {
        lemma_trim_start_shape(s.skip(1));
        assert(s.skip(1).skip(s.skip(1).len() - trim_start(s.skip(1)).len()) =~= s.skip(
            s.len() - trim_start(s.skip(1)).len(),
        ));
    } else {
        assert(s.skip(0) =~= s);
    }
}

pub proof fn lemma_word_len_bound(s: Seq<char>)
    ensures
        word_len(s) <= s.len(),
    decreases s.len(),
{
    if s.len() > 0 && !is_ws(s[0]) {
        lemma_word_len_bound(s.skip(1));
    }
}

pub proof fn lemma_word_len_at(s: Seq<char>, k: int)
    requires
        0 <= k <= s.len(),
        forall|i: int| 0 <= i < k ==> !is_ws(#[trigger] s[i]),
        k == s.len() || is_ws(s[k]),
    ensures
        word_len(s) == k,
    decreases k,
{
    if k > 0 {
        assert forall|i: int| 0 <= i < k - 1 implies !is_ws(#[trigger] s.skip(1)[i]) by {
            assert(s.skip(1)[i] == s[i + 1]);
        }
        if k < s.len() {
            assert(s.skip(1)[k - 1] == s[k]);
        }
        lemma_word_len_at(s.skip(1), k - 1);
    }
}

/// The whitespace-separated words of `s`, as `str::split_whitespace` yields them.
pub open spec fn words(s: Seq<char>) -> Seq<Seq<char>>
    decreases s.len(),
{
    let t = trim_start(s);
    if t.len() == 0 {
        seq![]
    } else {
        proof {
            lemma_trim_start_shape(s);
            assert(word_len(t) >= 1);
            lemma_word_len_bound(t);
        }
        let n = word_len(t);
        seq![t.take(n as int)] + words(t.skip(n as int))
    }
}

/// The first two whitespace-separated words of `s`, where there are that many.
pub fn first_two_words(s: &Vec<char>) -> (r: (Option<Vec<char>>, Option<Vec<char>>))
    ensures
        match r.0 {
            Some(w) => words(s@).len() >= 1 && w@ == words(s@)[0],
            None => words(s@).len() == 0,
        },
        match r.1 {
            Some(w) => words(s@).len() >= 2 && w@ == words(s@)[1],
            None => words(s@).len() <= 1,
        },
{
    let n = s.len();
    let mut a: usize = 0;
    while a < n && is_whitespace(s[a])
        invariant
            a <= n == s.len(),
            forall|i: int| 0 <= i < a ==> is_ws(#[trigger] s@[i]),
        decreases n - a,
    {
        a = a + 1;
    }
    proof {
        lemma_trim_start_at(s@, a as int);
    }
    if a == n {
        return (None, None);
    }
    let mut b: usize = a;
    while b < n && !is_whitespace(s[b])
        invariant
            a <= b <= n == s.len(),
            forall|i: int| a <= i < b ==> !is_ws(#[trigger] s@[i]),
        decreases n - b,
    {
        b = b + 1;
    }
    let ghost t = s@.skip(a as int);
    proof {
        assert forall|i: int| 0 <= i < b - a implies !is_ws(#[trigger] t[i]) by {
            assert(t[i] == s@[a + i]);
        }
        if b < n {
            assert(t[b - a] == s@[b as int]);
        }
        lemma_word_len_at(t, b - a);
        assert(t.skip(b - a) =~= s@.skip(b as int));
        assert(t.take(b - a) =~= s@.subrange(a as int, b as int));
    }
    let w0 = slice_chars(s, a, b);
    let mut c: usize = b;
    while c < n && is_whitespace(s[c])
        invariant
            b <= c <= n == s.len(),
            forall|i: int| b <= i < c ==> is_ws(#[trigger] s@[i]),
        decreases n - c,
    {
        c = c + 1;
    }
    let ghost u = s@.skip(b as int);
    proof {
        assert forall|i: int| 0 <= i < c - b implies is_ws(#[trigger] u[i]) by {
            assert(u[i] == s@[b + i]);
        }
        if c < n {
            assert(u[c - b] == s@[c as int]);
        }
        lemma_trim_start_at(u, c - b);
        assert(u.skip(c - b) =~= s@.skip(c as int));
        assert(words(s@) == seq![t.take(b - a)] + words(u));
    }
    if c == n {
        return (Some(w0), None);
    }
    let mut d: usize = c;
    while d < n && !is_whitespace(s[d])
        invariant
            c <= d <= n == s.len(),
            forall|i: int| c <= i < d ==> !is_ws(#[trigger] s@[i]),
        decreases n - d,
    {
        d = d + 1;
    }
    let ghost v = s@.skip(c as int);
    proof {
        assert forall|i: int| 0 <= i < d - c implies !is_ws(#[trigger] v[i]) by {
            assert(v[i] == s@[c + i]);
        }
        if d < n {
            assert(v[d - c] == s@[d as int]);
        }
        lemma_word_len_at(v, d - c);
        assert(v.take(d - c) =~= s@.subrange(c as int, d as int));
        assert(words(u) == seq![v.take(d - c)] + words(v.skip(d - c)));
    }
    let w1 = slice_chars(s, c, d);
    (Some(w0), Some(w1))
}

/// All whitespace-separated words of `s`, as `str::split_whitespace` yields them.
pub fn split_words(s: &Vec<char>) -> (r: Vec<Vec<char>>)
    ensures
        r@.map_values(|w: Vec<char>| w@) == words(s@),
{
    let n = s.len();
    let mut out: Vec<Vec<char>> = Vec::new();
    let mut i: usize = 0;
    assert(s@.skip(0) =~= s@);
    loop
        invariant
            i <= n == s.len(),
            words(s@) == out@.map_values(|w: Vec<char>| w@) + words(s@.skip(i as int)),
        decreases n - i,
    {
        let mut a: usize = i;
        while a < n && is_whitespace(s[a])
            invariant
                i <= a <= n == s.len(),
                forall|k: int| i <= k < a ==> is_ws(#[trigger] s@[k]),
            decreases n - a,
        {
            a = a + 1;
        }
        let ghost u = s@.skip(i as int);
        proof {
            assert forall|k: int| 0 <= k < a - i implies is_ws(#[trigger] u[k]) by {
                assert(u[k] == s@[i + k]);
            }
            if a < n {
                assert(u[a - i] == s@[a as int]);
            }
            lemma_trim_start_at(u, a - i);
            assert(u.skip(a - i) =~= s@.skip(a as int));
        }
        if a == n {
            assert(words(u) == Seq::<Seq<char>>::empty());
            assert(out@.map_values(|w: Vec<char>| w@) + words(u) =~= out@.map_values(|w: Vec<char>| w@));
            return out;
        }
        let mut b: usize = a;
        while b < n && !is_whitespace(s[b])
            invariant
                a <= b <= n == s.len(),
                forall|k: int| a <= k < b ==> !is_ws(#[trigger] s@[k]),
            decreases n - b,
        {
            b = b + 1;
        }
        let ghost t = s@.skip(a as int);
        proof {
            assert forall|k: int| 0 <= k < b - a implies !is_ws(#[trigger] t[k]) by {
                assert(t[k] == s@[a + k]);
            }
            if b < n {
                assert(t[b - a] == s@[b as int]);
            }
            lemma_word_len_at(t, b - a);
            assert(t.skip(b - a) =~= s@.skip(b as int));
            assert(t.take(b - a) =~= s@.subrange(a as int, b as int));
            assert(words(u) == seq![t.take(b - a)] + words(t.skip(b - a)));
        }
        let w = slice_chars(s, a, b);
        let ghost before = out@.map_values(|w: Vec<char>| w@);
        out.push(w);
        assert(out@.map_values(|w: Vec<char>| w@) =~= before.push(s@.subrange(a as int, b as int)));
        assert(before + (seq![t.take(b - a)] + words(s@.skip(b as int))) =~= before.push(
            s@.subrange(a as int, b as int),
        ) + words(s@.skip(b as int)));
        i = b;
    }
}

/// The characters `s[from..to]`.
pub fn slice_chars(s: &Vec<char>, from: usize, to: usize) -> (r: Vec<char>)
    requires
        from <= to <= s.len(),
    ensures
        r@ == s@.subrange(from as int, to as int),
{
    let mut r: Vec<char> = Vec::new();
    let mut k = from;
    while k < to
        invariant
            from <= k <= to <= s.len(),
            r@ == s@.subrange(from as int, k as int),
        decreases to - k,
    {
        r.push(s[k]);
        proof {
            assert(s@.subrange(from as int, k + 1) =~= s@.subrange(from as int, k as int).push(
                s@[k as int],
            ));
        }
        k = k + 1;
    }
    r
}

/// Whether `n` occurs in `h` starting at position `i`.
pub open spec fn occurs_at(h: Seq<char>, n: Seq<char>, i: int) -> bool {
    0 <= i && i + n.len() <= h.len() && h.subrange(i, i + n.len()) == n
}

/// Whether `n` occurs in `h` as a contiguous part, as `str::contains` tests it.
pub open spec fn contains_seq(h: Seq<char>, n: Seq<char>) -> bool {
    exists|i: int| occurs_at(h, n, i)
}

/// Whether `n` occurs in `h` as a contiguous part.
pub fn contains_chars(h: &Vec<char>, n: &Vec<char>) -> (r: bool)
    ensures
        r == contains_seq(h@, n@),
{
    if n.len() > h.len() {
        return false;
    }
    let last = h.len() - n.len();
    let mut i: usize = 0;
    while i <= last
        invariant
            last == h.len() - n.len(),
            n.len() <= h.len(),
            forall|j: int| 0 <= j < i ==> !occurs_at(h@, n@, j),
        decreases last + 1 - i,
    {
        let mut k: usize = 0;
        while k < n.len() && h[i + k] == n[k]
            invariant
                i <= last,
                last == h.len() - n.len(),
                k <= n.len(),
                forall|m: int| 0 <= m < k ==> h@[i + m] == n@[m],
            decreases n.len() - k,
        {
            k = k + 1;
        }
        if k == n.len() {
            assert(h@.subrange(i as int, i + n.len()) =~= n@);
            assert(occurs_at(h@, n@, i as int));
            return true;
        }
        assert(h@.subrange(i as int, i + n.len())[k as int] != n@[k as int]);
        i = i + 1;
    }
    false
}

/// Whether two character sequences are equal.
pub fn chars_eq(a: &Vec<char>, b: &Vec<char>) -> (r: bool)
    ensures
        r == (a@ == b@),
{
    if a.len() != b.len() {
        return false;
    }
    let mut i: usize = 0;
    while i < a.len()
        invariant
            a.len() == b.len(),
            i <= a.len(),
            forall|m: int| 0 <= m < i ==> a@[m] == b@[m],
        decreases a.len() - i,
    {
        if a[i] != b[i] {
            return false;
        }
        i = i + 1;
    }
    assert(a@ =~= b@);
    true
}

/// The decimal digit for `d`.
pub open spec fn digit(d: nat) -> char {
    (48 + d) as char
}

/// The decimal representation of `n`, without leading zeros.
pub open spec fn decimal(n: nat) -> Seq<char>
    decreases n,
{
    if n < 10 {
        seq![digit(n)]
    } else {
        decimal(n / 10).push(digit(n % 10))
    }
}

fn digit_char(d: u64) -> (c: char)
    requires
        d < 10,
    ensures
        c == digit(d as nat),
{
    let b: u8 = 48u8 + (d as u8);
    b as char
}

/// The decimal representation of `n`.
pub fn decimal_chars(n: u64) -> (r: Vec<char>)
    ensures
        r@ == decimal(n as nat),
    decreases n,
{
    if n < 10 {
        let mut v: Vec<char> = Vec::new();
        v.push(digit_char(n));
        assert(v@ =~= seq![digit(n as nat)]);
        v
    } else {
        let mut v = decimal_chars(n / 10);
        v.push(digit_char(n % 10));
        v
    }
}

/// Appends the decimal representation of `n` to `s`.
pub fn append_decimal(s: &mut String, n: u64)
    ensures
        final(s)@ == old(s)@ + decimal(n as nat),
{
    let d = decimal_chars(n);
    append_chars(s, &d);
}

} // verus!
