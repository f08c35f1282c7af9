//! Character-level model of a document: whitespace, indentation runs,
//! line splitting and joining.

use vstd::prelude::*;

verus! {

/// The characters with the Unicode `White_Space` property, as listed in the
/// documentation of `char::is_whitespace`.
pub open spec fn is_ws(c: char) -> bool {
    let u = c as u32;
    (0x09 <= u && u <= 0x0d) || u == 0x20 || u == 0x85 || u == 0xa0 || u == 0x1680 || (0x2000
        <= u && u <= 0x200a) || u == 0x2028 || u == 0x2029 || u == 0x202f || u == 0x205f || u
        == 0x3000
}

/// Number of whitespace characters at the start of `l`.
pub open spec fn lead_len(l: Seq<char>) -> nat
    decreases l.len(),
{
    if l.len() > 0 && is_ws(l[0]) {
        1 + lead_len(l.drop_first())
    } else {
        0
    }
}

/// What follows the leading whitespace of a line.
pub open spec fn body(l: Seq<char>) -> Seq<char> {
    l.skip(lead_len(l) as int)
}

pub open spec fn is_blank(l: Seq<char>) -> bool {
    body(l).len() == 0
}

/// Width in columns of a run of whitespace: a tab counts two, any other
/// character one.
pub open spec fn cols(s: Seq<char>) -> nat
    decreases s.len(),
{
    if s.len() == 0 {
        0
    } else {
        cols(s.drop_last()) + if s.last() == '\t' {
            2nat
        } else {
            1nat
        }
    }
}

/// Indentation depth of a line, in columns.
pub open spec fn depth(l: Seq<char>) -> nat {
    cols(l.take(lead_len(l) as int))
}

/// The leading whitespace of the line holds both a tab and a space.
pub open spec fn is_mixed(l: Seq<char>) -> bool {
    &&& exists|k: int| 0 <= k < lead_len(l) && l[k] == '\t'
    &&& exists|k: int| 0 <= k < lead_len(l) && l[k] == ' '
}

pub open spec fn starts_with(s: Seq<char>, p: Seq<char>) -> bool {
    p.len() <= s.len() && s.take(p.len() as int) == p
}

/// Holds a `:` that ends the text or is followed by whitespace, as a
/// mapping key does.
pub open spec fn is_key_like(b: Seq<char>) -> bool {
    exists|i: int| 0 <= i < b.len() && #[trigger] key_colon_at(b, i)
}

/// A `:` at `i` that ends the text or is followed by whitespace.
pub open spec fn key_colon_at(b: Seq<char>, i: int) -> bool {
    b[i] == ':' && (i + 1 == b.len() || is_ws(b[i + 1]))
}

pub open spec fn spaces(n: nat) -> Seq<char> {
    Seq::new(n, |i: int| ' ')
}

/// Index of the first newline at or after `from`, or the length of `s`.
pub open spec fn next_nl(s: Seq<char>, from: int) -> int
    decreases s.len() - from,
{
    if from < 0 || from >= s.len() {
        s.len() as int
    } else if s[from] == '\n' {
        from
    } else {
        next_nl(s, from + 1)
    }
}

/// The lines of `s` that start at or after `from`.
pub open spec fn lines_from(s: Seq<char>, from: int) -> Seq<Seq<char>>
    decreases s.len() + 1 - from,
{
    if from < 0 || from >= s.len() {
        seq![]
    } else {
        let e = next_nl(s, from);
        if e < from || e > s.len() {
            seq![]
        } else {
            seq![s.subrange(from, e)] + lines_from(s, e + 1)
        }
    }
}

pub proof fn lemma_next_nl(s: Seq<char>, from: int)
    requires
        0 <= from <= s.len(),
    ensures
        from <= next_nl(s, from) <= s.len(),
        next_nl(s, from) < s.len() ==> s[next_nl(s, from)] == '\n',
        forall|k: int| from <= k < next_nl(s, from) ==> s[k] != '\n',
    decreases s.len() - from,
{
    if from < s.len() && s[from] != '\n' {
        lemma_next_nl(s, from + 1);
    }
}

/// The lines of a document, split at `\n`; a final newline ends the last
/// line rather than starting an empty one.
pub open spec fn lines_of(s: Seq<char>) -> Seq<Seq<char>> {
    lines_from(s, 0)
}

pub open spec fn ends_with_nl(s: Seq<char>) -> bool {
    s.len() > 0 && s.last() == '\n'
}

/// The lines joined by `\n`, with no newline after the last.
pub open spec fn join(ls: Seq<Seq<char>>) -> Seq<char>
    decreases ls.len(),
{
    if ls.len() == 0 {
        seq![]
    } else if ls.len() == 1 {
        ls[0]
    } else {
        ls[0] + seq!['\n'] + join(ls.drop_first())
    }
}

pub proof fn lemma_lead_len(l: Seq<char>)
    ensures
        lead_len(l) <= l.len(),
        forall|k: int| 0 <= k < lead_len(l) ==> is_ws(#[trigger] l[k]),
        lead_len(l) == l.len() || !is_ws(l[lead_len(l) as int]),
    decreases l.len(),
{
    if l.len() > 0 && is_ws(l[0]) {
        lemma_lead_len(l.drop_first());
        assert forall|k: int| 0 <= k < lead_len(l) implies is_ws(#[trigger] l[k]) by {
            if k > 0 {
                assert(l[k] == l.drop_first()[k - 1]);
            }
        }
    }
}

pub proof fn lemma_lead_len_exact(l: Seq<char>, n: nat)
    requires
        n <= l.len(),
        forall|k: int| 0 <= k < n ==> is_ws(#[trigger] l[k]),
        n == l.len() || !is_ws(l[n as int]),
    ensures
        lead_len(l) == n,
    decreases n,
{
    if n > 0 {
        let t = l.drop_first();
        assert forall|k: int| 0 <= k < n - 1 implies is_ws(#[trigger] t[k]) by {
            assert(t[k] == l[k + 1]);
        }
        if n - 1 < t.len() {
            assert(t[n - 1] == l[n as int]);
        }
        lemma_lead_len_exact(t, (n - 1) as nat);
    }
}

pub proof fn lemma_cols_bound(s: Seq<char>)
    ensures
        s.len() <= cols(s) <= 2 * s.len(),
    decreases s.len(),
{
    if s.len() > 0 {
        lemma_cols_bound(s.drop_last());
    }
}

pub proof fn lemma_cols_spaces(n: nat)
    ensures
        cols(spaces(n)) == n,
    decreases n,
{
    if n > 0 {
        assert(spaces(n).drop_last() =~= spaces((n - 1) as nat));
        lemma_cols_spaces((n - 1) as nat);
    }
}

/// The text holds no newline.
pub open spec fn no_nl(x: Seq<char>) -> bool {
    forall|i: int| 0 <= i < x.len() ==> x[i] != '\n'
}

pub proof fn lemma_next_nl_shift(p: Seq<char>, x: Seq<char>, i: int)
    requires
        0 <= i <= x.len(),
    ensures
        next_nl(p + x, p.len() + i) == p.len() + next_nl(x, i),
    decreases x.len() - i,
{
    if i < x.len() {
        assert((p + x)[p.len() + i] == x[i]);
        if x[i] != '\n' {
            lemma_next_nl_shift(p, x, i + 1);
        }
    }
}

pub proof fn lemma_lines_from_shift(p: Seq<char>, x: Seq<char>, i: int)
    requires
        0 <= i,
    ensures
        lines_from(p + x, p.len() + i) == lines_from(x, i),
    decreases x.len() + 1 - i,
{
    if i < x.len() {
        lemma_next_nl(x, i);
        lemma_next_nl_shift(p, x, i);
        let e = next_nl(x, i);
        assert((p + x).subrange(p.len() + i, p.len() + e) =~= x.subrange(i, e));
        lemma_lines_from_shift(p, x, e + 1);
        assert(p.len() + e + 1 == p.len() + (e + 1));
    }
}

/// Text without a newline, then a newline, then more: its first line is
/// the text.
pub proof fn lemma_lines_head(x: Seq<char>, y: Seq<char>)
    requires
        no_nl(x),
    ensures
        lines_from(x + seq!['\n'] + y, 0) == seq![x] + lines_from(y, 0),
{
    let t = x + seq!['\n'] + y;
    lemma_next_nl(t, 0);
    let e = next_nl(t, 0);
    assert(t[x.len() as int] == '\n');
    if e < x.len() {
        assert(t[e] == x[e]);
    }
    assert(e == x.len());
    assert(t.subrange(0, e) =~= x);
    assert(t =~= (x + seq!['\n']) + y);
    lemma_lines_from_shift(x + seq!['\n'], y, 0);
}

/// Text without a newline is one line, or none where it is empty.
pub proof fn lemma_lines_single(x: Seq<char>)
    requires
        no_nl(x),
    ensures
        lines_from(x, 0) == (if x.len() == 0 {
            seq![]
        } else {
            seq![x]
        }),
{
    if x.len() > 0 {
        lemma_next_nl(x, 0);
        let e = next_nl(x, 0);
        assert(e == x.len());
        assert(x.subrange(0, e) =~= x);
        assert(lines_from(x, e + 1) == Seq::<Seq<char>>::empty());
        assert(seq![x] + Seq::<Seq<char>>::empty() =~= seq![x]);
    } else {
        assert(lines_from(x, 0) =~= seq![]);
    }
}

/// Splitting joined lines gives them back; without a final newline an
/// empty last line is lost.
pub proof fn lemma_lines_of_join(ls: Seq<Seq<char>>)
    requires
        ls.len() > 0,
        forall|i: int| 0 <= i < ls.len() ==> no_nl(#[trigger] ls[i]),
    ensures
        lines_of(join(ls) + seq!['\n']) == ls,
        lines_of(join(ls)) == (if ls.last().len() == 0 {
            ls.drop_last()
        } else {
            ls
        }),
    decreases ls.len(),
{
    if ls.len() == 1 {
        assert(no_nl(ls[0]));
        lemma_lines_head(ls[0], seq![]);
        assert(ls[0] + seq!['\n'] =~= ls[0] + seq!['\n'] + seq![]);
        assert(lines_from(seq![], 0) =~= seq![]);
        assert(seq![ls[0]] =~= ls);
        lemma_lines_single(ls[0]);
        assert(ls.drop_last() =~= seq![]);
    } else {
        let rest = ls.drop_first();
        assert forall|i: int| 0 <= i < rest.len() implies no_nl(#[trigger] rest[i]) by {
            assert(rest[i] == ls[i + 1]);
        }
        lemma_lines_of_join(rest);
        assert(no_nl(ls[0]));
        assert(join(ls) == ls[0] + seq!['\n'] + join(rest));
        lemma_lines_head(ls[0], join(rest) + seq!['\n']);
        assert(join(ls) + seq!['\n'] =~= ls[0] + seq!['\n'] + (join(rest) + seq!['\n']));
        assert(seq![ls[0]] + rest =~= ls);
        lemma_lines_head(ls[0], join(rest));
        assert(rest.last() == ls.last());
        assert(seq![ls[0]] + rest.drop_last() =~= ls.drop_last());
    }
}

/// The lines of a text hold no newline.
pub proof fn lemma_lines_no_nl(s: Seq<char>, from: int)
    ensures
        forall|i: int| 0 <= i < lines_from(s, from).len() ==> no_nl(#[trigger] lines_from(s, from)[i]),
    decreases s.len() + 1 - from,
{
    if 0 <= from < s.len() {
        lemma_next_nl(s, from);
        let e = next_nl(s, from);
        lemma_lines_no_nl(s, e + 1);
        let ls = lines_from(s, from);
        assert forall|i: int| 0 <= i < ls.len() implies no_nl(#[trigger] ls[i]) by {
            if i == 0 {
                assert(ls[0] == s.subrange(from, e));
            } else {
                assert(ls[i] == lines_from(s, e + 1)[i - 1]);
            }
        }
    }
}

/// A non-empty text yields at least one line.
pub proof fn lemma_lines_nonempty(s: Seq<char>)
    ensures
        (lines_of(s).len() == 0) == (s.len() == 0),
{
    if s.len() > 0 {
        lemma_next_nl(s, 0);
    }
}

/// Whether `c` is whitespace in the sense of `is_ws`.
pub fn is_whitespace(c: char) -> (r: bool)
    ensures
        r == is_ws(c),
{
    let u = c as u32;
    (0x09 <= u && u <= 0x0d) || u == 0x20 || u == 0x85 || u == 0xa0 || u == 0x1680 || (0x2000
        <= u && u <= 0x200a) || u == 0x2028 || u == 0x2029 || u == 0x202f || u == 0x205f || u
        == 0x3000
}

/// The characters of a string, in order.
pub fn chars_of(s: &str) -> (r: Vec<char>)
    ensures
        r@ == s@,
{
    let mut r: Vec<char> = Vec::new();
    for c in it: s.chars()
        invariant
            r@ == it.seq().take(it.index() as int),
            it.seq() == s@,
    {
        r.push(c);
    }
    r
}

/// Index of the first newline at or after `from`, or the length.
pub fn find_newline(chars: &Vec<char>, from: usize) -> (r: usize)
    requires
        from <= chars.len(),
    ensures
        r as int == next_nl(chars@, from as int),
        from <= r <= chars.len(),
{
    let mut i = from;
    while i < chars.len() && chars[i] != '\n'
        invariant
            from <= i <= chars.len(),
            next_nl(chars@, from as int) == next_nl(chars@, i as int),
        decreases chars.len() - i,
    {
        i = i + 1;
    }
    i
}

/// The indentation of the line `chars[start..end]`: the number of its
/// leading whitespace characters, its depth in columns, and whether that
/// run holds a tab and whether it holds a space.
pub fn indentation(chars: &Vec<char>, start: usize, end: usize) -> (r: (usize, usize, bool, bool))
    requires
        start <= end <= chars.len(),
        chars.len() <= usize::MAX / 2,
    ensures
        ({
            let l = chars@.subrange(start as int, end as int);
            &&& r.0 == lead_len(l)
            &&& r.1 == depth(l)
            &&& r.2 == exists|k: int| 0 <= k < lead_len(l) && l[k] == '\t'
            &&& r.3 == exists|k: int| 0 <= k < lead_len(l) && l[k] == ' '
        }),
{
    let ghost l = chars@.subrange(start as int, end as int);
    let mut i = start;
    let mut cols_so_far: usize = 0;
    let mut tab = false;
    let mut space = false;
    while i < end && is_whitespace(chars[i])
        invariant
            start <= i <= end <= chars.len(),
            chars.len() <= usize::MAX / 2,
            l == chars@.subrange(start as int, end as int),
            forall|k: int| 0 <= k < i - start ==> is_ws(#[trigger] l[k]),
            cols_so_far == cols(l.take(i - start)),
            tab == exists|k: int| 0 <= k < i - start && l[k] == '\t',
            space == exists|k: int| 0 <= k < i - start && l[k] == ' ',
        decreases end - i,
    {
        proof {
            lemma_cols_bound(l.take(i - start));
            assert(l.take(i - start + 1).drop_last() =~= l.take(i - start));
        }
        let c = chars[i];
        assert(c == l[i - start]);
        if c == '\t' {
            cols_so_far = cols_so_far + 2;
            tab = true;
        } else {
            cols_so_far = cols_so_far + 1;
            if c == ' ' {
                space = true;
            }
        }
        i = i + 1;
    }
    proof {
        if i < end {
            assert(l[i - start] == chars@[i as int]);
        }
        lemma_lead_len_exact(l, (i - start) as nat);
    }
    (i - start, cols_so_far, tab, space)
}

/// Whether `chars[from..end]` starts with `p`.
pub fn starts_with_at(chars: &Vec<char>, from: usize, end: usize, p: &[char]) -> (r: bool)
    requires
        from <= end <= chars.len(),
    ensures
        r == starts_with(chars@.subrange(from as int, end as int), p@),
{
    let ghost s = chars@.subrange(from as int, end as int);
    if p.len() > end - from {
        return false;
    }
    let mut k: usize = 0;
    while k < p.len()
        invariant
            k <= p.len() <= end - from,
            from <= end <= chars.len(),
            s == chars@.subrange(from as int, end as int),
            s.take(k as int) == p@.take(k as int),
        decreases p.len() - k,
    {
        if chars[from + k] != p[k] {
            assert(s.take(p.len() as int)[k as int] != p@[k as int]);
            return false;
        }
        assert(s.take(k + 1) =~= p@.take(k + 1));
        k = k + 1;
    }
    assert(p@.take(p.len() as int) =~= p@);
    true
}

/// Whether `chars[from..end]` is shaped like a mapping key (see `is_key_like`).
pub fn key_like_at(chars: &Vec<char>, from: usize, end: usize) -> (r: bool)
    requires
        from <= end <= chars.len(),
    ensures
        r == is_key_like(chars@.subrange(from as int, end as int)),
{
    let ghost b = chars@.subrange(from as int, end as int);
    let mut i = from;
    while i < end
        invariant
            from <= i <= end <= chars.len(),
            b == chars@.subrange(from as int, end as int),
            forall|j: int| 0 <= j < i - from ==> !#[trigger] key_colon_at(b, j),
        decreases end - i,
    {
        if chars[i] == ':' && (i + 1 == end || is_whitespace(chars[i + 1])) {
            assert(key_colon_at(b, i - from));
            return true;
        }
        i = i + 1;
    }
    false
}

} // verus!
