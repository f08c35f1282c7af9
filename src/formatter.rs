//! The reformatting engine: indentation unit detection, the section scanner,
//! indentation rescaling and blank-line separation, in one pass over lines.

use vstd::prelude::*;

use crate::config::FormatterConfig;
use crate::error::FormatError;
use crate::text::{
    body, chars_of, depth, ends_with_nl, find_newline, indentation, is_blank, is_key_like,
    is_mixed, join, key_like_at, lemma_cols_bound, lemma_lead_len, lemma_next_nl, lines_from,
    lines_of, next_nl, spaces, starts_with, starts_with_at,
};

verus! {

/// The two kinds of section whose children are spaced apart.
#[derive(Debug, Clone, Copy, PartialEq, Eq, Structural)]
pub enum Kind {
    /// A `steps:` sequence, whose children are `- ` items.
    Steps,
    /// A `jobs:` mapping, whose children are keys.
    Jobs,
}

/// What the scanner knows of one kind of section.
pub struct Section {
    /// Inside an instance of the section.
    pub active: bool,
    /// Depth of the line that opened the section.
    pub opener: nat,
    /// Depth of the section's children, fixed by the first of them.
    pub sibling: Option<nat>,
    /// A child has been seen since the section was opened.
    pub seen_first: bool,
}

/// State carried from line to line.
pub struct Scan {
    pub steps: Section,
    pub jobs: Section,
    /// The line before was blank.
    pub prev_blank: bool,
}

/// The settings that the engine reads.
pub struct Style {
    /// Target columns per indentation level.
    pub width: nat,
    /// Separate steps by blank lines.
    pub steps: bool,
    /// Separate jobs by blank lines.
    pub jobs: bool,
}

pub open spec fn style_of(c: FormatterConfig) -> Style {
    Style { width: c.indent_size as nat, steps: c.separate_steps, jobs: c.separate_jobs }
}

pub open spec fn closed() -> Section {
    Section { active: false, opener: 0, sibling: None, seen_first: false }
}

pub open spec fn init_scan() -> Scan {
    Scan { steps: closed(), jobs: closed(), prev_blank: false }
}

/// The key that opens a section of the kind.
pub open spec fn key_of(k: Kind) -> Seq<char> {
    match k {
        Kind::Steps => seq!['s', 't', 'e', 'p', 's', ':'],
        Kind::Jobs => seq!['j', 'o', 'b', 's', ':'],
    }
}

/// The marker of a sequence item.
pub open spec fn item_marker() -> Seq<char> {
    seq!['-', ' ']
}

/// The body starts with the key and holds nothing after it but whitespace
/// or a comment, so the key opens a block on the lines below (`steps: []`
/// opens none).
pub open spec fn opens_block(b: Seq<char>, key: Seq<char>) -> bool {
    let rest = body(b.skip(key.len() as int));
    starts_with(b, key) && (rest.len() == 0 || rest[0] == '#')
}

/// The section after a non-blank line with body `b` at depth `d` has been
/// checked for the opening key.
pub open spec fn entered(k: Kind, s: Section, d: nat, b: Seq<char>) -> Section {
    if opens_block(b, key_of(k)) {
        Section { active: true, opener: d, sibling: None, seen_first: false }
    } else {
        s
    }
}

/// The line looks like a child of a section of the kind.
pub open spec fn has_shape(k: Kind, s: Section, d: nat, b: Seq<char>) -> bool {
    match k {
        Kind::Steps => starts_with(b, item_marker()),
        Kind::Jobs => b.len() > 0 && b[0] != '#' && b[0] != '-' && is_key_like(b) && (
        s.sibling is Some || d > s.opener),
    }
}

/// The line is a child of the open section of the kind.
pub open spec fn is_sibling(k: Kind, s: Section, d: nat, b: Seq<char>) -> bool {
    let s0 = entered(k, s, d, b);
    s0.active && has_shape(k, s0, d, b) && (s0.sibling is None || s0.sibling == Some(d))
}

/// The line is a child that follows an earlier child of the same section.
pub open spec fn wants_gap(k: Kind, s: Section, d: nat, b: Seq<char>) -> bool {
    is_sibling(k, s, d, b) && entered(k, s, d, b).seen_first
}

/// The section after a non-blank line with body `b` at depth `d`.
pub open spec fn advance(k: Kind, s: Section, d: nat, b: Seq<char>) -> Section {
    let s0 = entered(k, s, d, b);
    let sib = is_sibling(k, s, d, b);
    let s1 = if sib && s0.sibling is None {
        Section { sibling: Some(d), ..s0 }
    } else {
        s0
    };
    let leaves = s1.active && b[0] != '#' && s1.sibling is Some && d < s1.sibling->0;
    let s2 = if leaves {
        closed()
    } else {
        s1
    };
    if sib {
        Section { seen_first: true, ..s2 }
    } else {
        s2
    }
}

/// A blank line goes before `l`.
pub open spec fn gap_before(st: Scan, l: Seq<char>, style: Style) -> bool {
    &&& !is_blank(l)
    &&& !st.prev_blank
    &&& (style.steps && wants_gap(Kind::Steps, st.steps, depth(l), body(l))) || (style.jobs
        && wants_gap(Kind::Jobs, st.jobs, depth(l), body(l)))
}

pub open spec fn next_scan(st: Scan, l: Seq<char>) -> Scan {
    if is_blank(l) {
        Scan { prev_blank: true, ..st }
    } else {
        Scan {
            steps: advance(Kind::Steps, st.steps, depth(l), body(l)),
            jobs: advance(Kind::Jobs, st.jobs, depth(l), body(l)),
            prev_blank: false,
        }
    }
}

/// A depth of `d` source columns, in units of `unit`, as target columns.
pub open spec fn rescale(d: nat, unit: nat, width: nat) -> nat {
    if d == 0 || unit == 0 {
        0
    } else {
        (d / unit) * width
    }
}

/// The line as written out: blank lines lose their whitespace, others get
/// rescaled indentation before their body.
pub open spec fn render(l: Seq<char>, unit: nat, width: nat) -> Seq<char> {
    if is_blank(l) {
        seq![]
    } else {
        spaces(rescale(depth(l), unit, width)) + body(l)
    }
}

/// The output lines for `l`: an optional separator, then the line.
pub open spec fn emitted(st: Scan, l: Seq<char>, unit: nat, style: Style) -> Seq<Seq<char>> {
    if gap_before(st, l, style) {
        seq![seq![], render(l, unit, style.width)]
    } else {
        seq![render(l, unit, style.width)]
    }
}

/// The state after the first `n` lines, and the output lines written so far.
pub open spec fn scan(ls: Seq<Seq<char>>, unit: nat, style: Style, n: nat) -> (Scan, Seq<
    Seq<char>,
>)
    decreases n,
{
    if n == 0 {
        (init_scan(), seq![])
    } else {
        let p = scan(ls, unit, style, (n - 1) as nat);
        (next_scan(p.0, ls[n - 1]), p.1 + emitted(p.0, ls[n - 1], unit, style))
    }
}

pub open spec fn spec_gcd(a: nat, b: nat) -> nat
    decreases b,
{
    if b == 0 {
        a
    } else {
        spec_gcd(b, a % b)
    }
}

/// Greatest common divisor of the depths of the first `n` non-blank lines
/// (0 when all of them are at depth 0).
pub open spec fn gcd_upto(ls: Seq<Seq<char>>, n: nat) -> nat
    decreases n,
{
    if n == 0 {
        0
    } else {
        spec_gcd(
            gcd_upto(ls, (n - 1) as nat),
            if is_blank(ls[n - 1]) {
                0
            } else {
                depth(ls[n - 1])
            },
        )
    }
}

/// The document's own indentation unit; 2 where nothing is indented.
pub open spec fn indent_unit(ls: Seq<Seq<char>>) -> nat {
    let g = gcd_upto(ls, ls.len());
    if g == 0 {
        2
    } else {
        g
    }
}

/// Index of the first of the first `n` lines whose indentation mixes tabs
/// and spaces.
pub open spec fn first_mixed_upto(ls: Seq<Seq<char>>, n: nat) -> Option<nat>
    decreases n,
{
    if n == 0 {
        None
    } else {
        match first_mixed_upto(ls, (n - 1) as nat) {
            Some(k) => Some(k),
            None => if is_mixed(ls[n - 1]) {
                Some((n - 1) as nat)
            } else {
                None
            },
        }
    }
}

/// The output lines for a whole document.
pub open spec fn formatted_lines(ls: Seq<Seq<char>>, style: Style) -> Seq<Seq<char>> {
    scan(ls, indent_unit(ls), style, ls.len()).1
}

/// The reformatted document, or the 1-based number of the first line whose
/// indentation mixes tabs and spaces.
pub open spec fn reformat(s: Seq<char>, style: Style) -> Result<Seq<char>, nat> {
    let ls = lines_of(s);
    match first_mixed_upto(ls, ls.len()) {
        Some(k) => Err(k + 1),
        None => Ok(
            join(formatted_lines(ls, style)) + if ends_with_nl(s) {
                seq!['\n']
            } else {
                seq![]
            },
        ),
    }
}

/// The largest indentation the output can hold fits in a `usize`.
pub open spec fn fits(len: nat, width: nat) -> bool {
    2 * len * (width + 1) <= usize::MAX
}

pub proof fn lemma_join_push(ls: Seq<Seq<char>>, x: Seq<char>)
    ensures
        ls.len() == 0 ==> join(ls.push(x)) == x,
        ls.len() > 0 ==> join(ls.push(x)) == join(ls) + seq!['\n'] + x,
    decreases ls.len(),
{
    if ls.len() > 1 {
        lemma_join_push(ls.drop_first(), x);
        assert(ls.push(x).drop_first() =~= ls.drop_first().push(x));
        assert(join(ls.push(x)) == ls[0] + seq!['\n'] + join(ls.drop_first().push(x)));
        assert(join(ls) == ls[0] + seq!['\n'] + join(ls.drop_first()));
        assert(join(ls.push(x)) =~= join(ls) + seq!['\n'] + x);
    } else if ls.len() == 1 {
        assert(ls.push(x).drop_first() =~= seq![x]);
        assert(join(seq![x]) == x);
        assert(join(ls.push(x)) =~= join(ls) + seq!['\n'] + x);
    } else {
        assert(ls.push(x) =~= seq![x]);
    }
}

pub proof fn lemma_scan_len(ls: Seq<Seq<char>>, unit: nat, style: Style, n: nat)
    ensures
        scan(ls, unit, style, n).1.len() >= n,
    decreases n,
{
    if n > 0 {
        lemma_scan_len(ls, unit, style, (n - 1) as nat);
    }
}

pub proof fn lemma_first_mixed_stable(ls: Seq<Seq<char>>, n: nat, m: nat)
    requires
        n <= m,
        first_mixed_upto(ls, n) is Some,
    ensures
        first_mixed_upto(ls, m) == first_mixed_upto(ls, n),
    decreases m,
{
    if m > n {
        lemma_first_mixed_stable(ls, n, (m - 1) as nat);
    }
}

/// One step of the line walk: the line that starts at `pos` is the next
/// line of the document, and the walk goes on after it.
proof fn lemma_next_line(s: Seq<char>, ls: Seq<Seq<char>>, n: nat, pos: int)
    requires
        ls.take(n as int) + lines_from(s, pos) == ls,
        0 <= pos < s.len(),
        n <= ls.len(),
    ensures
        n < ls.len(),
        ls[n as int] == s.subrange(pos, next_nl(s, pos)),
        ls.take(n + 1int) + lines_from(s, next_nl(s, pos) + 1) == ls,
{
    lemma_next_nl(s, pos);
    let e = next_nl(s, pos);
    assert(lines_from(s, pos) == seq![s.subrange(pos, e)] + lines_from(s, e + 1));
    assert(ls[n as int] == (ls.take(n as int) + lines_from(s, pos))[n as int]);
    assert(ls.take(n + 1int) =~= ls.take(n as int).push(s.subrange(pos, e)));
    assert(ls.take(n + 1int) + lines_from(s, e + 1) =~= ls.take(n as int) + lines_from(s, pos));
}

/// Relies on `String::push`: appends one character.
#[verifier::external_body]
fn push_char(s: &mut String, c: char)
    ensures
        final(s)@ == old(s)@.push(c),
{
    s.push(c);
}

/// What the scanner knows of one kind of section, in machine integers.
struct Tracker {
    active: bool,
    opener: usize,
    sibling: Option<usize>,
    seen_first: bool,
}

impl View for Tracker {
    type V = Section;

    closed spec fn view(&self) -> Section {
        Section {
            active: self.active,
            opener: self.opener as nat,
            sibling: match self.sibling {
                Some(x) => Some(x as nat),
                None => None,
            },
            seen_first: self.seen_first,
        }
    }
}

impl Tracker {
    fn closed() -> (r: Tracker)
        ensures
            r@ == closed(),
    {
        Tracker { active: false, opener: 0, sibling: None, seen_first: false }
    }

    /// Takes in the non-blank line whose body is `chars[from..end]`, at
    /// `depth`; returns whether it is a child that follows another.
    fn advance(
        &mut self,
        kind: Kind,
        key: &Vec<char>,
        marker: &Vec<char>,
        chars: &Vec<char>,
        depth: usize,
        from: usize,
        end: usize,
    ) -> (gap: bool)
        requires
            from < end <= chars.len(),
            chars.len() <= usize::MAX / 2,
            key@ == key_of(kind),
            marker@ == item_marker(),
        ensures
            gap == wants_gap(kind, old(self)@, depth as nat, chars@.subrange(from as int, end as int)),
            final(self)@ == advance(kind, old(self)@, depth as nat, chars@.subrange(from as int, end as int)),
    {
        let ghost b = chars@.subrange(from as int, end as int);
        assert(b[0] == chars@[from as int]);
        let mut opens = false;
        if starts_with_at(chars, from, end, key.as_slice()) {
            let after = from + key.len();
            let (lead, _, _, _) = indentation(chars, after, end);
            proof {
                let t = b.skip(key@.len() as int);
                assert(t =~= chars@.subrange(after as int, end as int));
                lemma_lead_len(t);
                if after + lead < end {
                    assert(body(t)[0] == chars@[after + lead]);
                }
            }
            opens = after + lead == end || chars[after + lead] == '#';
        }
        if opens {
            self.active = true;
            self.opener = depth;
            self.sibling = None;
            self.seen_first = false;
        }
        let shape = match kind {
            Kind::Steps => starts_with_at(chars, from, end, marker.as_slice()),
            Kind::Jobs => chars[from] != '#' && chars[from] != '-' && key_like_at(chars, from, end)
                && (match self.sibling {
                Some(_) => true,
                None => depth > self.opener,
            }),
        };
        let sib = self.active && shape && match self.sibling {
            None => true,
            Some(s) => s == depth,
        };
        let gap = sib && self.seen_first;
        if sib && self.sibling.is_none() {
            self.sibling = Some(depth);
        }
        let leaves = self.active && chars[from] != '#' && match self.sibling {
            Some(s) => depth < s,
            None => false,
        };
        if leaves {
            *self = Tracker::closed();
        }
        if sib {
            self.seen_first = true;
        }
        gap
    }
}

/// Greatest common divisor.
fn gcd(a: usize, b: usize) -> (r: usize)
    ensures
        r == spec_gcd(a as nat, b as nat),
    decreases b,
{
    if b == 0 {
        a
    } else {
        gcd(b, a % b)
    }
}

/// Detects the indentation unit of the source: the greatest common divisor
/// of the depths of its indented non-blank lines, or 2 where none is.
fn detect_indent_size(content: &str) -> (r: usize)
    requires
        content@.len() <= usize::MAX / 2,
    ensures
        r == indent_unit(lines_of(content@)),
        r >= 1,
{
    let chars = chars_of(content);
    let ghost ls = lines_of(chars@);
    let mut min_indent: usize = 0;
    let mut pos: usize = 0;
    let mut line_num: usize = 0;
    while pos < chars.len()
        invariant
            chars@ == content@,
            chars.len() <= usize::MAX / 2,
            ls == lines_of(chars@),
            pos <= chars.len() + 1,
            line_num <= pos,
            line_num <= ls.len(),
            ls.take(line_num as int) + lines_from(chars@, pos as int) == ls,
            min_indent == gcd_upto(ls, line_num as nat),
        decreases chars.len() + 1 - pos,
    {
        let end = find_newline(&chars, pos);
        proof {
            lemma_next_line(chars@, ls, line_num as nat, pos as int);
        }
        let (lead, indent, _, _) = indentation(&chars, pos, end);
        let ghost l = chars@.subrange(pos as int, end as int);
        let ghost g = min_indent as nat;
        proof {
            lemma_lead_len(l);
            assert(body(l).len() == l.len() - lead);
            assert(gcd_upto(ls, (line_num + 1) as nat) == spec_gcd(
                g,
                if is_blank(l) {
                    0
                } else {
                    depth(l)
                },
            ));
            assert(spec_gcd(g, 0) == g);
        }
        if lead < end - pos && indent > 0 {
            if min_indent == 0 {
                proof {
                    assert(0nat % (indent as nat) == 0);
                    assert(spec_gcd(indent as nat, 0) == indent);
                    assert(spec_gcd(0, indent as nat) == spec_gcd(indent as nat, 0nat % (indent as nat)));
                }
                min_indent = indent;
            } else {
                min_indent = gcd(min_indent, indent);
            }
        }
        pos = end + 1;
        line_num = line_num + 1;
    }
    proof {
        assert(ls.take(line_num as int) =~= ls);
    }
    if min_indent == 0 {
        2
    } else {
        min_indent
    }
}

/// Maps a depth in source columns to target columns: its level in source
/// units, times the target width.
fn normalize_indent(current: usize, source_size: usize, target_size: usize) -> (r: usize)
    requires
        source_size > 0 ==> (current / source_size) * target_size <= usize::MAX,
    ensures
        r == rescale(current as nat, source_size as nat, target_size as nat),
{
    if current == 0 || source_size == 0 {
        return 0;
    }
    let level = current / source_size;
    level * target_size
}

/// Reformats a document: rescales its indentation to `config.indent_size`
/// and puts a blank line before each step and job that follows another,
/// where the configuration asks for it.
pub fn format_string(content: &str, config: &FormatterConfig) -> (r: Result<String, FormatError>)
    requires
        fits(content@.len(), config.indent_size as nat),
    ensures
        match reformat(content@, style_of(*config)) {
            Ok(t) => r matches Ok(s) && s@ == t,
            Err(k) => r == Err::<String, FormatError>(
                FormatError::MixedIndentation { line: k as usize },
            ),
        },
{
    proof {
        assert(2 * content@.len() * (config.indent_size + 1) >= 2 * content@.len()) by (nonlinear_arith);
    }
    let source_indent = detect_indent_size(content);
    let chars = chars_of(content);
    let ghost ls = lines_of(chars@);
    let ghost style = style_of(*config);
    let steps_key: Vec<char> = vec!['s', 't', 'e', 'p', 's', ':'];
    let jobs_key: Vec<char> = vec!['j', 'o', 'b', 's', ':'];
    let marker: Vec<char> = vec!['-', ' '];
    assert(steps_key@ =~= key_of(Kind::Steps));
    assert(jobs_key@ =~= key_of(Kind::Jobs));
    assert(marker@ =~= item_marker());
    let mut output = String::new();
    let mut steps = Tracker::closed();
    let mut jobs = Tracker::closed();
    let mut prev_blank = false;
    let mut first_line = true;
    let mut pos: usize = 0;
    let mut line_num: usize = 0;
    while pos < chars.len()
        invariant
            chars@ == content@,
            fits(chars.len() as nat, config.indent_size as nat),
            chars.len() <= usize::MAX / 2,
            ls == lines_of(chars@),
            style == style_of(*config),
            source_indent == indent_unit(ls),
            source_indent >= 1,
            steps_key@ == key_of(Kind::Steps),
            jobs_key@ == key_of(Kind::Jobs),
            marker@ == item_marker(),
            pos <= chars.len() + 1,
            line_num <= pos,
            line_num <= ls.len(),
            ls.take(line_num as int) + lines_from(chars@, pos as int) == ls,
            first_mixed_upto(ls, line_num as nat) is None,
            scan(ls, source_indent as nat, style, line_num as nat).0 == (Scan {
                steps: steps@,
                jobs: jobs@,
                prev_blank,
            }),
            output@ == join(scan(ls, source_indent as nat, style, line_num as nat).1),
            first_line == (line_num == 0),
        decreases chars.len() + 1 - pos,
    {
        let end = find_newline(&chars, pos);
        let ghost l = chars@.subrange(pos as int, end as int);
        let ghost before = scan(ls, source_indent as nat, style, line_num as nat);
        proof {
            lemma_next_line(chars@, ls, line_num as nat, pos as int);
            lemma_scan_len(ls, source_indent as nat, style, line_num as nat);
        }
        let (lead, depth, tab, space) = indentation(&chars, pos, end);
        if tab && space {
            proof {
                lemma_first_mixed_stable(ls, (line_num + 1) as nat, ls.len());
            }
            return Err(FormatError::MixedIndentation { line: line_num + 1 });
        }
        proof {
            lemma_lead_len(l);
            assert(body(l) =~= chars@.subrange(pos + lead, end as int));
        }
        let is_blank = lead == end - pos;
        let mut gap = false;
        if !is_blank {
            let g_steps = steps.advance(Kind::Steps, &steps_key, &marker, &chars, depth, pos + lead, end);
            let g_jobs = jobs.advance(Kind::Jobs, &jobs_key, &marker, &chars, depth, pos + lead, end);
            gap = !prev_blank && ((config.separate_steps && g_steps) || (config.separate_jobs && g_jobs));
        } else {
            proof {
                assert(body(l).len() == 0);
            }
        }
        assert(gap == gap_before(before.0, l, style));
        if gap {
            push_char(&mut output, '\n');
        }
        proof {
            lemma_cols_bound(l.take(lead as int));
            assert(depth <= 2 * chars.len());
            let w = config.indent_size as nat;
            assert((depth as nat / source_indent as nat) * w <= (depth as nat) * w)
                by (nonlinear_arith)
                requires
                    source_indent >= 1,
            ;
            assert((depth as nat) * w <= 2 * chars.len() * (w + 1)) by (nonlinear_arith)
                requires
                    depth <= 2 * chars.len(),
            ;
        }
        let normalized_indent = normalize_indent(depth, source_indent, config.indent_size);
        let ghost base = output@;
        if !first_line {
            push_char(&mut output, '\n');
        }
        first_line = false;
        let ghost start_of_line = output@;
        if !is_blank {
            let mut i: usize = 0;
            while i < normalized_indent
                invariant
                    i <= normalized_indent,
                    output@ == start_of_line + spaces(i as nat),
                decreases normalized_indent - i,
            {
                push_char(&mut output, ' ');
                assert(spaces(i as nat).push(' ') =~= spaces((i + 1) as nat));
                i = i + 1;
            }
            let mut k: usize = pos + lead;
            while k < end
                invariant
                    pos + lead <= k <= end <= chars.len(),
                    output@ == start_of_line + spaces(normalized_indent as nat) + chars@.subrange(pos + lead, k as int),
                decreases end - k,
            {
                push_char(&mut output, chars[k]);
                assert(chars@.subrange(pos + lead, k as int).push(chars@[k as int]) =~= chars@.subrange(pos + lead, k + 1));
                k = k + 1;
            }
        }
        proof {
            let r = render(l, source_indent as nat, style.width);
            assert(output@ =~= start_of_line + r);
            let out = before.1;
            if gap {
                lemma_join_push(out, seq![]);
                lemma_join_push(out.push(seq![]), r);
                assert(out + emitted(before.0, l, source_indent as nat, style) =~= out.push(seq![]).push(r));
            } else {
                lemma_join_push(out, r);
                assert(out + emitted(before.0, l, source_indent as nat, style) =~= out.push(r));
            }
        }
        prev_blank = is_blank;
        pos = end + 1;
        line_num = line_num + 1;
    }
    proof {
        assert(ls.take(line_num as int) =~= ls);
    }
    if chars.len() > 0 && chars[chars.len() - 1] == '\n' {
        push_char(&mut output, '\n');
    }
    Ok(output)
}

} // verus!
