//! Properties of the engine, stated over its model and proved.

use vstd::prelude::*;

use crate::formatter::{
    emitted, entered, first_mixed_upto, formatted_lines, gap_before, indent_unit, is_sibling,
    lemma_first_mixed_stable, reformat, render, rescale, scan, wants_gap, Kind, Scan,
    Section, Style,
};
use crate::text::{body, depth, is_blank, is_mixed, lines_of, spaces, starts_with};

verus! {

/// No two neighbouring lines are both blank.
pub open spec fn no_blank_pair(ls: Seq<Seq<char>>) -> bool {
    forall|k: int| 0 <= k && k + 1 < ls.len() ==> !(is_blank(#[trigger] ls[k]) && is_blank(ls[k + 1]))
}

/// No two neighbouring lines are both empty.
pub open spec fn no_empty_pair(ls: Seq<Seq<char>>) -> bool {
    forall|k: int| 0 <= k && k + 1 < ls.len() ==> !(#[trigger] ls[k].len() == 0 && ls[k + 1].len() == 0)
}

/// The state of the section of kind `k`.
pub open spec fn section_of(st: Scan, k: Kind) -> Section {
    match k {
        Kind::Steps => st.steps,
        Kind::Jobs => st.jobs,
    }
}

pub proof fn lemma_rescale(d: nat, unit: nat, width: nat)
    requires
        unit > 0,
    ensures
        rescale(d, unit, width) == (d / unit) * width,
{
    if d == 0 {
        assert(0nat / unit == 0) by (nonlinear_arith)
            requires
                unit > 0,
        ;
    }
}

/// A non-blank line renders to a non-empty line, a blank one to an empty one.
pub proof fn lemma_render_empty(l: Seq<char>, unit: nat, width: nat)
    ensures
        (render(l, unit, width).len() == 0) == is_blank(l),
{
}

/// Blank lines never follow each other in the output unless they did in
/// the source: the engine adds at most one blank line in a row, and only
/// after a non-blank one.
pub proof fn law_no_double_blanks(s: Seq<char>, style: Style)
    requires
        no_blank_pair(lines_of(s)),
    ensures
        no_empty_pair(formatted_lines(lines_of(s), style)),
{
    let ls = lines_of(s);
    lemma_no_double_blanks_upto(ls, indent_unit(ls), style, ls.len());
}

proof fn lemma_no_double_blanks_upto(ls: Seq<Seq<char>>, unit: nat, style: Style, n: nat)
    requires
        no_blank_pair(ls),
        n <= ls.len(),
    ensures
        no_empty_pair(scan(ls, unit, style, n).1),
        n > 0 ==> scan(ls, unit, style, n).1.len() > 0,
        n > 0 ==> scan(ls, unit, style, n).0.prev_blank == is_blank(ls[n - 1]),
        n > 0 ==> (scan(ls, unit, style, n).1.last().len() == 0) == is_blank(ls[n - 1]),
        n == 0 ==> !scan(ls, unit, style, n).0.prev_blank,
    decreases n,
{
    if n > 0 {
        let m = (n - 1) as nat;
        lemma_no_double_blanks_upto(ls, unit, style, m);
        let p = scan(ls, unit, style, m);
        let l = ls[m as int];
        let r = render(l, unit, style.width);
        lemma_render_empty(l, unit, style.width);
        let out = p.1 + emitted(p.0, l, unit, style);
        assert(scan(ls, unit, style, n).1 == out);
        assert forall|k: int| 0 <= k && k + 1 < out.len() implies !(#[trigger] out[k].len() == 0
            && out[k + 1].len() == 0) by {
            if k + 1 < p.1.len() {
                assert(out[k] == p.1[k] && out[k + 1] == p.1[k + 1]);
            } else if k + 1 == p.1.len() {
                assert(out[k] == p.1.last());
                if gap_before(p.0, l, style) {
                    assert(!p.0.prev_blank);
                } else {
                    assert(out[k + 1] == r);
                    if m > 0 {
                        assert(!(is_blank(ls[m - 1]) && is_blank(ls[m as int])));
                    }
                }
            } else {
                assert(gap_before(p.0, l, style));
                assert(out[k + 1] == r);
            }
        }
    }
}

/// The first child of a section never gets a blank line before it, even
/// where separation is on.
pub proof fn law_first_sibling(s: Seq<char>, style: Style, n: nat, k: Kind)
    requires
        n < lines_of(s).len(),
        !is_blank(lines_of(s)[n as int]),
        is_sibling(
            k,
            section_of(scan(lines_of(s), indent_unit(lines_of(s)), style, n).0, k),
            depth(lines_of(s)[n as int]),
            body(lines_of(s)[n as int]),
        ),
        !entered(
            k,
            section_of(scan(lines_of(s), indent_unit(lines_of(s)), style, n).0, k),
            depth(lines_of(s)[n as int]),
            body(lines_of(s)[n as int]),
        ).seen_first,
    ensures
        ({
            let ls = lines_of(s);
            let unit = indent_unit(ls);
            let st = scan(ls, unit, style, n).0;
            &&& !gap_before(st, ls[n as int], style)
            &&& emitted(st, ls[n as int], unit, style) == seq![
                render(ls[n as int], unit, style.width),
            ]
        }),
{
    let ls = lines_of(s);
    let unit = indent_unit(ls);
    let st = scan(ls, unit, style, n).0;
    let l = ls[n as int];
    let b = body(l);
    let d = depth(l);
    let other = match k {
        Kind::Steps => Kind::Jobs,
        Kind::Jobs => Kind::Steps,
    };
    assert(b.len() > 0);
    if starts_with(b, seq!['-', ' ']) {
        assert(b.take(2)[0] == b[0]);
    }
    assert(!is_sibling(other, section_of(st, other), d, b));
    assert(!wants_gap(other, section_of(st, other), d, b));
}

/// Every non-blank output line is the body of a non-blank source line,
/// indented by that line's depth in source units times the target width.
pub proof fn law_indent(s: Seq<char>, style: Style)
    ensures
        ({
            let ls = lines_of(s);
            let out = formatted_lines(ls, style);
            forall|j: int|
                0 <= j < out.len() && #[trigger] out[j].len() > 0 ==> exists|i: int|
                    0 <= i < ls.len() && !is_blank(ls[i]) && out[j] == spaces(
                        (depth(#[trigger] ls[i]) / indent_unit(ls)) * style.width,
                    ) + body(ls[i])
        }),
{
    let ls = lines_of(s);
    lemma_indent_upto(ls, style, ls.len());
}

proof fn lemma_indent_upto(ls: Seq<Seq<char>>, style: Style, n: nat)
    requires
        n <= ls.len(),
    ensures
        ({
            let out = scan(ls, indent_unit(ls), style, n).1;
            forall|j: int|
                0 <= j < out.len() && #[trigger] out[j].len() > 0 ==> exists|i: int|
                    0 <= i < ls.len() && !is_blank(ls[i]) && out[j] == spaces(
                        (depth(#[trigger] ls[i]) / indent_unit(ls)) * style.width,
                    ) + body(ls[i])
        }),
    decreases n,
{
    let u = indent_unit(ls);
    if n > 0 {
        let m = (n - 1) as nat;
        lemma_indent_upto(ls, style, m);
        let p = scan(ls, u, style, m);
        let l = ls[m as int];
        let out = scan(ls, u, style, n).1;
        assert(out == p.1 + emitted(p.0, l, u, style));
        assert forall|j: int| 0 <= j < out.len() && #[trigger] out[j].len() > 0 implies exists|
            i: int,
        |
            0 <= i < ls.len() && !is_blank(ls[i]) && out[j] == spaces(
                (depth(#[trigger] ls[i]) / u) * style.width,
            ) + body(ls[i]) by {
            if j < p.1.len() {
                assert(out[j] == p.1[j]);
            } else {
                let r = render(l, u, style.width);
                assert(out[j] == r);
                lemma_render_empty(l, u, style.width);
                lemma_rescale(depth(l), u, style.width);
                assert(r == spaces((depth(ls[m as int]) / u) * style.width) + body(ls[m as int]));
            }
        }
    }
}

/// A line whose indentation mixes tabs and spaces, with none before it,
/// makes reformatting fail with that line's number, counted from 1.
pub proof fn law_mixed_rejected(s: Seq<char>, style: Style, i: nat)
    requires
        i < lines_of(s).len(),
        is_mixed(lines_of(s)[i as int]),
        forall|j: int| 0 <= j < i ==> !is_mixed(#[trigger] lines_of(s)[j]),
    ensures
        reformat(s, style) == Err::<Seq<char>, nat>(i + 1),
{
    let ls = lines_of(s);
    lemma_no_mixed_before(ls, i);
    assert(first_mixed_upto(ls, i + 1) == Some(i));
    lemma_first_mixed_stable(ls, i + 1, ls.len());
}

pub proof fn lemma_no_mixed_before(ls: Seq<Seq<char>>, n: nat)
    requires
        n <= ls.len(),
        forall|j: int| 0 <= j < n ==> !is_mixed(#[trigger] ls[j]),
    ensures
        first_mixed_upto(ls, n) is None,
    decreases n,
{
    if n > 0 {
        lemma_no_mixed_before(ls, (n - 1) as nat);
    }
}

} // verus!
