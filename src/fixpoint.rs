//! Reformatting is idempotent: the output of the engine is a fixed point
//! of it.

use vstd::arithmetic::div_mod::{
    lemma_div_by_multiple, lemma_fundamental_div_mod, lemma_fundamental_div_mod_converse,
    lemma_mod_multiples_basic,
};
use vstd::prelude::*;

use crate::formatter::{
    lemma_join_push, lemma_scan_len, advance, closed, emitted, entered, first_mixed_upto, formatted_lines, gap_before, gcd_upto,
    indent_unit, init_scan, is_sibling, next_scan, reformat, render, rescale, scan, spec_gcd,
    wants_gap, Kind, Scan, Section, Style,
};
use crate::laws::{lemma_no_mixed_before, lemma_rescale};
use crate::text::{
    body, depth, ends_with_nl, is_blank, is_mixed, join, lead_len, lemma_cols_spaces,
    lemma_lead_len, lemma_lead_len_exact, lemma_lines_no_nl, lemma_lines_nonempty,
    lemma_lines_of_join, lines_of, no_nl, spaces,
};

verus! {

/// Scaling both arguments scales their greatest common divisor.
pub proof fn lemma_gcd_scale(a: nat, b: nat, k: nat)
    requires
        k > 0,
    ensures
        spec_gcd(a * k, b * k) == spec_gcd(a, b) * k,
    decreases b,
{
    if b == 0 {
        assert(b * k == 0);
    } else {
        assert(b * k > 0) by (nonlinear_arith)
            requires
                b > 0,
                k > 0,
        ;
        let q = a / b;
        let r = a % b;
        lemma_fundamental_div_mod(a as int, b as int);
        assert(a * k == q * (b * k) + r * k) by (nonlinear_arith)
            requires
                a == b * q + r,
        ;
        assert(r * k < b * k) by (nonlinear_arith)
            requires
                r < b,
                k > 0,
        ;
        lemma_fundamental_div_mod_converse((a * k) as int, (b * k) as int, q as int, (r * k) as int);
        assert((a * k) % (b * k) == r * k);
        lemma_gcd_scale(b, r, k);
    }
}

/// The greatest common divisor is 0 only for two zeros, and otherwise
/// divides both arguments.
pub proof fn lemma_gcd_divides(a: nat, b: nat)
    ensures
        spec_gcd(a, b) == 0 ==> a == 0 && b == 0,
        spec_gcd(a, b) > 0 ==> a % spec_gcd(a, b) == 0 && b % spec_gcd(a, b) == 0,
    decreases b,
{
    if b == 0 {
        if a > 0 {
            lemma_mod_multiples_basic(1, a as int);
            lemma_mod_multiples_basic(0, a as int);
        }
    } else {
        let r = a % b;
        lemma_gcd_divides(b, r);
        let g = spec_gcd(a, b);
        assert(g == spec_gcd(b, r));
        assert(g > 0);
        lemma_fundamental_div_mod(a as int, b as int);
        lemma_fundamental_div_mod(b as int, g as int);
        lemma_fundamental_div_mod(r as int, g as int);
        let q = a / b;
        let m = b / g;
        let n = r / g;
        assert(a == (q * m + n) * g) by (nonlinear_arith)
            requires
                a == b * q + r,
                b == g * m,
                r == g * n,
        ;
        lemma_mod_multiples_basic((q * m + n) as int, g as int);
    }
}

/// Divisibility is transitive.
pub proof fn lemma_divides_trans(a: nat, b: nat, c: nat)
    requires
        b > 0,
        c > 0,
        a % b == 0,
        b % c == 0,
    ensures
        a % c == 0,
{
    lemma_fundamental_div_mod(a as int, b as int);
    lemma_fundamental_div_mod(b as int, c as int);
    let x = a / b;
    let y = b / c;
    assert(a == (x * y) * c) by (nonlinear_arith)
        requires
            a == b * x,
            b == c * y,
    ;
    lemma_mod_multiples_basic((x * y) as int, c as int);
}

/// On multiples of `unit`, going to levels and back to columns of `width`
/// keeps the order.
pub proof fn lemma_levels_order(a: nat, c: nat, unit: nat, width: nat)
    requires
        unit > 0,
        width > 0,
        a % unit == 0,
        c % unit == 0,
    ensures
        ((a / unit) * width < (c / unit) * width) == (a < c),
        ((a / unit) * width == (c / unit) * width) == (a == c),
{
    lemma_fundamental_div_mod(a as int, unit as int);
    lemma_fundamental_div_mod(c as int, unit as int);
    let x = a / unit;
    let y = c / unit;
    assert((a < c) == (x < y) && (a == c) == (x == y)) by (nonlinear_arith)
        requires
            a == unit * x,
            c == unit * y,
            unit > 0,
    ;
    assert((x * width < y * width) == (x < y) && (x * width == y * width) == (x == y))
        by (nonlinear_arith)
        requires
            width > 0,
    ;
}

/// A number of levels times the width, divided by the width, is the
/// number of levels.
pub proof fn lemma_levels_back(x: nat, width: nat)
    requires
        width > 0,
    ensures
        (x * width) / width == x,
{
    lemma_div_by_multiple(x as int, width as int);
}

/// A depth of the source, as levels of `unit`, in columns of `width`.
pub open spec fn lift(d: nat, unit: nat, width: nat) -> nat {
    (d / unit) * width
}

pub open spec fn lift_section(s: Section, unit: nat, width: nat) -> Section {
    Section {
        active: s.active,
        opener: lift(s.opener, unit, width),
        sibling: match s.sibling {
            Some(x) => Some(lift(x, unit, width)),
            None => None,
        },
        seen_first: s.seen_first,
    }
}

pub open spec fn lift_scan(st: Scan, unit: nat, width: nat) -> Scan {
    Scan {
        steps: lift_section(st.steps, unit, width),
        jobs: lift_section(st.jobs, unit, width),
        prev_blank: st.prev_blank,
    }
}

/// The depths that the section holds are multiples of `unit`.
pub open spec fn on_grid(s: Section, unit: nat) -> bool {
    s.opener % unit == 0 && (s.sibling is Some ==> s.sibling->0 % unit == 0)
}

/// What a non-blank line becomes: indented by its lifted depth, with the
/// same body, and no tab or newline.
pub proof fn lemma_rendered(l: Seq<char>, unit: nat, width: nat)
    requires
        unit > 0,
    ensures
        ({
            let r = render(l, unit, width);
            &&& is_blank(r) == is_blank(l)
            &&& !is_mixed(r)
            &&& !is_blank(l) ==> body(r) == body(l) && depth(r) == lift(depth(l), unit, width)
            &&& no_nl(l) ==> no_nl(r)
        }),
{
    let r = render(l, unit, width);
    if is_blank(l) {
        assert(r.len() == 0);
        assert(lead_len(r) == 0);
        assert(body(r) =~= r);
    } else {
        lemma_rescale(depth(l), unit, width);
        let x = lift(depth(l), unit, width);
        let b = body(l);
        lemma_lead_len(l);
        assert(b[0] == l[lead_len(l) as int]);
        assert(r == spaces(x) + b);
        assert forall|k: int| 0 <= k < x implies #[trigger] r[k] == ' ' by {
            assert(r[k] == spaces(x)[k]);
        }
        assert(r[x as int] == b[0]);
        lemma_lead_len_exact(r, x);
        assert(body(r) =~= b);
        assert(r.take(x as int) =~= spaces(x));
        lemma_cols_spaces(x);
        if no_nl(l) {
            assert forall|i: int| 0 <= i < r.len() implies r[i] != '\n' by {
                if i >= x {
                    assert(r[i] == l[lead_len(l) + (i - x)]);
                }
            }
        }
    }
}

/// Going to target columns commutes with one section step.
pub proof fn lemma_advance_lifted(k: Kind, s: Section, d: nat, b: Seq<char>, unit: nat, width: nat)
    requires
        unit > 0,
        width > 0,
        on_grid(s, unit),
        d % unit == 0,
        b.len() > 0,
    ensures
        advance(k, lift_section(s, unit, width), lift(d, unit, width), b) == lift_section(
            advance(k, s, d, b),
            unit,
            width,
        ),
        wants_gap(k, lift_section(s, unit, width), lift(d, unit, width), b) == wants_gap(k, s, d, b),
        on_grid(advance(k, s, d, b), unit),
{
    let ls = lift_section(s, unit, width);
    let ld = lift(d, unit, width);
    let s0 = entered(k, s, d, b);
    assert(entered(k, ls, ld, b) == lift_section(s0, unit, width));
    lemma_levels_order(d, s0.opener, unit, width);
    if s0.sibling is Some {
        lemma_levels_order(d, s0.sibling->0, unit, width);
    }
    assert(0nat / unit == 0) by (nonlinear_arith)
        requires
            unit > 0,
    ;
    assert(lift_section(closed(), unit, width) == closed());
    assert(0nat % unit == 0) by (nonlinear_arith)
        requires
            unit > 0,
    ;
    assert(is_sibling(k, ls, ld, b) == is_sibling(k, s, d, b));
}

/// One source line, run through the engine a second time: the output
/// lines for it come out unchanged, and the state follows the lifted one.
pub proof fn lemma_step_lifted(st: Scan, l: Seq<char>, unit: nat, style: Style, unit2: nat)
    requires
        unit > 0,
        style.width > 0,
        on_grid(st.steps, unit),
        on_grid(st.jobs, unit),
        !is_blank(l) ==> depth(l) % unit == 0,
        !is_blank(l) ==> rescale(lift(depth(l), unit, style.width), unit2, style.width) == lift(
            depth(l),
            unit,
            style.width,
        ),
    ensures
        ({
            let w = style.width;
            let r = render(l, unit, w);
            let lst = lift_scan(st, unit, w);
            let after = lift_scan(next_scan(st, l), unit, w);
            &&& on_grid(next_scan(st, l).steps, unit)
            &&& on_grid(next_scan(st, l).jobs, unit)
            &&& !gap_before(st, l, style) ==> emitted(lst, r, unit2, style) == seq![r]
                && next_scan(lst, r) == after
            &&& gap_before(st, l, style) ==> emitted(lst, seq![], unit2, style) == seq![
                Seq::<char>::empty(),
            ] && emitted(next_scan(lst, seq![]), r, unit2, style) == seq![r] && next_scan(
                next_scan(lst, seq![]),
                r,
            ) == after
        }),
{
    let w = style.width;
    let r = render(l, unit, w);
    let lst = lift_scan(st, unit, w);
    lemma_rendered(l, unit, w);
    let e: Seq<char> = seq![];
    assert(lead_len(e) == 0);
    assert(body(e) =~= e);
    assert(render(e, unit2, w) =~= e);
    if is_blank(l) {
        assert(r =~= e);
    } else {
        let d = depth(l);
        let b = body(l);
        lemma_advance_lifted(Kind::Steps, st.steps, d, b, unit, w);
        lemma_advance_lifted(Kind::Jobs, st.jobs, d, b, unit, w);
        lemma_rescale(d, unit, w);
        assert(r == spaces(lift(d, unit, w)) + b);
        assert(!is_blank(r) && depth(r) == lift(d, unit, w) && body(r) == b);
        assert(render(r, unit2, w) == spaces(lift(d, unit, w)) + b);
        assert(render(r, unit2, w) == r);
        assert(gap_before(lst, r, style) == gap_before(st, l, style));
        let mid = next_scan(lst, e);
        assert(mid.steps == lst.steps && mid.jobs == lst.jobs && mid.prev_blank);
        assert(!gap_before(mid, r, style));
    }
}

pub proof fn lemma_scan_prefix(a: Seq<Seq<char>>, b: Seq<Seq<char>>, unit: nat, style: Style, n: nat)
    requires
        n <= a.len(),
    ensures
        scan(a + b, unit, style, n) == scan(a, unit, style, n),
    decreases n,
{
    if n > 0 {
        lemma_scan_prefix(a, b, unit, style, (n - 1) as nat);
        assert((a + b)[n - 1] == a[n - 1]);
    }
}

pub proof fn lemma_gcd_prefix(a: Seq<Seq<char>>, b: Seq<Seq<char>>, n: nat)
    requires
        n <= a.len(),
    ensures
        gcd_upto(a + b, n) == gcd_upto(a, n),
    decreases n,
{
    if n > 0 {
        lemma_gcd_prefix(a, b, (n - 1) as nat);
        assert((a + b)[n - 1] == a[n - 1]);
    }
}

/// The engine's output, run through it again with a unit under which every
/// lifted depth stays put, comes out unchanged.
pub proof fn lemma_second_pass(ls: Seq<Seq<char>>, style: Style, unit: nat, unit2: nat, n: nat)
    requires
        n <= ls.len(),
        unit > 0,
        style.width > 0,
        forall|i: int|
            0 <= i < ls.len() && !is_blank(#[trigger] ls[i]) ==> depth(ls[i]) % unit == 0
                && rescale(lift(depth(ls[i]), unit, style.width), unit2, style.width) == lift(
                depth(ls[i]),
                unit,
                style.width,
            ),
    ensures
        ({
            let p = scan(ls, unit, style, n);
            &&& scan(p.1, unit2, style, p.1.len()) == (lift_scan(p.0, unit, style.width), p.1)
            &&& on_grid(p.0.steps, unit)
            &&& on_grid(p.0.jobs, unit)
        }),
    decreases n,
{
    let w = style.width;
    if n == 0 {
        assert(0nat / unit == 0) by (nonlinear_arith)
            requires
                unit > 0,
        ;
        assert(0nat % unit == 0) by (nonlinear_arith)
            requires
                unit > 0,
        ;
        assert((0nat / unit) * w == 0) by (nonlinear_arith)
            requires
                unit > 0,
        ;
        assert(lift_section(closed(), unit, w) == closed());
        assert(lift_scan(init_scan(), unit, w) == init_scan());
    } else {
        let m = (n - 1) as nat;
        lemma_second_pass(ls, style, unit, unit2, m);
        let p = scan(ls, unit, style, m);
        let l = ls[m as int];
        let o = p.1;
        let r = render(l, unit, w);
        let e: Seq<char> = seq![];
        lemma_step_lifted(p.0, l, unit, style, unit2);
        let ex = emitted(p.0, l, unit, style);
        let o2 = o + ex;
        assert(scan(ls, unit, style, n) == (next_scan(p.0, l), o2));
        lemma_scan_prefix(o, ex, unit2, style, o.len());
        let q = scan(o2, unit2, style, o.len());
        assert(q == (lift_scan(p.0, unit, w), o));
        if gap_before(p.0, l, style) {
            assert(ex == seq![e, r]);
            assert(o2[o.len() as int] == e);
            assert(o2[o.len() + 1int] == r);
            let q1 = scan(o2, unit2, style, o.len() + 1);
            assert(q1 == (next_scan(q.0, e), o + seq![e]));
            let q2 = scan(o2, unit2, style, o.len() + 2);
            assert(q2 == (next_scan(q1.0, r), q1.1 + seq![r]));
            assert(q1.1 + seq![r] =~= o2);
        } else {
            assert(ex == seq![r]);
            assert(o2[o.len() as int] == r);
            let q1 = scan(o2, unit2, style, o.len() + 1);
            assert(q1 == (next_scan(q.0, r), o + seq![r]));
        }
    }
}

/// The unit divides the greatest common divisor of every prefix; where
/// nothing is indented, every prefix has 0.
proof fn lemma_prefix_gcd_on_grid(ls: Seq<Seq<char>>, j: nat)
    requires
        j <= ls.len(),
    ensures
        gcd_upto(ls, j) % indent_unit(ls) == 0,
        gcd_upto(ls, ls.len()) == 0 ==> gcd_upto(ls, j) == 0,
    decreases ls.len() - j,
{
    let u = indent_unit(ls);
    let g = gcd_upto(ls, ls.len());
    if j == ls.len() {
        if g > 0 {
            lemma_mod_multiples_basic(1, g as int);
        } else {
            assert(0nat % 2 == 0);
        }
    } else {
        lemma_prefix_gcd_on_grid(ls, j + 1);
        let x = gcd_upto(ls, j + 1);
        let e = if is_blank(ls[j as int]) {
            0
        } else {
            depth(ls[j as int])
        };
        assert(x == spec_gcd(gcd_upto(ls, j), e));
        lemma_gcd_divides(gcd_upto(ls, j), e);
        if x == 0 {
            assert(0nat % u == 0) by (nonlinear_arith)
                requires
                    u > 0,
            ;
        } else {
            lemma_divides_trans(gcd_upto(ls, j), x, u);
        }
    }
}

/// Every non-blank depth is a multiple of the unit, and 0 where nothing is
/// indented.
proof fn lemma_depth_on_grid(ls: Seq<Seq<char>>, i: int)
    requires
        0 <= i < ls.len(),
        !is_blank(ls[i]),
    ensures
        depth(ls[i]) % indent_unit(ls) == 0,
        gcd_upto(ls, ls.len()) == 0 ==> depth(ls[i]) == 0,
{
    let u = indent_unit(ls);
    lemma_prefix_gcd_on_grid(ls, (i + 1) as nat);
    let x = gcd_upto(ls, (i + 1) as nat);
    assert(x == spec_gcd(gcd_upto(ls, i as nat), depth(ls[i])));
    lemma_gcd_divides(gcd_upto(ls, i as nat), depth(ls[i]));
    if x == 0 {
        assert(0nat % u == 0) by (nonlinear_arith)
            requires
                u > 0,
        ;
    } else {
        lemma_divides_trans(depth(ls[i]), x, u);
    }
}

/// Lifting a greatest common divisor of multiples of the unit.
proof fn lemma_gcd_lift(g: nat, d: nat, unit: nat, width: nat)
    requires
        unit > 0,
        width > 0,
        g % unit == 0,
        d % unit == 0,
    ensures
        spec_gcd(lift(g, unit, width), lift(d, unit, width)) == lift(spec_gcd(g, d), unit, width),
{
    let a = g / unit;
    let b = d / unit;
    lemma_fundamental_div_mod(g as int, unit as int);
    lemma_fundamental_div_mod(d as int, unit as int);
    assert(a * unit == g && b * unit == d) by (nonlinear_arith)
        requires
            g == unit * a,
            d == unit * b,
    ;
    lemma_gcd_scale(a, b, width);
    lemma_gcd_scale(a, b, unit);
    lemma_div_by_multiple(spec_gcd(a, b) as int, unit as int);
}

/// The greatest common divisor of the output depths is the lifted one of
/// the source depths.
proof fn lemma_out_gcd(ls: Seq<Seq<char>>, style: Style, n: nat)
    requires
        n <= ls.len(),
        style.width > 0,
    ensures
        ({
            let o = scan(ls, indent_unit(ls), style, n).1;
            gcd_upto(o, o.len()) == lift(gcd_upto(ls, n), indent_unit(ls), style.width)
        }),
    decreases n,
{
    let u = indent_unit(ls);
    let w = style.width;
    if n == 0 {
        assert((0nat / u) * w == 0) by (nonlinear_arith)
            requires
                u > 0,
        ;
    } else {
        let m = (n - 1) as nat;
        lemma_out_gcd(ls, style, m);
        let p = scan(ls, u, style, m);
        let l = ls[m as int];
        let o = p.1;
        let ex = emitted(p.0, l, u, style);
        let o2 = o + ex;
        let r = render(l, u, w);
        let g = gcd_upto(ls, m);
        lemma_gcd_prefix(o, ex, o.len());
        lemma_rendered(l, u, w);
        lemma_prefix_gcd_on_grid(ls, m);
        let e: Seq<char> = seq![];
        assert(lead_len(e) == 0);
        assert(body(e) =~= e);
        let k = (o.len() + ex.len() - 1) as nat;
        assert(o2[k as int] == r);
        if ex.len() == 2 {
            assert(o2[o.len() as int] == e);
            assert(gcd_upto(o2, o.len() + 1) == spec_gcd(gcd_upto(o2, o.len()), 0));
        }
        assert(gcd_upto(o2, k) == lift(g, u, w));
        if is_blank(l) {
            assert(gcd_upto(ls, n) == spec_gcd(g, 0));
        } else {
            lemma_depth_on_grid(ls, m as int);
            lemma_gcd_lift(g, depth(l), u, w);
        }
    }
}

/// The output lines hold no tab-and-space indentation, and no newline where
/// the source lines hold none.
proof fn lemma_out_lines(ls: Seq<Seq<char>>, unit: nat, style: Style, n: nat)
    requires
        n <= ls.len(),
        unit > 0,
    ensures
        ({
            let o = scan(ls, unit, style, n).1;
            &&& forall|j: int| 0 <= j < o.len() ==> !is_mixed(#[trigger] o[j])
            &&& (forall|i: int| 0 <= i < ls.len() ==> no_nl(#[trigger] ls[i])) ==> forall|j: int|
                0 <= j < o.len() ==> no_nl(#[trigger] o[j])
        }),
    decreases n,
{
    if n > 0 {
        let m = (n - 1) as nat;
        lemma_out_lines(ls, unit, style, m);
        let p = scan(ls, unit, style, m);
        let l = ls[m as int];
        lemma_rendered(l, unit, style.width);
        let e: Seq<char> = seq![];
        assert(lead_len(e) == 0);
        assert(!is_mixed(e));
        let o = scan(ls, unit, style, n).1;
        assert(o == p.1 + emitted(p.0, l, unit, style));
        assert forall|j: int| 0 <= j < o.len() implies !is_mixed(#[trigger] o[j]) by {
            if j < p.1.len() {
                assert(o[j] == p.1[j]);
            }
        }
        if forall|i: int| 0 <= i < ls.len() ==> no_nl(#[trigger] ls[i]) {
            assert(no_nl(l));
            assert forall|j: int| 0 <= j < o.len() implies no_nl(#[trigger] o[j]) by {
                if j < p.1.len() {
                    assert(o[j] == p.1[j]);
                }
            }
        }
    }
}

/// The output lines, run through the engine again, come out unchanged:
/// the second pass finds the target width as its unit (or nothing
/// indented), and no line indented with tabs and spaces.
proof fn lemma_output_is_fixed(ls: Seq<Seq<char>>, style: Style)
    requires
        style.width > 0,
    ensures
        ({
            let o = formatted_lines(ls, style);
            &&& formatted_lines(o, style) == o
            &&& first_mixed_upto(o, o.len()) is None
            &&& o.len() > 0 && o.last().len() == 0 ==> formatted_lines(o.drop_last(), style)
                == o.drop_last() && first_mixed_upto(o.drop_last(), o.drop_last().len()) is None
        }),
{
    let u = indent_unit(ls);
    let w = style.width;
    let n = ls.len();
    let o = formatted_lines(ls, style);
    let g = gcd_upto(ls, n);
    lemma_out_gcd(ls, style, n);
    let u2 = indent_unit(o);
    if g == 0 {
        assert((0nat / u) * w == 0) by (nonlinear_arith)
            requires
                u > 0,
        ;
        assert(u2 == 2);
    } else {
        assert(u == g);
        assert((g / u) * w == w) by (nonlinear_arith)
            requires
                u == g,
                g > 0,
        ;
        assert(lift(g, u, w) == w);
        assert(u2 == w);
    }
    assert forall|i: int| 0 <= i < ls.len() && !is_blank(#[trigger] ls[i]) implies depth(ls[i]) % u
        == 0 && rescale(lift(depth(ls[i]), u, w), u2, w) == lift(depth(ls[i]), u, w) by {
        lemma_depth_on_grid(ls, i);
        let d = depth(ls[i]);
        if g == 0 {
            assert((0nat / u) * w == 0) by (nonlinear_arith)
                requires
                    u > 0,
            ;
        } else {
            lemma_levels_back(d / u, w);
        }
    }
    lemma_second_pass(ls, style, u, u2, n);
    lemma_out_lines(ls, u, style, n);
    lemma_no_mixed_before(o, o.len());
    if o.len() > 0 && o.last().len() == 0 {
        let k = (o.len() - 1) as nat;
        let d = o.drop_last();
        assert(o =~= d + seq![o.last()]);
        lemma_scan_prefix(d, seq![o.last()], u2, style, k);
        lemma_gcd_prefix(d, seq![o.last()], k);
        let e: Seq<char> = seq![];
        assert(o.last() =~= e);
        assert(lead_len(e) == 0);
        assert(body(e) =~= e);
        assert(gcd_upto(o, o.len()) == spec_gcd(gcd_upto(o, k), 0));
        assert(indent_unit(d) == u2);
        let q = scan(o, u2, style, k);
        assert(scan(o, u2, style, o.len()).1 == q.1 + emitted(q.0, e, u2, style));
        assert(emitted(q.0, e, u2, style) == seq![e]);
        assert(q.1 =~= d);
        assert forall|j: int| 0 <= j < d.len() implies !is_mixed(#[trigger] d[j]) by {
            assert(d[j] == o[j]);
        }
        lemma_no_mixed_before(d, d.len());
    }
}

/// Reformatting a reformatted document changes nothing.
pub proof fn law_idempotent(s: Seq<char>, style: Style)
    requires
        style.width > 0,
        reformat(s, style) is Ok,
    ensures
        reformat(reformat(s, style)->Ok_0, style) == reformat(s, style),
{
    let ls = lines_of(s);
    let o = formatted_lines(ls, style);
    let nl: Seq<char> = if ends_with_nl(s) {
        seq!['\n']
    } else {
        seq![]
    };
    let r = join(o) + nl;
    assert(reformat(s, style) == Ok::<Seq<char>, nat>(r));
    lemma_output_is_fixed(ls, style);
    lemma_lines_nonempty(s);
    lemma_lines_no_nl(s, 0);
    lemma_out_lines(ls, indent_unit(ls), style, ls.len());
    lemma_scan_len(ls, indent_unit(ls), style, ls.len());
    if ls.len() == 0 {
        assert(o.len() == 0);
        assert(r =~= seq![]);
        lemma_lines_nonempty(r);
    } else {
        lemma_lines_of_join(o);
        if ends_with_nl(s) {
            assert(lines_of(r) == o);
            assert(ends_with_nl(r));
        } else if o.last().len() != 0 {
            assert(r =~= join(o));
            assert(lines_of(r) == o);
            assert(no_nl(o.last()));
            lemma_join_last(o);
            assert(!ends_with_nl(r));
        } else if o.len() == 1 {
            assert(r =~= seq![]);
            lemma_lines_nonempty(r);
            assert(lines_of(r).len() == 0);
        } else {
            let d = o.drop_last();
            assert(o =~= d.push(o.last()));
            lemma_join_push(d, o.last());
            assert(r =~= join(d) + seq!['\n']);
            assert forall|i: int| 0 <= i < d.len() implies no_nl(#[trigger] d[i]) by {
                assert(d[i] == o[i]);
            }
            lemma_lines_of_join(d);
            assert(lines_of(r) == d);
            assert(ends_with_nl(r));
        }
    }
}

/// The joined text ends as its last line does.
proof fn lemma_join_last(ls: Seq<Seq<char>>)
    requires
        ls.len() > 0,
        ls.last().len() > 0,
    ensures
        join(ls).len() > 0 && join(ls).last() == ls.last().last(),
    decreases ls.len(),
{
    if ls.len() > 1 {
        lemma_join_last(ls.drop_first());
    }
}

} // verus!
