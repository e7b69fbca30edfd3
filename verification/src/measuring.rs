//! Lengths that are too short or too long, and drafts that only grew, told in whole numbers.

use crate::binary64::{
    difference, exponent, fraction, is_below, lemma_exact, lemma_units_order, nearest, one, product,
    quantum, reaches, significand, units, unsigned, HIDDEN, INFINITE, SIGNIFICANDS, UNIT_SHIFT,
};
use crate::checks::{
    compared_heads, compared_titles, document_sections, first_head, issues_of, missing_in,
    missing_text, scaled_length, section_issues, section_length_issue, total_length_issue,
};
use crate::contest::{Section, Spec};
use crate::loop_run::{growth, warnings_of};
use crate::nearness::{law_rounding_keeps_order, lemma_error, lemma_upper};
use crate::range::{lemma_at_most, lemma_integer, lemma_zero_units};
use crate::render::fixed;
use crate::score::Scored;
use crate::signed::lemma_nearest_range;
use crate::text::{decimal, two_digits};
use vstd::arithmetic::div_mod::lemma_fundamental_div_mod;
use vstd::arithmetic::power2::{
    lemma2_to64, lemma2_to64_rest, lemma_pow2_adds, lemma_pow2_pos, lemma_pow2_strictly_increases,
    pow2,
};
use vstd::prelude::*;
use vstd::string::*;

verus! {

/// Two to the 40th: the longest text of which the bounds are stated in whole numbers.
pub const LONG: u64 = 0x100_0000_0000;

/// A rounded quotient is at least the exact one, but for a little.
pub(crate) proof fn lemma_lower(n: nat, d: nat)
    requires
        d > 0,
        nearest(n, d) < INFINITE,
    ensures
        (2 * HIDDEN - 1) * n <= 2 * HIDDEN * (units(nearest(n, d)) * d) + HIDDEN * d,
{
    lemma_error(n, d);
    let h = HIDDEN as nat;
    let e = quantum(n / d);
    let x = d * pow2(e);
    let v = units(nearest(n, d)) * d;
    if e == 0 {
        lemma2_to64();
        assert(x == d);
        assert((2 * h - 1) * n <= 2 * h * v + h * d) by (nonlinear_arith)
            requires
                2 * n <= 2 * v + d,
                h > 0,
        ;
    } else {
        assert((2 * h - 1) * n <= 2 * h * v + h * d) by (nonlinear_arith)
            requires
                2 * n <= 2 * v + x,
                h * x <= n,
                h > 0,
                d > 0,
        ;
    }
}

pub(crate) proof fn lemma_one_is_huge()
    ensures
        one() >= 0x100_0000_0000_0000 * (HIDDEN * HIDDEN),
{
    lemma2_to64();
    lemma2_to64_rest();
    lemma_pow2_adds(52, 52);
    lemma_pow2_adds(104, 56);
    lemma_pow2_strictly_increases(160, UNIT_SHIFT as nat);
    let a = pow2(52);
    let b = pow2(56);
    assert(pow2(160) == (a * a) * b);
    assert(a == HIDDEN);
    assert(b == 0x100_0000_0000_0000);
}

proof fn lemma_half_a_unit(g: nat, t: nat, v: nat, w: nat, d: nat, u: nat)
    requires
        0x20_0000_0000_0000 * g <= 0x20_0000_0000_0001 * t + 0x10_0000_0000_0000 * d,
        0x1f_ffff_ffff_ffff * t <= 0x20_0000_0000_0000 * g + 0x10_0000_0000_0000 * d,
        0x20_0000_0000_0000 * t <= 0x20_0000_0000_0001 * v + 0x10_0000_0000_0000 * w,
        0x1f_ffff_ffff_ffff * v <= 0x20_0000_0000_0000 * t + 0x10_0000_0000_0000 * w,
        v <= 0x1400_0000_0000 * u,
        w <= 0xa00_0000_0000,
        d <= 10,
        u >= 0x100_0000_0000_0000_0000_0000_0000,
    ensures
        2 * g <= 2 * v + u,
        2 * g >= 2 * v - u,
{
    assert(8 * t <= 8 * v + u);
    assert(8 * v <= 8 * t + u);
    assert(t <= 0x1400_0000_0001 * u);
}

proof fn lemma_scaled_units(c: nat, n: nat, d: nat)
    requires
        c <= LONG,
        0 < n <= 2 * d,
        d <= 10,
    ensures
        product(fraction(c, 1), fraction(n, d)).bits < INFINITE,
        2 * (d * units(product(fraction(c, 1), fraction(n, d)).bits as nat)) <= (2 * (n * c) + 1)
            * one(),
        2 * (d * units(product(fraction(c, 1), fraction(n, d)).bits as nat)) >= (2 * (n * c) - 1)
            * one(),
{
    let u = one();
    let h = HIDDEN as nat;
    lemma_pow2_pos(UNIT_SHIFT as nat);
    lemma_one_is_huge();
    lemma_integer(c);
    assert(n * u <= (2 * u) * d) by (nonlinear_arith)
        requires
            n <= 2 * d,
    ;
    lemma_at_most(n * u, d, 2);
    lemma_upper(n * u, d);
    lemma_lower(n * u, d);
    let q = units(fraction(n, d).bits as nat);
    let a = units(fraction(c, 1).bits as nat);
    assert(a == c * u);
    assert(a * q <= ((2 * c) * u) * u) by (nonlinear_arith)
        requires
            a == c * u,
            q <= 2 * u,
    ;
    lemma_at_most(a * q, u, 2 * c);
    lemma_upper(a * q, u);
    lemma_lower(a * q, u);
    let p = units(product(fraction(c, 1), fraction(n, d)).bits as nat);
    assert(2 * h * p <= (2 * h + 1) * (c * q) + h) by (nonlinear_arith)
        requires
            2 * h * (p * u) <= (2 * h + 1) * (a * q) + h * u,
            a == c * u,
            u > 0,
    {
        assert((2 * h + 1) * (a * q) == u * ((2 * h + 1) * (c * q)));
        assert(2 * h * (p * u) == u * (2 * h * p));
        assert(h * u == u * h);
        assert(u * (2 * h * p) <= u * ((2 * h + 1) * (c * q) + h));
    }
    assert((2 * h - 1) * (c * q) <= 2 * h * p + h) by (nonlinear_arith)
        requires
            (2 * h - 1) * (a * q) <= 2 * h * (p * u) + h * u,
            a == c * u,
            u > 0,
    {
        assert((2 * h - 1) * (a * q) == u * ((2 * h - 1) * (c * q)));
        assert(2 * h * (p * u) == u * (2 * h * p));
        assert(h * u == u * h);
        assert(u * ((2 * h - 1) * (c * q)) <= u * (2 * h * p + h));
    }
    let r = q * d;
    let t = c * r;
    let m = n * c;
    assert(2 * h * (d * p) <= (2 * h + 1) * t + h * d) by (nonlinear_arith)
        requires
            2 * h * p <= (2 * h + 1) * (c * q) + h,
            t == c * (q * d),
    {
        assert(d * (2 * h * p) <= d * ((2 * h + 1) * (c * q) + h));
    }
    assert((2 * h - 1) * t <= 2 * h * (d * p) + h * d) by (nonlinear_arith)
        requires
            (2 * h - 1) * (c * q) <= 2 * h * p + h,
            t == c * (q * d),
    {
        assert(d * ((2 * h - 1) * (c * q)) <= d * (2 * h * p + h));
    }
    assert(2 * h * t <= (2 * h + 1) * (m * u) + h * (c * d)) by (nonlinear_arith)
        requires
            2 * h * r <= (2 * h + 1) * (n * u) + h * d,
            t == c * r,
            m == n * c,
    {
        assert(c * (2 * h * r) <= c * ((2 * h + 1) * (n * u) + h * d));
        assert(c * ((2 * h + 1) * (n * u)) == (2 * h + 1) * ((n * c) * u));
        assert(c * (h * d) == h * (c * d));
        assert(c * (2 * h * r) == 2 * h * (c * r));
    }
    assert((2 * h - 1) * (m * u) <= 2 * h * t + h * (c * d)) by (nonlinear_arith)
        requires
            (2 * h - 1) * (n * u) <= 2 * h * r + h * d,
            t == c * r,
            m == n * c,
    {
        assert(c * ((2 * h - 1) * (n * u)) <= c * (2 * h * r + h * d));
        assert(c * ((2 * h - 1) * (n * u)) == (2 * h - 1) * ((n * c) * u));
        assert(c * (h * d) == h * (c * d));
        assert(c * (2 * h * r) == 2 * h * (c * r));
    }
    // the numbers that are left over are small
    assert(m <= 0x1400_0000_0000) by (nonlinear_arith)
        requires
            m == n * c,
            n <= 20,
            c <= 0x100_0000_0000,
    ;
    assert(c * d <= 0xa00_0000_0000) by (nonlinear_arith)
        requires
            d <= 10,
            c <= 0x100_0000_0000,
    ;
    let g = d * p;
    let v = m * u;
    let w = c * d;
    assert(h == 0x10_0000_0000_0000);
    assert(v <= 0x1400_0000_0000 * u) by (nonlinear_arith)
        requires
            v == m * u,
            m <= 0x1400_0000_0000,
    ;
    assert(u >= 0x100_0000_0000_0000 * (0x10_0000_0000_0000 * 0x10_0000_0000_0000));
    assert(0x20_0000_0000_0000 * g <= 0x20_0000_0000_0001 * t + 0x10_0000_0000_0000 * d
        && 0x1f_ffff_ffff_ffff * t <= 0x20_0000_0000_0000 * g + 0x10_0000_0000_0000 * d
        && 0x20_0000_0000_0000 * t <= 0x20_0000_0000_0001 * v + 0x10_0000_0000_0000 * w
        && 0x1f_ffff_ffff_ffff * v <= 0x20_0000_0000_0000 * t + 0x10_0000_0000_0000 * w)
        by (nonlinear_arith)
        requires
            2 * h * g <= (2 * h + 1) * t + h * d,
            (2 * h - 1) * t <= 2 * h * g + h * d,
            2 * h * t <= (2 * h + 1) * v + h * w,
            (2 * h - 1) * v <= 2 * h * t + h * w,
            h == 0x10_0000_0000_0000,
    ;
    lemma_half_a_unit(g, t, v, w, d, u);
    assert((2 * m + 1) * u == 2 * v + u) by (nonlinear_arith)
        requires
            v == m * u,
    ;
    assert((2 * m - 1) * u == 2 * v - u) by (nonlinear_arith)
        requires
            v == m * u,
    ;
}

/// A share of a length, computed in binary64 and cut to an integer, is the share cut to an integer,
/// or where it is whole, perhaps one less.
pub proof fn law_scaled_length(c: usize, n: nat, d: nat)
    requires
        c <= LONG,
        2 * c <= usize::MAX,
        0 < n <= 2 * d,
        d <= 10,
    ensures
        n * c - d <= d * scaled_length(c, n, d) <= n * c,
{
    let u = one();
    let k = c as nat;
    lemma_pow2_pos(UNIT_SHIFT as nat);
    lemma_scaled_units(k, n, d);
    let p = units(product(fraction(k, 1), fraction(n, d)).bits as nat);
    let l = p / u;
    lemma_fundamental_div_mod(p as int, u as int);
    assert(d * l <= n * k) by (nonlinear_arith)
        requires
            2 * (d * p) <= (2 * (n * k) + 1) * u,
            p == u * l + p % u,
            p % u >= 0,
            u > 0,
            d > 0,
    {
        assert(d * p >= d * (u * l));
        assert(d * (u * l) == (d * l) * u);
        if d * l > n * k {
            assert((d * l) * u >= (n * k + 1) * u);
            assert(2 * ((n * k + 1) * u) == (2 * (n * k) + 1) * u + u);
        }
    }
    assert(n * k - d <= d * l) by (nonlinear_arith)
        requires
            2 * (d * p) >= (2 * (n * k) - 1) * u,
            p == u * l + p % u,
            p % u < u,
            u > 0,
            d > 0,
    {
        assert(d * p <= d * (u * l) + d * u);
        assert(d * (u * l) == (d * l) * u);
        if d * l < n * k - d {
            assert((d * l + d + 1) * u <= (n * k) * u);
            assert((d * l + d + 1) * u == (d * l) * u + d * u + u);
            assert(2 * ((n * k) * u) == (2 * (n * k) - 1) * u + u);
        }
    }
    assert(l <= usize::MAX) by (nonlinear_arith)
        requires
            d * l <= n * k,
            n <= 2 * d,
            2 * k <= usize::MAX,
            d > 0,
    {
        assert(n * k <= (2 * d) * k);
        assert((2 * d) * k == d * (2 * k));
    }
}

/// What is said of a section that is too short.
pub open spec fn too_short(s: Section, n: nat) -> Seq<char> {
    "'"@ + s.title@ + "' too short: "@ + decimal(n) + " chars (recommended "@ + decimal(
        s.chars as nat,
    ) + " chars) → reinforce with evidence/examples"@
}

/// What is said of a section that is too long.
pub open spec fn too_long(s: Section, n: nat) -> Seq<char> {
    "'"@ + s.title@ + "' too long: "@ + decimal(n) + " chars (recommended "@ + decimal(
        s.chars as nat,
    ) + " chars) → condense"@
}

/// A section is too short below three fifths of the recommended length, too long above nine fifths
/// of it, and neither in between; on a bound, rounding decides. Without a recommended length it is
/// neither.
pub proof fn law_section_length(s: Section, n: nat)
    requires
        s.chars <= LONG,
        2 * s.chars <= usize::MAX,
    ensures
        s.chars == 0 ==> section_length_issue(s, n) == Seq::<Seq<char>>::empty(),
        5 * n < 3 * s.chars - 5 ==> section_length_issue(s, n) == seq![too_short(s, n)],
        3 * s.chars <= 5 * n <= 9 * s.chars - 5 ==> section_length_issue(s, n) == Seq::<
            Seq<char>,
        >::empty(),
        5 * n > 9 * s.chars && s.chars > 0 ==> section_length_issue(s, n) == seq![too_long(s, n)],
{
    law_scaled_length(s.chars, 3, 5);
    law_scaled_length(s.chars, 9, 5);
}

/// A document is too short below seven tenths of the target, too long above thirteen tenths of it,
/// and neither in between; on a bound, rounding decides. Without a target it is neither.
pub proof fn law_total_length(target: usize, n: nat)
    requires
        target <= LONG,
        2 * target <= usize::MAX,
    ensures
        target == 0 ==> total_length_issue(target, n) == Seq::<Seq<char>>::empty(),
        10 * n < 7 * target - 10 ==> total_length_issue(target, n) == seq![
            "Overall length too short: "@ + decimal(n) + " chars (target "@ + decimal(
                target as nat,
            ) + " chars)"@,
        ],
        7 * target <= 10 * n <= 13 * target - 10 ==> total_length_issue(target, n) == Seq::<
            Seq<char>,
        >::empty(),
        10 * n > 13 * target && target > 0 ==> total_length_issue(target, n) == seq![
            "Overall length too long: "@ + decimal(n) + " chars (target "@ + decimal(
                target as nat,
            ) + " chars, risk of violating submission rules)"@,
        ],
{
    law_scaled_length(target, 7, 10);
    law_scaled_length(target, 13, 10);
}

proof fn lemma_section_issue_among(
    sections: Seq<Section>,
    secs: Seq<(Seq<char>, Seq<char>)>,
    n: nat,
    i: int,
    k: int,
    x: Seq<char>,
)
    requires
        0 <= i < n <= sections.len(),
        first_head(compared_heads(secs), compared_titles(sections), i, 0) == Some(k),
        section_length_issue(sections[i], secs[k].1.len()).contains(x),
    ensures
        section_issues(sections, secs, n).contains(x),
    decreases n,
{
    let before = section_issues(sections, secs, (n - 1) as nat);
    let now = section_issues(sections, secs, n);
    if i == n - 1 {
        let here = section_length_issue(sections[i], secs[k].1.len());
        let j = choose|j: int| 0 <= j < here.len() && here[j] == x;
        assert(now[before.len() + j] == x);
    } else {
        lemma_section_issue_among(sections, secs, (n - 1) as nat, i, k, x);
        let j = choose|j: int| 0 <= j < before.len() && before[j] == x;
        assert(now[j] == x);
    }
}

/// What is said of the length of a section, by the first heading that stands for it, and what is
/// said of the length of the document, is among the format issues.
pub proof fn law_lengths_are_issues(sp: Spec, doc: Seq<char>, i: int, k: int, x: Seq<char>)
    requires
        0 <= i < sp.sections@.len(),
        first_head(
            compared_heads(document_sections(doc)),
            compared_titles(sp.sections@),
            i,
            0,
        ) == Some(k),
    ensures
        section_length_issue(sp.sections@[i], document_sections(doc)[k].1.len()).contains(x)
            ==> issues_of(sp, doc).contains(x),
        total_length_issue(sp.total_chars, doc.len()).contains(x) ==> issues_of(sp, doc).contains(
            x,
        ),
{
    let secs = document_sections(doc);
    let a = missing_in(sp.sections@, doc).map_values(|t: Seq<char>| missing_text(t));
    let b = section_issues(sp.sections@, secs, sp.sections@.len());
    let c = total_length_issue(sp.total_chars, doc.len());
    let all = issues_of(sp, doc);
    if section_length_issue(sp.sections@[i], secs[k].1.len()).contains(x) {
        lemma_section_issue_among(sp.sections@, secs, sp.sections@.len(), i, k, x);
        let j = choose|j: int| 0 <= j < b.len() && b[j] == x;
        assert(all[a.len() + j] == x);
    }
    if c.contains(x) {
        let j = choose|j: int| 0 <= j < c.len() && c[j] == x;
        assert(all[a.len() + b.len() + j] == x);
    }
}

/// A quarter, and the number before it.
proof fn lemma_quarter()
    ensures
        fraction(1, 4).bits == 1021 * HIDDEN,
        units((1021 * HIDDEN - 1) as nat) == (SIGNIFICANDS - 1) * pow2(1019),
        one() == 0x80_0000_0000_0000 * pow2(1019),
{
    let b: nat = (1021 * HIDDEN) as nat;
    let p = pow2(1019);
    let u = one();
    lemma2_to64();
    lemma2_to64_rest();
    lemma_pow2_adds(1019, 55);
    lemma_pow2_adds(1019, 1);
    assert(pow2(55) == 0x80_0000_0000_0000);
    assert(u == p * 0x80_0000_0000_0000);
    assert(significand(b) == HIDDEN && exponent(b) == 1020);
    assert(units(b) == HIDDEN * pow2(1020));
    assert(pow2(1020) == p * 2);
    let v = units(b);
    assert(4 * v == u) by (nonlinear_arith)
        requires
            v == 0x10_0000_0000_0000 * (p * 2),
            u == p * 0x80_0000_0000_0000,
    ;
    let c: nat = (1021 * HIDDEN - 1) as nat;
    assert(significand(c) == SIGNIFICANDS - 1 && exponent(c) == 1019);
    lemma_exact(b);
    assert(1 * u == u);
    law_rounding_keeps_order(u, 4, v, 1);
    law_rounding_keeps_order(v, 1, u, 4);
    lemma_nearest_range(u, 4);
}

proof fn lemma_growth(f: nat, b: nat)
    requires
        0 < f <= b <= LONG,
    ensures
        reaches(growth(f, b), fraction(1, 4)) <==> 5 * f <= 4 * b,
{
    let u = one();
    let k = (b - f) as nat;
    lemma_pow2_pos(UNIT_SHIFT as nat);
    lemma_integer(f);
    lemma_integer(b);
    lemma_integer(k);
    lemma_zero_units();
    lemma_quarter();
    assert(b * u - f * u == k * u) by (nonlinear_arith)
        requires
            k == b - f,
    ;
    assert(difference(fraction(b, 1), fraction(f, 1)) == fraction(k, 1));
    let d = f * u;
    assert(d > 0) by (nonlinear_arith)
        requires
            d == f * u,
            f > 0,
            u > 0,
    ;
    let n = (k * u) * u;
    assert(growth(f, b).bits == nearest(n, d));
    lemma_nearest_range(n, d);
    if 5 * f <= 4 * b {
        assert(u * d <= n * 4) by (nonlinear_arith)
            requires
                f <= 4 * k,
                d == f * u,
                n == (k * u) * u,
        {
            assert(u * (f * u) == f * (u * u));
            assert(((k * u) * u) * 4 == (4 * k) * (u * u));
            assert(f * (u * u) <= (4 * k) * (u * u));
        }
        assert(1 * u == u);
        law_rounding_keeps_order(u, 4, n, d);
    } else {
        let p = pow2(1019);
        let c: nat = (1021 * HIDDEN - 1) as nat;
        let v = units(c);
        assert(k * 0x80_0000_0000_0000 <= f * 0x1f_ffff_ffff_ffff);
        assert(k * u <= v * f) by (nonlinear_arith)
            requires
                k * 0x80_0000_0000_0000 <= f * 0x1f_ffff_ffff_ffff,
                u == 0x80_0000_0000_0000 * p,
                v == 0x1f_ffff_ffff_ffff * p,
        {
            assert((k * 0x80_0000_0000_0000) * p <= (f * 0x1f_ffff_ffff_ffff) * p);
        }
        assert(n * 1 <= v * d) by (nonlinear_arith)
            requires
                k * u <= v * f,
                n == (k * u) * u,
                d == f * u,
        {
            assert((k * u) * u <= (v * f) * u);
        }
        law_rounding_keeps_order(n, d, v, 1);
        lemma_exact(c);
    }
}

/// Whether a draft is a quarter longer than another, or more, while its total is less than five
/// points above that of the other.
pub open spec fn only_grew(first: Scored, best: Scored) -> bool {
    &&& first.metrics.chars > 0
    &&& 4 * best.metrics.chars >= 5 * first.metrics.chars
    &&& is_below(difference(unsigned(best.total), unsigned(first.total)), fraction(5, 1))
}

/// The loop warns of padding if and only if the best draft is longer than the first by a quarter or
/// more, while its total is less than five points above; and it warns that the last round is not the
/// best if and only if the best one is another.
pub proof fn law_warnings(history: Seq<Scored>, best: int)
    requires
        0 <= best < history.len(),
        history[0].metrics.chars <= LONG,
        history[best].metrics.chars <= LONG,
    ensures
        ({
            let padded = only_grew(history[0], history[best]);
            let other = best < history.len() - 1;
            let w = warnings_of(history, best);
            &&& w.len() == (if padded {
                1int
            } else {
                0
            }) + (if other {
                1int
            } else {
                0
            })
            &&& padded ==> w[0] == "Length canary: length +"@ + fixed(
                product(
                    growth(
                        history[0].metrics.chars as nat,
                        history[best].metrics.chars as nat,
                    ),
                    fraction(100, 1),
                ),
                0,
            ) + "% but score only +"@ + fixed(
                difference(unsigned(history[best].total), unsigned(history[0].total)),
                1,
            ) + " points → may be padding rather than substantive improvement"@
            &&& other ==> w.last() == "Last round ("@ + fixed(history.last().total, 1)
                + " points) is not the best score → best.md is "@ + ("iter"@ + two_digits(
                (best + 1) as nat,
            ))
        }),
{
    let f = history[0].metrics.chars as nat;
    let b = history[best].metrics.chars as nat;
    lemma_integer(f);
    lemma_integer(b);
    let u = one();
    lemma_pow2_pos(UNIT_SHIFT as nat);
    if 0 < f <= b {
        lemma_growth(f, b);
        assert(f * u * 1 <= b * u * 1) by (nonlinear_arith)
            requires
                f <= b,
        ;
        law_rounding_keeps_order(f * u, 1, b * u, 1);
    }
    if f > b {
        assert(b * u < f * u) by (nonlinear_arith)
            requires
                b < f,
                u > 0,
        ;
        if fraction(f, 1).bits <= fraction(b, 1).bits {
            lemma_units_order(fraction(f, 1).bits as nat, fraction(b, 1).bits as nat);
        }
    }
}

} // verus!
