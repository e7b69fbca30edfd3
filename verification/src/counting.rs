//! What the counts of a document count, and what is said of them.

use crate::checks::{
    citation_issue, describes, document_sections, first_head, is_table_rule, issues_of, lesser,
    missing_in, missing_text, section_issues, section_length_issue, table_issue, table_rules,
    total_length_issue, year_at, years, Metrics, NO_TABLE,
};
use crate::contest::{Section, Spec};
use crate::text::{
    chomp, contains, count, decimal, is_blank, is_space, law_lines_join, law_trim_ignores_space,
    lines, occurs_at, trim,
};
use crate::words::{law_contains, law_count, law_lines, law_trimmed_inside};
use vstd::prelude::*;
use vstd::string::*;

verus! {

/// A line that begins with a bar, whitespace apart, and holds three dashes behind it.
pub open spec fn row(w: Seq<char>, a: Seq<char>, b: Seq<char>) -> Seq<char> {
    w + seq!['|'] + a + seq!['-', '-', '-'] + b
}

/// Whether a line is such a row.
pub open spec fn is_row(line: Seq<char>) -> bool {
    exists|w: Seq<char>, a: Seq<char>, b: Seq<char>| is_blank(w) && line == #[trigger] row(w, a, b)
}

proof fn lemma_dashes()
    ensures
        "---"@ == seq!['-', '-', '-'],
{
    reveal_strlit("---");
    assert("---"@ =~= seq!['-', '-', '-']);
}

proof fn lemma_rule_is_row(line: Seq<char>)
    requires
        is_table_rule(line),
    ensures
        is_row(line),
{
    lemma_dashes();
    let d = seq!['-', '-', '-'];
    let t = trim(line);
    let (w, x) = law_trimmed_inside(line);
    law_contains(t, d);
    let (p, b) = choose|p: Seq<char>, b: Seq<char>| t == #[trigger] (p + d + b);
    assert(p.len() > 0) by {
        if p.len() == 0 {
            assert(t[0] == d[0]);
        }
    }
    let a = p.drop_first();
    assert(t[0] == p[0]);
    assert(p =~= seq!['|'] + a);
    assert(line =~= row(w, a, b + x));
}

proof fn lemma_row_is_rule(w: Seq<char>, a: Seq<char>, b: Seq<char>)
    requires
        is_blank(w),
    ensures
        is_table_rule(row(w, a, b)),
{
    lemma_dashes();
    let d = seq!['-', '-', '-'];
    let e = Seq::<char>::empty();
    let core = seq!['|'] + a + d + b;
    let line = row(w, a, b);
    assert(line =~= w + core + e);
    law_trim_ignores_space(w, core, e);
    let t = trim(core);
    let (u, x) = law_trimmed_inside(core);
    assert(core[0] == '|');
    assert(u.len() == 0) by {
        if u.len() > 0 {
            assert(core[0] == u[0]);
            assert(is_space(u[0]));
        }
    }
    assert(core =~= t + x);
    let p = a.len() + 3;
    assert(core[p as int] == '-');
    assert(p < t.len()) by {
        if p >= t.len() {
            assert(core[p as int] == x[p - t.len()]);
            assert(is_space(x[p - t.len()]));
        }
    }
    assert(t[0] == core[0]);
    let i = a.len() + 1int;
    assert(t.subrange(i, i + 3) =~= d) by {
        assert forall|k: int| 0 <= k < 3 implies t[i + k] == d[k] by {
            assert(core[i + k] == t[i + k]);
        }
    }
    assert(occurs_at(t, d, i));
}

/// A line is the separator row of a table if and only if, whitespace before it apart, it begins with
/// a bar and holds three dashes in a row somewhere behind that.
pub proof fn law_table_row(line: Seq<char>)
    ensures
        is_table_rule(line) <==> is_row(line),
{
    if is_table_rule(line) {
        lemma_rule_is_row(line);
    }
    if is_row(line) {
        let (w, a, b) = choose|w: Seq<char>, a: Seq<char>, b: Seq<char>|
            is_blank(w) && line == #[trigger] row(w, a, b);
        lemma_row_is_rule(w, a, b);
    }
}

proof fn lemma_chomped_rule(line: Seq<char>)
    ensures
        is_table_rule(chomp(line)) == is_table_rule(line),
{
    if line.len() > 0 && line.last() == '\r' {
        let e = Seq::<char>::empty();
        let x = seq!['\r'];
        assert(is_blank(x));
        assert(is_blank(e));
        law_trim_ignores_space(e, chomp(line), x);
        assert(e + chomp(line) + x =~= line);
    }
}

proof fn lemma_table_rules_add(a: Seq<Seq<char>>, b: Seq<Seq<char>>, n: nat)
    requires
        n <= b.len(),
    ensures
        table_rules(a + b, a.len() + n) == table_rules(a, a.len()) + table_rules(b, n),
    decreases n,
{
    if n == 0 {
        lemma_table_rules_same(a + b, a, a.len());
    } else {
        lemma_table_rules_add(a, b, (n - 1) as nat);
        assert((a + b)[a.len() + n - 1] == b[n - 1]);
    }
}

proof fn lemma_table_rules_same(a: Seq<Seq<char>>, b: Seq<Seq<char>>, n: nat)
    requires
        n <= a.len(),
        n <= b.len(),
        forall|k: int| 0 <= k < n ==> a[k] == b[k],
    ensures
        table_rules(a, n) == table_rules(b, n),
    decreases n,
{
    if n > 0 {
        lemma_table_rules_same(a, b, (n - 1) as nat);
    }
}

/// The tables of a document are counted line by line: one for each separator row.
pub proof fn law_tables(line: Seq<char>, rest: Seq<char>, m: Metrics, x: Metrics, y: Metrics)
    requires
        !line.contains('\n'),
        describes(m, line + seq!['\n'] + rest),
        describes(x, line),
        describes(y, rest),
    ensures
        x.tables == if is_row(line) {
            1nat
        } else {
            0
        },
        m.tables == x.tables + y.tables,
{
    law_table_row(line);
    law_lines(line, rest);
    reveal_with_fuel(table_rules, 2);
    if line.len() == 0 {
        assert(!is_table_rule(line)) by {
            let (u, v) = law_trimmed_inside(line);
            assert(trim(line).len() == 0);
        }
    }
    let c = chomp(line);
    lemma_chomped_rule(line);
    if line.len() > 0 && line.last() == '\r' {
        assert(!c.contains('\n')) by {
            if c.contains('\n') {
                let k = choose|k: int| 0 <= k < c.len() && c[k] == '\n';
                assert(line[k] == '\n');
            }
        }
        law_lines(c, rest);
        assert(line + seq!['\n'] + rest =~= c + seq!['\r', '\n'] + rest);
    }
    let all = lines(line + seq!['\n'] + rest);
    assert(all == seq![c] + lines(rest));
    lemma_table_rules_add(seq![c], lines(rest), lines(rest).len());
    assert(seq![c].len() == 1);
    assert(table_rules(seq![c], 1) == if is_table_rule(c) {
        1nat
    } else {
        0
    });
}

/// Whether a document has the given line: something that ends with a newline, or nothing, before it,
/// and something that begins with one, or nothing, behind it.
pub open spec fn has_line(doc: Seq<char>, line: Seq<char>) -> bool {
    exists|p: Seq<char>, q: Seq<char>|
        doc == #[trigger] (p + line + q) && (p.len() == 0 || p.last() == '\n') && (q.len() == 0
            || q[0] == '\n')
}

proof fn lemma_tables_with_row(p: Seq<char>, line: Seq<char>, q: Seq<char>)
    requires
        !line.contains('\n'),
        is_row(line),
        p.len() == 0 || p.last() == '\n',
        q.len() == 0 || q[0] == '\n',
    ensures
        ({
            let all = lines(p + line + q);
            table_rules(all, all.len()) > 0
        }),
{
    law_table_row(line);
    reveal_with_fuel(table_rules, 2);
    let e = Seq::<char>::empty();
    let tail = line + q;
    let t = lines(tail);
    assert(table_rules(t, t.len()) > 0) by {
        if q.len() == 0 {
            assert(tail =~= line);
            law_lines(line, e);
            if line.len() == 0 {
                let (u, v) = law_trimmed_inside(line);
            }
        } else {
            let rest = q.drop_first();
            assert(tail =~= line + seq!['\n'] + rest);
            let c = chomp(line);
            lemma_chomped_rule(line);
            law_lines(line, rest);
            if line.len() > 0 && line.last() == '\r' {
                assert(!c.contains('\n')) by {
                    if c.contains('\n') {
                        let k = choose|k: int| 0 <= k < c.len() && c[k] == '\n';
                        assert(line[k] == '\n');
                    }
                }
                law_lines(c, rest);
                assert(tail =~= c + seq!['\r', '\n'] + rest);
            }
            assert(t == seq![c] + lines(rest));
            lemma_table_rules_add(seq![c], lines(rest), lines(rest).len());
        }
    }
    if p.len() == 0 {
        assert(p + line + q =~= tail);
    } else {
        let a = p.drop_last();
        assert(p =~= a.push('\n'));
        law_lines_join(a, tail);
        assert(p + line + q =~= p + tail);
        lemma_table_rules_add(lines(p), t, t.len());
    }
}

/// Whether the first character of each text of a list is not the given one.
spec fn none_begins(list: Seq<Seq<char>>, c: char) -> bool {
    forall|i: int| 0 <= i < list.len() ==> (#[trigger] list[i]).len() > 0 && list[i][0] != c
}

proof fn lemma_section_issue_begins(s: Section, n: nat)
    ensures
        none_begins(section_length_issue(s, n), 'N'),
        none_begins(section_length_issue(s, n), 'C'),
{
    reveal_strlit("'");
}

proof fn lemma_section_issues_begin(
    sections: Seq<Section>,
    secs: Seq<(Seq<char>, Seq<char>)>,
    n: nat,
)
    ensures
        none_begins(section_issues(sections, secs, n), 'N'),
        none_begins(section_issues(sections, secs, n), 'C'),
    decreases n,
{
    if n > 0 {
        lemma_section_issues_begin(sections, secs, (n - 1) as nat);
        let before = section_issues(sections, secs, (n - 1) as nat);
        let now = section_issues(sections, secs, n);
        match first_head(
            crate::checks::compared_heads(secs),
            crate::checks::compared_titles(sections),
            n - 1,
            0,
        ) {
            Some(k) => {
                let here = section_length_issue(sections[n - 1], secs[k].1.len());
                lemma_section_issue_begins(sections[n - 1], secs[k].1.len());
                assert(now == before + here);
                assert forall|i: int| 0 <= i < now.len() implies (#[trigger] now[i]).len() > 0
                    && now[i][0] != 'N' && now[i][0] != 'C' by {
                    if i < before.len() {
                        assert(now[i] == before[i]);
                    } else {
                        assert(now[i] == here[i - before.len()]);
                    }
                }
            },
            None => {
                assert(now =~= before);
            },
        }
    }
}

/// The issues of a document but for the last two kinds.
spec fn other_issues(sp: Spec, doc: Seq<char>) -> Seq<Seq<char>> {
    missing_in(sp.sections@, doc).map_values(|t: Seq<char>| missing_text(t)) + section_issues(
        sp.sections@,
        document_sections(doc),
        sp.sections@.len(),
    ) + total_length_issue(sp.total_chars, doc.len())
}

proof fn lemma_other_issues(sp: Spec, doc: Seq<char>)
    ensures
        none_begins(other_issues(sp, doc), 'N'),
        none_begins(other_issues(sp, doc), 'C'),
{
    reveal_strlit("Missing required section '");
    reveal_strlit("Overall length too short: ");
    reveal_strlit("Overall length too long: ");
    let a = missing_in(sp.sections@, doc).map_values(|t: Seq<char>| missing_text(t));
    let b = section_issues(sp.sections@, document_sections(doc), sp.sections@.len());
    let c = total_length_issue(sp.total_chars, doc.len());
    lemma_section_issues_begin(sp.sections@, document_sections(doc), sp.sections@.len());
    let all = other_issues(sp, doc);
    assert forall|i: int| 0 <= i < all.len() implies (#[trigger] all[i]).len() > 0 && all[i][0]
        != 'N' && all[i][0] != 'C' by {
        if i < a.len() {
            assert(all[i] == missing_text(missing_in(sp.sections@, doc)[i]));
        } else if i < a.len() + b.len() {
            assert(all[i] == b[i - a.len()]);
        } else {
            assert(all[i] == c[i - a.len() - b.len()]);
        }
    }
}

/// What is said of too few citations.
pub open spec fn too_few_citations(found: nat, minimum: nat) -> Seq<char> {
    "Citations (「source name」): "@ + decimal(found) + " found → at least "@ + decimal(minimum)
        + " required"@
}

/// A document that has a separator row on a line of its own is never said to have no table.
pub proof fn law_table_is_seen(sp: Spec, doc: Seq<char>, line: Seq<char>)
    requires
        !line.contains('\n'),
        is_row(line),
        has_line(doc, line),
    ensures
        !issues_of(sp, doc).contains(NO_TABLE@),
{
    let (p, q) = choose|p: Seq<char>, q: Seq<char>|
        doc == #[trigger] (p + line + q) && (p.len() == 0 || p.last() == '\n') && (q.len() == 0
            || q[0] == '\n');
    lemma_tables_with_row(p, line, q);
    lemma_other_issues(sp, doc);
    lemma_no_table_text();
    reveal_strlit("Citations (「source name」): ");
    let all = issues_of(sp, doc);
    let o = other_issues(sp, doc);
    let c = citation_issue(sp.min_citations, lesser(count(doc, '「'), count(doc, '」')));
    assert(all =~= o + c);
    if all.contains(NO_TABLE@) {
        let i = choose|i: int| 0 <= i < all.len() && all[i] == NO_TABLE@;
        if i < o.len() {
            assert(all[i] == o[i]);
        } else {
            assert(all[i] == c[i - o.len()]);
        }
    }
}

proof fn lemma_no_table_text()
    ensures
        NO_TABLE@.len() > 0,
        NO_TABLE@[0] == 'N',
{
    reveal_strlit(
        "No table present → present at least one of comparison/schedule/KPI as a table",
    );
}

/// A document without a separator row is said to have no table, last of all, where one is required.
pub proof fn law_no_table_is_said(sp: Spec, doc: Seq<char>)
    requires
        forall|k: int| 0 <= k < lines(doc).len() ==> !is_row(#[trigger] lines(doc)[k]),
    ensures
        sp.require_table ==> issues_of(sp, doc).len() > 0 && issues_of(sp, doc).last() == NO_TABLE@,
        !sp.require_table ==> !issues_of(sp, doc).contains(NO_TABLE@),
{
    let all = lines(doc);
    lemma_no_rules(all, all.len());
    lemma_other_issues(sp, doc);
    lemma_no_table_text();
    reveal_strlit("Citations (「source name」): ");
    let o = other_issues(sp, doc);
    let c = citation_issue(sp.min_citations, lesser(count(doc, '「'), count(doc, '」')));
    let is = issues_of(sp, doc);
    if !sp.require_table {
        assert(is =~= o + c);
        if is.contains(NO_TABLE@) {
            let i = choose|i: int| 0 <= i < is.len() && is[i] == NO_TABLE@;
            if i < o.len() {
                assert(is[i] == o[i]);
            } else {
                assert(is[i] == c[i - o.len()]);
            }
        }
    }
}

proof fn lemma_no_rules(all: Seq<Seq<char>>, n: nat)
    requires
        n <= all.len(),
        forall|k: int| 0 <= k < n ==> !is_row(#[trigger] all[k]),
    ensures
        table_rules(all, n) == 0,
    decreases n,
{
    if n > 0 {
        lemma_no_rules(all, (n - 1) as nat);
        assert(!is_row(all[n - 1]));
        law_table_row(all[n - 1]);
    }
}

/// The characters of a document are counted one by one, and its citations by whichever corner
/// bracket it has fewer of.
pub proof fn law_citations(doc: Seq<char>, m: Metrics)
    requires
        describes(m, doc),
    ensures
        m.chars == doc.len(),
        m.citations <= doc.to_multiset().count('「'),
        m.citations <= doc.to_multiset().count('」'),
        m.citations == doc.to_multiset().count('「') || m.citations == doc.to_multiset().count(
            '」',
        ),
{
    law_count(doc, Seq::empty(), '「');
    law_count(doc, Seq::empty(), '」');
}

/// Too few citations are said to be so, with both numbers, if and only if there are fewer than
/// required.
pub proof fn law_citations_are_checked(sp: Spec, doc: Seq<char>, m: Metrics)
    requires
        describes(m, doc),
    ensures
        m.citations < sp.min_citations ==> issues_of(sp, doc).contains(
            too_few_citations(m.citations as nat, sp.min_citations as nat),
        ),
        m.citations >= sp.min_citations ==> forall|i: int|
            0 <= i < issues_of(sp, doc).len() ==> (#[trigger] issues_of(sp, doc)[i])[0] != 'C',
{
    lemma_other_issues(sp, doc);
    lemma_no_table_text();
    let o = other_issues(sp, doc);
    let c = citation_issue(sp.min_citations, lesser(count(doc, '「'), count(doc, '」')));
    let t = table_issue(sp.require_table, table_rules(lines(doc), lines(doc).len()));
    let all = issues_of(sp, doc);
    assert(all =~= o + c + t);
    if m.citations < sp.min_citations {
        assert(all[o.len() as int] == too_few_citations(
            m.citations as nat,
            sp.min_citations as nat,
        ));
    } else {
        assert forall|i: int| 0 <= i < all.len() implies (#[trigger] all[i])[0] != 'C' by {
            if i < o.len() {
                assert(all[i] == o[i]);
            } else {
                assert(all[i] == t[i - o.len()]);
            }
        }
    }
}

/// Whether a character is a decimal digit.
pub open spec fn is_figure(c: char) -> bool {
    '0' <= c <= '9'
}

/// Whether a run of digits is a year of the twentieth or the twenty-first century.
pub open spec fn is_year(d: Seq<char>) -> bool {
    d.len() == 4 && (d.take(2) == seq!['1', '9'] || d.take(2) == seq!['2', '0'])
}

proof fn lemma_years_shift(s: Seq<char>, at: nat, t: Seq<char>, n: nat)
    requires
        forall|i: int| 0 <= i < n ==> #[trigger] year_at(t, i) == year_at(s, at + i),
    ensures
        years(s, at + n) == years(s, at) + years(t, n),
    decreases n,
{
    if n > 0 {
        lemma_years_shift(s, at, t, (n - 1) as nat);
        assert(year_at(t, n - 1) == year_at(s, at + (n - 1)));
    }
}

proof fn lemma_no_years(s: Seq<char>, at: nat, n: nat)
    requires
        forall|i: int| at <= i < at + n ==> !#[trigger] year_at(s, i),
    ensures
        years(s, at + n) == years(s, at),
    decreases n,
{
    if n > 0 {
        lemma_no_years(s, at, (n - 1) as nat);
        assert(!year_at(s, at + (n - 1)));
    }
}

/// The years of a document are counted run by run of digits: a run counts if and only if it is four
/// digits that begin with nineteen or twenty.
pub proof fn law_years(
    a: Seq<char>,
    d: Seq<char>,
    b: Seq<char>,
    m: Metrics,
    x: Metrics,
    y: Metrics,
)
    requires
        d.len() > 0,
        forall|i: int| 0 <= i < d.len() ==> is_figure(#[trigger] d[i]),
        a.len() == 0 || !is_figure(a.last()),
        b.len() == 0 || !is_figure(b[0]),
        describes(m, a + d + b),
        describes(x, a),
        describes(y, b),
    ensures
        m.years == x.years + y.years + if is_year(d) {
            1nat
        } else {
            0
        },
{
    let s = a + d + b;
    let n = a.len() as int;
    let k = n + d.len();
    assert forall|i: int| 0 <= i < n implies #[trigger] year_at(a, i) == year_at(s, 0 + i) by {
        assert(a[n - 1] == a.last());
        assert(s[n - 1] == a.last());
        if i + 4 <= n {
            assert(s[i] == a[i] && s[i + 1] == a[i + 1] && s[i + 2] == a[i + 2] && s[i + 3] == a[i
                + 3]);
            if i > 0 {
                assert(s[i - 1] == a[i - 1]);
            }
            if i + 4 < n {
                assert(s[i + 4] == a[i + 4]);
            }
        } else if year_at(s, i) {
            let j = n - 1 - i;
            assert(j == 0 || j == 1 || j == 2);
            assert(s[i + j] == a.last());
        }
    }
    lemma_years_shift(s, 0, a, a.len());
    assert(years(s, 0) == 0);
    assert(s[n] == d[0]);
    assert(is_figure(d[0]));
    assert forall|i: int| n + 1 <= i < n + 1 + (d.len() - 1) implies !#[trigger] year_at(s, i) by {
        assert(s[i - 1] == d[i - 1 - n]);
        assert(is_figure(d[i - 1 - n]));
    }
    lemma_no_years(s, (n + 1) as nat, (d.len() - 1) as nat);
    assert(year_at(s, n) == is_year(d)) by {
        if n > 0 {
            assert(s[n - 1] == a.last());
        }
        if d.len() < 4 {
            if b.len() > 0 {
                assert(s[k] == b[0]);
            }
            if year_at(s, n) {
                assert(is_figure(s[n + 1]) && is_figure(s[n + 2]) && is_figure(s[n + 3]));
                assert(k == n + 1 || k == n + 2 || k == n + 3);
            }
        } else {
            assert(s[n + 1] == d[1] && s[n + 2] == d[2] && s[n + 3] == d[3]);
            assert(is_figure(d[2]) && is_figure(d[3]));
            if d.len() > 4 {
                assert(s[n + 4] == d[4]);
                assert(is_figure(d[4]));
            } else {
                if b.len() > 0 {
                    assert(s[n + 4] == b[0]);
                }
                let t = d.take(2);
                assert(t[0] == d[0] && t[1] == d[1]);
                if d[0] == '1' && d[1] == '9' {
                    assert(t =~= seq!['1', '9']);
                }
                if d[0] == '2' && d[1] == '0' {
                    assert(t =~= seq!['2', '0']);
                }
                if t == seq!['1', '9'] {
                    assert(seq!['1', '9'][0] == '1' && seq!['1', '9'][1] == '9');
                }
                if t == seq!['2', '0'] {
                    assert(seq!['2', '0'][0] == '2' && seq!['2', '0'][1] == '0');
                }
            }
        }
    }
    assert forall|i: int| 0 <= i < b.len() implies #[trigger] year_at(b, i) == year_at(s, k + i) by {
        if i == 0 {
            assert(s[k - 1] == d[d.len() - 1]);
            assert(is_figure(d[d.len() - 1]));
        } else {
            assert(s[k + i - 1] == b[i - 1]);
            if i + 4 <= b.len() {
                assert(s[k + i] == b[i] && s[k + i + 1] == b[i + 1] && s[k + i + 2] == b[i + 2]
                    && s[k + i + 3] == b[i + 3]);
                if i + 4 < b.len() {
                    assert(s[k + i + 4] == b[i + 4]);
                }
            }
        }
    }
    lemma_years_shift(s, k as nat, b, b.len());
    assert(years(s, (n + 1) as nat) == years(s, n as nat) + if year_at(s, n) {
        1nat
    } else {
        0
    });
}

/// A document without digits has no years.
pub proof fn law_no_digits_no_years(doc: Seq<char>, m: Metrics)
    requires
        describes(m, doc),
        forall|i: int| 0 <= i < doc.len() ==> !is_figure(#[trigger] doc[i]),
    ensures
        m.years == 0,
{
    assert forall|i: int| 0 <= i < 0 + doc.len() implies !#[trigger] year_at(doc, i) by {
        assert(!is_figure(doc[i]));
    }
    lemma_no_years(doc, 0, doc.len());
    assert(years(doc, 0) == 0);
}

proof fn lemma_no_section_issues(
    sections: Seq<Section>,
    secs: Seq<(Seq<char>, Seq<char>)>,
    n: nat,
)
    requires
        n <= sections.len(),
        forall|i: int|
            0 <= i < n ==> has_no_length_issue(#[trigger] sections[i], sections, secs, i),
    ensures
        section_issues(sections, secs, n) == Seq::<Seq<char>>::empty(),
    decreases n,
{
    if n > 0 {
        lemma_no_section_issues(sections, secs, (n - 1) as nat);
        assert(has_no_length_issue(sections[n - 1], sections, secs, n - 1));
        assert(section_issues(sections, secs, n) =~= Seq::empty());
    }
}

/// Whether no heading stands for a section, or nothing is said of the length of the first that does.
pub open spec fn has_no_length_issue(
    s: Section,
    sections: Seq<Section>,
    secs: Seq<(Seq<char>, Seq<char>)>,
    i: int,
) -> bool {
    match first_head(
        crate::checks::compared_heads(secs),
        crate::checks::compared_titles(sections),
        i,
        0,
    ) {
        Some(k) => section_length_issue(s, secs[k].1.len()) == Seq::<Seq<char>>::empty(),
        None => true,
    }
}

/// Nothing is said of a document that lacks no section, whose lengths are in order, and that has
/// enough citations and a table, where one is required.
pub proof fn law_clean_document(sp: Spec, doc: Seq<char>, m: Metrics)
    requires
        describes(m, doc),
        missing_in(sp.sections@, doc) == Seq::<Seq<char>>::empty(),
        forall|i: int|
            0 <= i < sp.sections@.len() ==> has_no_length_issue(
                #[trigger] sp.sections@[i],
                sp.sections@,
                document_sections(doc),
                i,
            ),
        total_length_issue(sp.total_chars, doc.len()) == Seq::<Seq<char>>::empty(),
        m.citations >= sp.min_citations,
        sp.require_table ==> m.tables > 0,
    ensures
        issues_of(sp, doc) == Seq::<Seq<char>>::empty(),
{
    lemma_no_section_issues(sp.sections@, document_sections(doc), sp.sections@.len());
    assert(issues_of(sp, doc) =~= Seq::empty());
}

/// There are at most as many issues as missing sections, declared sections, and three more.
pub proof fn law_number_of_issues(sp: Spec, doc: Seq<char>)
    ensures
        issues_of(sp, doc).len() <= missing_in(sp.sections@, doc).len() + sp.sections@.len() + 3,
{
    lemma_number_of_section_issues(
        sp.sections@,
        document_sections(doc),
        sp.sections@.len(),
    );
}

proof fn lemma_number_of_section_issues(
    sections: Seq<Section>,
    secs: Seq<(Seq<char>, Seq<char>)>,
    n: nat,
)
    ensures
        section_issues(sections, secs, n).len() <= n,
    decreases n,
{
    if n > 0 {
        lemma_number_of_section_issues(sections, secs, (n - 1) as nat);
    }
}

} // verus!
