//! What a heading is, what section it begins, and which declared title it stands for.

use crate::checks::{
    compared_heads, compared_title, compared_titles, compatible, document_sections, fences,
    first_head, heading_title, is_fence, is_heading, is_present, law_heading_stands_for_some,
    law_missing, lemma_chomped_line, lemma_fences_monotonic, lemma_first_head, lemma_same_fences,
    lemma_some_heading, length_gap, missing_in, missing_titles, some_heading, stands_for, FENCE,
};
use crate::contest::Section;
use crate::counting::has_line;
use crate::text::{
    chomp, contains, is_blank, is_space, law_lines_join, law_trim_takes_space, lines, strip_leading,
    trim, trim_start, without_space,
};
use crate::words::{law_contains, law_lines, law_starts_with, lemma_trim_start_splits};
use vstd::prelude::*;
use vstd::string::*;
use vstd::utf8::encode_utf8;

verus! {

/// A heading that contains a declared title, or that a declared title contains, stands for a
/// declared title.
pub proof fn law_partial_title_matches(
    head: Seq<char>,
    wants: Seq<Seq<char>>,
    i: int,
    a: Seq<char>,
    b: Seq<char>,
)
    requires
        0 <= i < wants.len(),
        wants[i].len() > 0,
        head.len() > 0,
        head == a + wants[i] + b || wants[i] == a + head + b,
    ensures
        exists|j: int| stands_for(head, wants, j),
{
    law_contains(head, wants[i]);
    law_contains(wants[i], head);
    law_heading_stands_for_some(head, wants, i);
}

/// Whether one of two texts is made of something, the other, and something.
pub open spec fn one_in_the_other(h: Seq<char>, w: Seq<char>) -> bool {
    exists|a: Seq<char>, b: Seq<char>| h == #[trigger] (a + w + b) || w == a + h + b
}

proof fn lemma_one_in_the_other(h: Seq<char>, w: Seq<char>)
    requires
        w.len() > 0,
    ensures
        compatible(h, w) == one_in_the_other(h, w),
{
    law_contains(h, w);
    law_contains(w, h);
    if contains(h, w) {
        let (a, b) = choose|a: Seq<char>, b: Seq<char>| h == #[trigger] (a + w + b);
        assert(h == a + w + b);
    }
    if contains(w, h) {
        let (a, b) = choose|a: Seq<char>, b: Seq<char>| w == #[trigger] (a + h + b);
        let x = a + w + b;
        assert(w == a + h + b);
    }
}

/// How many bytes two texts are apart in length.
pub open spec fn bytes_apart(a: Seq<char>, b: Seq<char>) -> int {
    let d = encode_utf8(a).len() - encode_utf8(b).len();
    if d < 0 {
        -d
    } else {
        d
    }
}

/// Whether a text has a length that a string can have.
pub open spec fn fits(s: Seq<char>) -> bool {
    encode_utf8(s).len() <= usize::MAX
}

/// A heading stands for a declared title if and only if one of the two contains the other, neither
/// is empty, no other such title is closer in length, and none before it is as close.
pub proof fn law_closest_title(head: Seq<char>, wants: Seq<Seq<char>>, i: int)
    requires
        0 <= i < wants.len(),
        fits(head),
        forall|j: int| 0 <= j < wants.len() ==> fits(#[trigger] wants[j]),
    ensures
        stands_for(head, wants, i) <==> {
            &&& head.len() > 0
            &&& wants[i].len() > 0
            &&& one_in_the_other(head, wants[i])
            &&& forall|j: int|
                0 <= j < wants.len() && (#[trigger] wants[j]).len() > 0 && one_in_the_other(
                    head,
                    wants[j],
                ) ==> bytes_apart(head, wants[i]) <= bytes_apart(head, wants[j]) && (j < i
                    ==> bytes_apart(head, wants[i]) < bytes_apart(head, wants[j]))
        },
{
    assert forall|j: int| 0 <= j < wants.len() implies length_gap(head, #[trigger] wants[j])
        == bytes_apart(head, wants[j]) by {
        assert(fits(wants[j]));
    }
    assert forall|j: int| 0 <= j < wants.len() && (#[trigger] wants[j]).len() > 0 implies compatible(
        head,
        wants[j],
    ) == one_in_the_other(head, wants[j]) by {
        lemma_one_in_the_other(head, wants[j]);
    }
    assert(fits(wants[i]));
    if wants[i].len() > 0 {
        lemma_one_in_the_other(head, wants[i]);
    }
}

/// The first heading that stands for a declared title is the one that counts for it.
pub proof fn law_first_heading_counts(heads: Seq<Seq<char>>, wants: Seq<Seq<char>>, i: int)
    ensures
        match first_head(heads, wants, i, 0) {
            Some(k) => 0 <= k < heads.len() && stands_for(heads[k], wants, i) && forall|j: int|
                0 <= j < k ==> !stands_for(#[trigger] heads[j], wants, i),
            None => forall|j: int|
                0 <= j < heads.len() ==> !stands_for(#[trigger] heads[j], wants, i),
        },
{
    lemma_first_head(heads, wants, i, 0);
    lemma_none_before(heads, wants, i, 0);
}

proof fn lemma_none_before(heads: Seq<Seq<char>>, wants: Seq<Seq<char>>, i: int, k: int)
    requires
        0 <= k,
    ensures
        first_head(heads, wants, i, k) matches Some(a) ==> forall|j: int|
            k <= j < a ==> !stands_for(#[trigger] heads[j], wants, i),
    decreases heads.len() - k,
{
    if k < heads.len() && !stands_for(heads[k], wants, i) {
        lemma_none_before(heads, wants, i, k + 1);
    }
}

/// Three backticks.
pub open spec fn marker() -> Seq<char> {
    seq!['`', '`', '`']
}

/// A line is a marker of a code block if and only if it is three backticks and anything, whitespace
/// before it apart.
pub proof fn law_fence(line: Seq<char>)
    ensures
        is_fence(line) <==> exists|w: Seq<char>, b: Seq<char>|
            is_blank(w) && line == #[trigger] (w + marker() + b),
{
    reveal_strlit("```");
    let f = marker();
    assert(FENCE@ =~= f);
    law_starts_with(trim_start(line), f);
    if is_fence(line) {
        let b = choose|b: Seq<char>| trim_start(line) == #[trigger] (f + b);
        let w = lemma_trim_start_splits(line);
        assert(line =~= w + f + b);
    }
    if exists|w: Seq<char>, b: Seq<char>| is_blank(w) && line == #[trigger] (w + f + b) {
        let (w, b) = choose|w: Seq<char>, b: Seq<char>|
            is_blank(w) && line == #[trigger] (w + f + b);
        assert(line =~= w + (f + b));
        lemma_trim_start_of(w, f + b);
    }
}

pub(crate) proof fn lemma_trim_start_of(w: Seq<char>, s: Seq<char>)
    requires
        is_blank(w),
        s.len() > 0,
        !is_space(s[0]),
    ensures
        trim_start(w + s) == s,
    decreases w.len(),
{
    if w.len() == 0 {
        assert(w + s =~= s);
    } else {
        assert((w + s)[0] == w[0]);
        assert((w + s).drop_first() =~= w.drop_first() + s);
        lemma_trim_start_of(w.drop_first(), s);
    }
}

/// The markers among the first lines are counted one by one.
pub proof fn law_fences(all: Seq<Seq<char>>, n: nat)
    requires
        n <= all.len(),
    ensures
        fences(all, n) == all.take(n as int).filter(|l: Seq<char>| is_fence(l)).len(),
    decreases n,
{
    reveal(Seq::filter);
    if n > 0 {
        law_fences(all, (n - 1) as nat);
        assert(all.take(n as int).drop_last() =~= all.take(n - 1));
        assert(all.take(n as int).last() == all[n - 1]);
    }
}

/// A line is a heading if and only if it begins with `#`, whitespace before it apart, and is not
/// inside a code block: with an odd number of markers before it and one more behind it.
pub proof fn law_heading(all: Seq<Seq<char>>, i: int)
    requires
        0 <= i < all.len(),
    ensures
        is_heading(all, i) <==> {
            &&& exists|w: Seq<char>, t: Seq<char>|
                is_blank(w) && all[i] == #[trigger] (w + hashes(1) + t)
            &&& fences(all, i as nat) % 2 == 0 || forall|k: int|
                i <= k < all.len() ==> !is_fence(#[trigger] all[k])
        },
{
    reveal_strlit("```");
    let line = all[i];
    let begins = exists|w: Seq<char>, t: Seq<char>|
        is_blank(w) && all[i] == #[trigger] (w + hashes(1) + t);
    if trim_start(line).len() > 0 && trim_start(line)[0] == '#' {
        let w = lemma_trim_start_splits(line);
        let t = trim_start(line).drop_first();
        assert(line =~= w + hashes(1) + t);
        assert(begins);
    }
    if begins {
        let (w, t) = choose|w: Seq<char>, t: Seq<char>|
            is_blank(w) && all[i] == #[trigger] (w + hashes(1) + t);
        let s = hashes(1) + t;
        assert(line =~= w + s);
        lemma_trim_start_of(w, s);
        assert(!is_fence(line)) by {
            if is_fence(line) {
                assert(s.subrange(0, 3)[0] == FENCE@[0]);
            }
        }
    }
    if forall|k: int| i <= k < all.len() ==> !is_fence(#[trigger] all[k]) {
        lemma_same_fences(all, i as nat, all.len());
    } else {
        let k = choose|k: int| i <= k < all.len() && is_fence(#[trigger] all[k]);
        lemma_fences_monotonic(all, i as nat, k as nat);
        lemma_fences_monotonic(all, (k + 1) as nat, all.len());
    }
}

/// A number of `#` characters.
pub open spec fn hashes(n: nat) -> Seq<char> {
    Seq::new(n, |i: int| '#')
}

proof fn lemma_strip_hashes(n: nat, t: Seq<char>)
    requires
        t.len() == 0 || t[0] != '#',
    ensures
        strip_leading(hashes(n) + t, '#') == t,
    decreases n,
{
    let s = hashes(n) + t;
    if n == 0 {
        assert(s =~= t);
    } else {
        assert(s[0] == '#');
        assert(s.drop_first() =~= hashes((n - 1) as nat) + t);
        lemma_strip_hashes((n - 1) as nat, t);
    }
}

/// The title of a heading is what follows its `#` characters, without the whitespace around it.
pub proof fn law_heading_title(w: Seq<char>, n: nat, t: Seq<char>)
    requires
        is_blank(w),
        n > 0,
        t.len() == 0 || t[0] != '#',
    ensures
        heading_title(w + hashes(n) + t) == trim(t),
{
    let s = hashes(n) + t;
    assert(w + hashes(n) + t =~= w + s);
    assert(s[0] == '#');
    lemma_trim_start_of(w, s);
    lemma_strip_hashes(n, t);
}

/// The line of a text that stands between two others, at a line's beginning and end.
pub(crate) proof fn lemma_line_between(p: Seq<char>, line: Seq<char>, q: Seq<char>) -> (k: int)
    requires
        !line.contains('\n'),
        line.len() > 0,
        p.len() == 0 || p.last() == '\n',
        q.len() == 0 || q[0] == '\n',
    ensures
        0 <= k < lines(p + line + q).len(),
        lines(p + line + q)[k] == line || lines(p + line + q)[k] == chomp(line),
{
    let tail = line + q;
    let c = chomp(line);
    let e = Seq::<char>::empty();
    assert(lines(tail).len() > 0 && (lines(tail)[0] == line || lines(tail)[0] == c)) by {
        if q.len() == 0 {
            assert(tail =~= line);
            law_lines(line, e);
        } else {
            let rest = q.drop_first();
            assert(tail =~= line + seq!['\n'] + rest);
            law_lines(line, rest);
            if line.last() == '\r' {
                assert(!c.contains('\n')) by {
                    if c.contains('\n') {
                        let k = choose|k: int| 0 <= k < c.len() && c[k] == '\n';
                        assert(line[k] == '\n');
                    }
                }
                law_lines(c, rest);
                assert(tail =~= c + seq!['\r', '\n'] + rest);
            }
        }
    }
    if p.len() == 0 {
        assert(p + line + q =~= tail);
        0
    } else {
        let a = p.drop_last();
        assert(p =~= a.push('\n'));
        law_lines_join(a, tail);
        assert(p + line + q =~= p + tail);
        lines(p).len() as int
    }
}

/// The characters of the lines of a text are characters of the text.
pub(crate) proof fn lemma_line_chars(s: Seq<char>, k: int, c: char)
    requires
        0 <= k < lines(s).len(),
        lines(s)[k].contains(c),
    ensures
        s.contains(c),
    decreases s.len(),
{
    let i = crate::text::run_before(s, '\n') as int;
    crate::text::lemma_run_before(s, '\n');
    if s.len() > 0 && i < s.len() {
        let rest = s.skip(i + 1);
        if k == 0 {
            let l = chomp(s.take(i));
            let m = choose|m: int| 0 <= m < l.len() && l[m] == c;
            assert(s[m] == c);
        } else {
            assert(lines(s)[k] == lines(rest)[k - 1]);
            lemma_line_chars(rest, k - 1, c);
            let m = choose|m: int| 0 <= m < rest.len() && rest[m] == c;
            assert(s[m + i + 1] == c);
        }
    }
}

proof fn lemma_no_fences(s: Seq<char>, n: nat)
    requires
        n <= lines(s).len(),
        !s.contains('`'),
    ensures
        fences(lines(s), n) == 0,
        forall|k: int| 0 <= k < n ==> !is_fence(#[trigger] lines(s)[k]),
    decreases n,
{
    if n > 0 {
        lemma_no_fences(s, (n - 1) as nat);
        let l = lines(s)[n - 1];
        law_fence(l);
        if is_fence(l) {
            let f = marker();
            let (w, b) = choose|w: Seq<char>, b: Seq<char>|
                is_blank(w) && l == #[trigger] (w + f + b);
            assert(l[w.len() as int] == f[0]);
            lemma_line_chars(s, n - 1, '`');
        }
    }
}

/// Whether a line is a heading with the given text behind its `#` characters.
pub open spec fn is_heading_line(line: Seq<char>, t: Seq<char>) -> bool {
    &&& t.len() == 0 || t[0] != '#'
    &&& exists|w: Seq<char>, n: nat| n > 0 && is_blank(w) && line == #[trigger] (w + hashes(n) + t)
}

/// In a document without code blocks, a section is not missing if a heading line stands for its
/// title.
pub proof fn law_heading_makes_present(
    sections: Seq<Section>,
    doc: Seq<char>,
    line: Seq<char>,
    t: Seq<char>,
    i: int,
)
    requires
        !doc.contains('`'),
        !line.contains('\n'),
        has_line(doc, line),
        is_heading_line(line, t),
        0 <= i < sections.len(),
        stands_for(without_space(t), compared_titles(sections), i),
        forall|j: int|
            0 <= j < sections.len() && j != i ==> (#[trigger] sections[j]).title@
                != sections[i].title@,
    ensures
        !missing_in(sections, doc).contains(sections[i].title@),
{
    let (p, q) = choose|p: Seq<char>, q: Seq<char>|
        doc == #[trigger] (p + line + q) && (p.len() == 0 || p.last() == '\n') && (q.len() == 0
            || q[0] == '\n');
    let (w, n) = choose|w: Seq<char>, n: nat|
        n > 0 && is_blank(w) && line == #[trigger] (w + hashes(n) + t);
    assert(line[w.len() as int] == '#');
    let k = lemma_line_between(p, line, q);
    let all = lines(doc);
    let wants = compared_titles(sections);
    lemma_no_fences(doc, all.len());
    lemma_fences_monotonic(all, k as nat, all.len());
    lemma_chomped_line(line);
    law_heading_title(w, n, t);
    law_trim_takes_space(t);
    assert(compared_title(line) == without_space(t));
    assert(compared_title(all[k]) == without_space(t));
    let s = hashes(n) + t;
    assert(line =~= w + s);
    lemma_trim_start_of(w, s);
    assert(trim_start(line)[0] == '#');
    assert(!is_fence(all[k]));
    assert(is_heading(all, k));
    assert(some_heading(all, wants, i));
    lemma_some_heading(doc, wants, i);
    law_missing(
        sections,
        compared_heads(document_sections(doc)),
        sections.len(),
        sections[i].title@,
    );
}

/// Where one section is declared, a document without code blocks has it if it has a heading line
/// that contains the title or that the title contains, whitespace apart.
pub proof fn law_partial_heading_is_enough(
    section: Section,
    doc: Seq<char>,
    line: Seq<char>,
    t: Seq<char>,
    a: Seq<char>,
    b: Seq<char>,
)
    requires
        !doc.contains('`'),
        !line.contains('\n'),
        has_line(doc, line),
        is_heading_line(line, t),
        without_space(section.title@).len() > 0,
        without_space(t).len() > 0,
        without_space(t) == a + without_space(section.title@) + b || without_space(section.title@)
            == a + without_space(t) + b,
    ensures
        missing_in(seq![section], doc) == Seq::<Seq<char>>::empty(),
{
    let sections = seq![section];
    let wants = compared_titles(sections);
    assert(wants[0] == without_space(section.title@));
    law_partial_title_matches(without_space(t), wants, 0, a, b);
    let j = choose|j: int| stands_for(without_space(t), wants, j);
    assert(j == 0);
    law_heading_makes_present(sections, doc, line, t, 0);
    let m = missing_in(sections, doc);
    reveal_with_fuel(missing_titles, 2);
    assert(m.len() > 0 ==> m[0] == section.title@);
    assert(m =~= Seq::empty());
}

/// The positions of the required sections that no heading stands for.
pub open spec fn missing_positions(sections: Seq<Section>, heads: Seq<Seq<char>>) -> Seq<int> {
    Seq::new(sections.len(), |i: int| i).filter(
        |i: int| sections[i].required && !is_present(heads, compared_titles(sections), i),
    )
}

/// The missing sections are told in the order of their declaration, each once, and only required
/// ones.
pub proof fn law_missing_in_order(sections: Seq<Section>, doc: Seq<char>)
    ensures
        missing_in(sections, doc) == missing_positions(
            sections,
            compared_heads(document_sections(doc)),
        ).map_values(|i: int| sections[i].title@),
{
    lemma_missing_in_order(sections, compared_heads(document_sections(doc)), sections.len());
}

proof fn lemma_missing_in_order(sections: Seq<Section>, heads: Seq<Seq<char>>, n: nat)
    requires
        n <= sections.len(),
    ensures
        missing_titles(sections, heads, n) == Seq::new(n, |i: int| i).filter(
            |i: int| sections[i].required && !is_present(heads, compared_titles(sections), i),
        ).map_values(|i: int| sections[i].title@),
    decreases n,
{
    reveal(Seq::filter);
    let all = Seq::new(n, |i: int| i);
    let f = |i: int| sections[i].required && !is_present(heads, compared_titles(sections), i);
    let g = |i: int| sections[i].title@;
    if n == 0 {
        assert(all.filter(f).map_values(g) =~= missing_titles(sections, heads, n));
    } else {
        let m = (n - 1) as nat;
        lemma_missing_in_order(sections, heads, m);
        let before = Seq::new(m, |i: int| i);
        assert(all.drop_last() =~= before);
        assert(all.last() == m);
        if f(m as int) {
            assert(before.filter(f).push(m as int).map_values(g) =~= before.filter(f).map_values(
                g,
            ).push(g(m as int)));
        }
        assert(all.filter(f).map_values(g) =~= missing_titles(sections, heads, n));
    }
}

/// A document without `#` lacks every required section.
pub proof fn law_no_headings_all_missing(sections: Seq<Section>, doc: Seq<char>, i: int)
    requires
        !doc.contains('#'),
        0 <= i < sections.len(),
        sections[i].required,
    ensures
        missing_in(sections, doc).contains(sections[i].title@),
{
    let all = lines(doc);
    let wants = compared_titles(sections);
    if some_heading(all, wants, i) {
        let j = choose|j: int|
            0 <= j < all.len() && is_heading(all, j) && stands_for(
                compared_title(#[trigger] all[j]),
                wants,
                i,
            );
        let w = lemma_trim_start_splits(all[j]);
        assert(all[j][w.len() as int] == '#');
        lemma_line_chars(doc, j, '#');
    }
    lemma_some_heading(doc, wants, i);
    law_missing(
        sections,
        compared_heads(document_sections(doc)),
        sections.len(),
        sections[i].title@,
    );
}

/// A declared section is there if and only if some heading of the document, code blocks left out,
/// has a title that stands for it, whitespace apart.
pub proof fn law_present(sections: Seq<Section>, doc: Seq<char>, i: int)
    requires
        0 <= i < sections.len(),
        sections[i].required,
        forall|j: int|
            0 <= j < sections.len() && j != i ==> (#[trigger] sections[j]).title@
                != sections[i].title@,
    ensures
        missing_in(sections, doc).contains(sections[i].title@) <==> forall|j: int|
            0 <= j < lines(doc).len() && is_heading(lines(doc), j) ==> !stands_for(
                without_space(heading_title(#[trigger] lines(doc)[j])),
                compared_titles(sections),
                i,
            ),
{
    let wants = compared_titles(sections);
    lemma_some_heading(doc, wants, i);
    law_missing(
        sections,
        compared_heads(document_sections(doc)),
        sections.len(),
        sections[i].title@,
    );
    let all = lines(doc);
    if some_heading(all, wants, i) {
        let j = choose|j: int|
            0 <= j < all.len() && is_heading(all, j) && stands_for(
                compared_title(#[trigger] all[j]),
                wants,
                i,
            );
        assert(stands_for(without_space(heading_title(all[j])), wants, i));
    } else {
        assert forall|j: int| 0 <= j < all.len() && is_heading(all, j) implies !stands_for(
            without_space(heading_title(#[trigger] all[j])),
            wants,
            i,
        ) by {
            assert(compared_title(all[j]) == without_space(heading_title(all[j])));
        }
    }
}

/// Sections that are not required are never missing, and no title is missing that is not declared.
pub proof fn law_only_required_are_missing(sections: Seq<Section>, doc: Seq<char>, title: Seq<char>)
    requires
        missing_in(sections, doc).contains(title),
    ensures
        exists|i: int|
            0 <= i < sections.len() && (#[trigger] sections[i]).required && sections[i].title@
                == title,
{
    law_missing(sections, compared_heads(document_sections(doc)), sections.len(), title);
}

} // verus!
