//! How a document falls into sections, told by how the document is put together.

use crate::checks::{
    body_text, document_sections, heading_title, is_fence, is_heading, lemma_fences_alike,
    lemma_next_heading, lemma_same_fences, next_heading, section_unless_blank, sections_from,
};
use crate::matching::{hashes, law_fence, law_heading_title, lemma_line_chars, marker};
use crate::text::{is_blank, law_lines_join, lines, trim, trim_start};
use crate::words::{law_lines, lemma_trim_start_splits};
use vstd::prelude::*;

verus! {

/// A text that ends with a newline, or is empty.
pub open spec fn closed(b: Seq<char>) -> Seq<char> {
    if b.len() == 0 || b.last() == '\n' {
        b
    } else {
        b.push('\n')
    }
}

proof fn lemma_body_shift(x: Seq<char>, all: Seq<Seq<char>>, n: int)
    requires
        0 <= n <= all.len(),
    ensures
        body_text(seq![x] + all, 0, n + 1) == x.push('\n') + body_text(all, 0, n),
    decreases n,
{
    let big = seq![x] + all;
    let e = Seq::<char>::empty();
    if n == 0 {
        assert(body_text(big, 0, 0) =~= e);
        assert(e + x.push('\n') =~= x.push('\n') + e);
        assert(big[0] == x);
    } else {
        lemma_body_shift(x, all, n - 1);
        assert(big[n] == all[n - 1]);
        let l = all[n - 1].push('\n');
        assert(x.push('\n') + body_text(all, 0, n - 1) + l =~= x.push('\n') + (body_text(
            all,
            0,
            n - 1,
        ) + l));
    }
}

proof fn lemma_body_of_part(a: Seq<Seq<char>>, b: Seq<Seq<char>>, n: int)
    requires
        0 <= n <= b.len(),
    ensures
        body_text(a + b, a.len() as int, a.len() + n) == body_text(b, 0, n),
    decreases n,
{
    if n > 0 {
        lemma_body_of_part(a, b, n - 1);
        assert((a + b)[a.len() + n - 1] == b[n - 1]);
    }
}

proof fn lemma_body_same(a: Seq<Seq<char>>, b: Seq<Seq<char>>, i: int, j: int)
    requires
        0 <= i <= j <= a.len(),
        j <= b.len(),
        forall|k: int| 0 <= k < j ==> a[k] == b[k],
    ensures
        body_text(a, i, j) == body_text(b, i, j),
    decreases j - i,
{
    if i < j {
        lemma_body_same(a, b, i, j - 1);
    }
}

/// The lines of a text, each ended by a newline, are the text.
proof fn lemma_body_is_text(b: Seq<char>)
    requires
        !b.contains('\r'),
    ensures
        body_text(lines(b), 0, lines(b).len() as int) == closed(b),
    decreases b.len(),
{
    let e = Seq::<char>::empty();
    if b.contains('\n') {
        crate::text::lemma_run_before(b, '\n');
        let i = crate::text::run_before(b, '\n') as int;
        assert(i < b.len()) by {
            let k = choose|k: int| 0 <= k < b.len() && b[k] == '\n';
        }
        let x = b.take(i);
        let rest = b.skip(i + 1);
        assert(!x.contains('\n')) by {
            if x.contains('\n') {
                let k = choose|k: int| 0 <= k < x.len() && x[k] == '\n';
                assert(b[k] == '\n');
            }
        }
        assert(x.len() == 0 || x.last() != '\r') by {
            if x.len() > 0 {
                assert(b[x.len() - 1] == x.last());
                assert(b.contains(b[x.len() - 1]));
            }
        }
        assert(!rest.contains('\r')) by {
            if rest.contains('\r') {
                let k = choose|k: int| 0 <= k < rest.len() && rest[k] == '\r';
                assert(b[k + i + 1] == '\r');
            }
        }
        assert(b =~= x + seq!['\n'] + rest);
        law_lines(x, rest);
        lemma_body_is_text(rest);
        lemma_body_shift(x, lines(rest), lines(rest).len() as int);
        if rest.len() > 0 {
            assert(b.last() == rest.last());
        }
        assert(x.push('\n') + closed(rest) =~= closed(b));
    } else {
        law_lines(b, e);
        if b.len() > 0 {
            assert(b.last() != '\n') by {
                assert(b.contains(b[b.len() - 1]));
            }
            lemma_body_shift(b, Seq::empty(), 0);
            assert(seq![b] + Seq::<Seq<char>>::empty() =~= seq![b]);
            assert(b.push('\n') + body_text(Seq::<Seq<char>>::empty(), 0, 0) =~= b.push('\n'));
        } else {
            assert(b =~= e);
        }
    }
}

proof fn lemma_next_alike(a: Seq<Seq<char>>, all: Seq<Seq<char>>, i: int)
    requires
        0 <= i <= a.len() < all.len(),
        is_heading(all, a.len() as int),
        forall|k: int| 0 <= k < a.len() ==> is_heading(a, k) == is_heading(all, k),
    ensures
        next_heading(a, i) == next_heading(all, i),
    decreases a.len() - i,
{
    if i < a.len() && !is_heading(a, i) {
        lemma_next_alike(a, all, i + 1);
    }
}

proof fn lemma_no_next(all: Seq<Seq<char>>, i: int)
    requires
        0 <= i <= all.len(),
        forall|k: int| i <= k < all.len() ==> !#[trigger] is_heading(all, k),
    ensures
        next_heading(all, i) == all.len(),
    decreases all.len() - i,
{
    if i < all.len() {
        assert(!is_heading(all, i));
        lemma_no_next(all, i + 1);
    }
}

proof fn lemma_sections_append(a: Seq<Seq<char>>, all: Seq<Seq<char>>, i: int, title: Seq<char>)
    requires
        0 <= i <= a.len() < all.len(),
        a == all.take(a.len() as int),
        is_heading(all, a.len() as int),
        forall|k: int| 0 <= k < a.len() ==> is_heading(a, k) == is_heading(all, k),
        forall|k: int| a.len() < k < all.len() ==> !#[trigger] is_heading(all, k),
    ensures
        sections_from(all, i, title) == sections_from(a, i, title) + section_unless_blank(
            heading_title(all[a.len() as int]),
            body_text(all, a.len() + 1int, all.len() as int),
        ),
    decreases a.len() - i,
{
    let n = a.len() as int;
    let last = section_unless_blank(heading_title(all[n]), body_text(all, n + 1, all.len() as int));
    lemma_next_alike(a, all, i);
    lemma_next_heading(a, i);
    let j = next_heading(a, i);
    lemma_body_same(a, all, i, j);
    let here = section_unless_blank(title, body_text(a, i, j));
    if j < n {
        lemma_sections_append(a, all, j + 1, heading_title(a[j]));
        let rest = sections_from(a, j + 1, heading_title(a[j]));
        assert(here + (rest + last) =~= (here + rest) + last);
    } else {
        lemma_no_next(all, n + 1);
        assert(sections_from(all, n + 1, heading_title(all[n])) == last);
    }
}

proof fn lemma_no_hash(b: Seq<char>, k: int)
    requires
        !b.contains('#'),
        !b.contains('`'),
        0 <= k < lines(b).len(),
    ensures
        !is_fence(lines(b)[k]),
        trim_start(lines(b)[k]).len() > 0 ==> trim_start(lines(b)[k])[0] != '#',
{
    let l = lines(b)[k];
    let w = lemma_trim_start_splits(l);
    if trim_start(l).len() > 0 && trim_start(l)[0] == '#' {
        assert(l[w.len() as int] == '#');
        lemma_line_chars(b, k, '#');
    }
    law_fence(l);
    if is_fence(l) {
        let (u, v) = choose|u: Seq<char>, v: Seq<char>|
            is_blank(u) && l == #[trigger] (u + marker() + v);
        assert(l[u.len() as int] == marker()[0]);
        lemma_line_chars(b, k, '`');
    }
}

proof fn lemma_heading_text(n: nat, t: Seq<char>)
    requires
        n > 0,
        t.len() == 0 || t[0] != '#',
        !t.contains('\n'),
        !t.contains('\r'),
    ensures
        !(hashes(n) + t).contains('\n'),
        (hashes(n) + t).last() != '\r',
        heading_title(hashes(n) + t) == trim(t),
        trim_start(hashes(n) + t) == hashes(n) + t,
{
    let e = Seq::<char>::empty();
    let h = hashes(n) + t;
    if h.contains('\n') {
        let k = choose|k: int| 0 <= k < h.len() && h[k] == '\n';
        if k >= n {
            assert(t[k - n] == '\n');
        }
    }
    if t.len() > 0 {
        assert(h.last() == t[t.len() - 1]);
        assert(t.contains(t[t.len() - 1]));
    } else {
        assert(h.last() == '#');
    }
    assert(h =~= e + hashes(n) + t);
    law_heading_title(e, n, t);
    assert(h[0] == '#');
    crate::matching::lemma_trim_start_of(e, h);
    assert(e + h =~= h);
}

proof fn lemma_not_a_fence(h: Seq<char>)
    requires
        h.len() > 0,
        h[0] == '#',
    ensures
        !is_fence(h),
{
    law_fence(h);
    if is_fence(h) {
        let (w, v) = choose|w: Seq<char>, v: Seq<char>|
            is_blank(w) && h == #[trigger] (w + marker() + v);
        if w.len() > 0 {
            assert(h[0] == w[0]);
        } else {
            assert(h[0] == marker()[0]);
        }
    }
}

proof fn lemma_section_lines(a: Seq<char>, h: Seq<char>, b: Seq<char>)
    requires
        a.len() == 0 || a.last() == '\n',
        !h.contains('\n'),
        h.len() > 0,
        h.last() != '\r',
    ensures
        lines(a + (h + seq!['\n'] + b)) == lines(a) + (seq![h] + lines(b)),
{
    let e = Seq::<char>::empty();
    let tail = h + seq!['\n'] + b;
    law_lines(h, b);
    if a.len() == 0 {
        assert(a + tail =~= tail);
        assert(a =~= e);
        assert(lines(a) + lines(tail) =~= lines(tail));
    } else {
        let x = a.drop_last();
        assert(a =~= x.push('\n'));
        law_lines_join(x, tail);
    }
}

/// Lines without headings and markers behind a heading are the last section.
proof fn lemma_last_section(la: Seq<Seq<char>>, h: Seq<char>, lb: Seq<Seq<char>>)
    requires
        h.len() > 0,
        h[0] == '#',
        trim_start(h) == h,
        forall|k: int|
            0 <= k < lb.len() ==> !is_fence(#[trigger] lb[k]) && (trim_start(lb[k]).len() > 0
                ==> trim_start(lb[k])[0] != '#'),
    ensures
        sections_from(la + (seq![h] + lb), 0, Seq::empty()) == sections_from(la, 0, Seq::empty())
            + section_unless_blank(heading_title(h), body_text(lb, 0, lb.len() as int)),
{
    let all = la + (seq![h] + lb);
    let m = la.len() as int;
    assert(all[m] == h);
    assert(all.take(m) =~= la);
    lemma_not_a_fence(h);
    assert forall|k: int| m <= k < all.len() implies !is_fence(#[trigger] all[k]) by {
        if k > m {
            assert(all[k] == lb[k - m - 1]);
        }
    }
    lemma_same_fences(all, m as nat, all.len());
    assert(is_heading(all, m));
    lemma_fences_alike(la, all, m as nat);
    assert forall|k: int| 0 <= k < m implies is_heading(la, k) == is_heading(all, k) by {
        assert(la[k] == all[k]);
        lemma_fences_alike(la, all, k as nat);
    }
    assert forall|k: int| m < k < all.len() implies !#[trigger] is_heading(all, k) by {
        assert(all[k] == lb[k - m - 1]);
    }
    lemma_sections_append(la, all, 0, Seq::empty());
    let first = la + seq![h];
    assert(all =~= first + lb);
    lemma_body_of_part(first, lb, lb.len() as int);
}

/// A heading and the text behind it are the last section of a document, whatever comes before them:
/// the title without the whitespace around it, and the text. What comes before them keeps its
/// sections.
pub proof fn law_last_section(a: Seq<char>, n: nat, t: Seq<char>, b: Seq<char>)
    requires
        a.len() == 0 || a.last() == '\n',
        n > 0,
        t.len() == 0 || t[0] != '#',
        !t.contains('\n'),
        !t.contains('\r'),
        !b.contains('#'),
        !b.contains('`'),
        !b.contains('\r'),
        trim(t).len() > 0,
    ensures
        document_sections(a + (hashes(n) + t + seq!['\n'] + b)) == document_sections(a).push(
            (trim(t), closed(b)),
        ),
{
    let h = hashes(n) + t;
    let lb = lines(b);
    lemma_heading_text(n, t);
    assert(h[0] == '#');
    lemma_section_lines(a, h, b);
    assert forall|k: int| 0 <= k < lb.len() implies !is_fence(#[trigger] lb[k]) && (trim_start(
        lb[k],
    ).len() > 0 ==> trim_start(lb[k])[0] != '#') by {
        lemma_no_hash(b, k);
    }
    lemma_last_section(lines(a), h, lb);
    lemma_body_is_text(b);
    assert(document_sections(a) + seq![(trim(t), closed(b))] =~= document_sections(a).push(
        (trim(t), closed(b)),
    ));
}

/// A text without headings is one section without a title, or none where it is blank.
pub proof fn law_text_without_headings(b: Seq<char>)
    requires
        !b.contains('#'),
        !b.contains('`'),
        !b.contains('\r'),
    ensures
        document_sections(b) == if trim(closed(b)).len() > 0 {
            seq![(Seq::<char>::empty(), closed(b))]
        } else {
            Seq::empty()
        },
{
    let all = lines(b);
    assert forall|k: int| 0 <= k < all.len() implies !#[trigger] is_heading(all, k) by {
        lemma_no_hash(b, k);
    }
    lemma_no_next(all, 0);
    lemma_body_is_text(b);
}

/// The lines of a body follow one another, each ended by a newline, and none is left out.
pub proof fn law_body(all: Seq<Seq<char>>, i: int, j: int)
    requires
        0 <= i <= j <= all.len(),
    ensures
        body_text(all, i, j) == all.subrange(i, j).fold_left(
            Seq::<char>::empty(),
            |t: Seq<char>, l: Seq<char>| t + l + seq!['\n'],
        ),
    decreases j - i,
{
    reveal(Seq::fold_left);
    let s = all.subrange(i, j);
    if i < j {
        law_body(all, i, j - 1);
        assert(s.drop_last() =~= all.subrange(i, j - 1));
        assert(s.last() == all[j - 1]);
        let t = body_text(all, i, j - 1);
        assert(t + all[j - 1].push('\n') =~= t + all[j - 1] + seq!['\n']);
    }
}

/// The next heading is the first one, at a line or behind it; where there is none, it is the end.
pub proof fn law_next_heading(all: Seq<Seq<char>>, i: int)
    requires
        0 <= i <= all.len(),
    ensures
        i <= next_heading(all, i) <= all.len(),
        next_heading(all, i) < all.len() ==> is_heading(all, next_heading(all, i)),
        forall|k: int| i <= k < next_heading(all, i) ==> !#[trigger] is_heading(all, k),
    decreases all.len() - i,
{
    if i < all.len() && !is_heading(all, i) {
        law_next_heading(all, i + 1);
    }
}

} // verus!
