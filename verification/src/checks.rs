//! Deterministic checks of a plan. What would only add variance if left to a judge is decided here.

use crate::binary64::{fraction, integer_part, product, Binary64};
use crate::contest::{Section, Spec};
use crate::text::{
    append_slice, chars_of, chomp, contains, count, count_slice, decimal, decimal_string,
    find_slice, is_blank, law_chomp_takes_space, law_lines_ended, law_lines_join, law_one_line,
    law_trim_ignores_space, law_trim_takes_space, lemma_trim_start_before, lines, lines_slice,
    occurs_at, occurs_at_slice, slice_views, starts_with, string_of, strip_leading,
    strip_leading_slice, trim, trim_slice, trim_start, trim_start_slice, views, without_space,
    without_space_slice,
};
use vstd::prelude::*;
use vstd::string::*;
use vstd::utf8::{encode_scalar, encode_utf8};

verus! {

/// Counts that describe a document.
#[derive(Debug, Clone, Default)]
pub struct Metrics {
    pub chars: usize,
    /// Number of markdown tables, by their separator rows.
    pub tables: usize,
    /// Number of citations in corner brackets.
    pub citations: usize,
    /// Number of year mentions of the twentieth and the twenty-first century.
    pub years: usize,
}

/// The marker that opens and closes a code block.
pub const FENCE: &'static str = "```";

/// Whether a line is a fence marker.
pub open spec fn is_fence(line: Seq<char>) -> bool {
    starts_with(trim_start(line), FENCE@)
}

/// How many of the first `n` lines are fence markers.
pub open spec fn fences(all: Seq<Seq<char>>, n: nat) -> nat
    decreases n,
{
    if n == 0 {
        0
    } else {
        fences(all, (n - 1) as nat) + if is_fence(all[n - 1]) {
            1nat
        } else {
            0
        }
    }
}

/// Whether line `i` stands inside a code block: an odd number of markers precedes it, and a
/// further marker follows that closes the block.
pub open spec fn in_fence(all: Seq<Seq<char>>, i: int) -> bool {
    fences(all, i as nat) % 2 == 1 && fences(all, i as nat) < fences(all, all.len())
}

/// Whether line `i` is a heading.
pub open spec fn is_heading(all: Seq<Seq<char>>, i: int) -> bool {
    &&& !is_fence(all[i])
    &&& !in_fence(all, i)
    &&& trim_start(all[i]).len() > 0
    &&& trim_start(all[i])[0] == '#'
}

/// The title that a heading line gives.
pub open spec fn heading_title(line: Seq<char>) -> Seq<char> {
    trim(strip_leading(trim_start(line), '#'))
}

/// The first heading at or after line `i`, or the number of lines where there is none.
pub open spec fn next_heading(all: Seq<Seq<char>>, i: int) -> int
    decreases all.len() - i,
{
    if i >= all.len() || is_heading(all, i) {
        i
    } else {
        next_heading(all, i + 1)
    }
}

/// The lines from `i` up to `j`, each ended by a newline.
pub open spec fn body_text(all: Seq<Seq<char>>, i: int, j: int) -> Seq<char>
    decreases j - i,
{
    if i >= j {
        Seq::empty()
    } else {
        body_text(all, i, j - 1) + all[j - 1].push('\n')
    }
}

/// The section with the given title and body, unless both are blank.
pub open spec fn section_unless_blank(title: Seq<char>, body: Seq<char>) -> Seq<
    (Seq<char>, Seq<char>),
> {
    if title.len() > 0 || trim(body).len() > 0 {
        seq![(title, body)]
    } else {
        Seq::empty()
    }
}

/// The sections from line `i` on, the first of which has the given title.
pub open spec fn sections_from(all: Seq<Seq<char>>, i: int, title: Seq<char>) -> Seq<
    (Seq<char>, Seq<char>),
>
    decreases all.len() - i,
{
    let j = next_heading(all, i);
    let here = section_unless_blank(title, body_text(all, i, j));
    if i <= j < all.len() {
        here + sections_from(all, j + 1, heading_title(all[j]))
    } else {
        here
    }
}

/// The titles and bodies of the sections of a document.
pub open spec fn document_sections(doc: Seq<char>) -> Seq<(Seq<char>, Seq<char>)> {
    sections_from(lines(doc), 0, Seq::empty())
}

/// The characters of each pair of strings of a list.
pub open spec fn pair_views(v: Seq<(String, String)>) -> Seq<(Seq<char>, Seq<char>)> {
    v.map_values(|p: (String, String)| (p.0@, p.1@))
}

pub(crate) proof fn lemma_next_heading(all: Seq<Seq<char>>, i: int)
    requires
        i <= all.len(),
    ensures
        i <= next_heading(all, i) <= all.len(),
    decreases all.len() - i,
{
    if i < all.len() && !is_heading(all, i) {
        lemma_next_heading(all, i + 1);
    }
}

pub(crate) proof fn lemma_fences_monotonic(all: Seq<Seq<char>>, m: nat, n: nat)
    requires
        m <= n,
    ensures
        fences(all, m) <= fences(all, n),
    decreases n,
{
    if m < n {
        lemma_fences_monotonic(all, m, (n - 1) as nat);
    }
}

/// Pushes the section with the given title and body, unless both are blank.
fn push_section(out: &mut Vec<(String, String)>, title: &Vec<char>, body: &Vec<char>)
    ensures
        pair_views(final(out)@) == pair_views(old(out)@) + section_unless_blank(title@, body@),
{
    let ghost before = out@;
    if title.len() > 0 || trim_slice(body.as_slice()).len() > 0 {
        let t = string_of(title);
        let b = string_of(body);
        out.push((t, b));
        assert(pair_views(out@) =~= pair_views(before) + seq![(title@, body@)]);
    } else {
        assert(pair_views(out@) =~= pair_views(before) + Seq::empty());
    }
}

/// Splits a document into the titles and bodies of its sections. A heading is a line that starts
/// with `#` outside code blocks. The text before the first heading is a section without a title.
pub fn split_sections(doc: &str) -> (out: Vec<(String, String)>)
    ensures
        pair_views(out@) == document_sections(doc@),
{
    let text = chars_of(doc);
    let fence = chars_of(FENCE);
    let all = lines_slice(text.as_slice());
    let ghost ls = lines(doc@);
    assert(slice_views(all@) == ls);
    let n: usize = all.len();
    let mut total: usize = 0;
    let mut i: usize = 0;
    while i < n
        invariant
            n == all@.len(),
            i <= n,
            slice_views(all@) == ls,
            fence@ == FENCE@,
            total == fences(ls, i as nat),
            total <= i,
        decreases n - i,
    {
        assert(ls[i as int] == all@[i as int]@);
        if occurs_at_slice(trim_start_slice(all[i]), fence.as_slice(), 0) {
            total += 1;
        }
        i += 1;
    }
    let mut out: Vec<(String, String)> = Vec::new();
    let mut title: Vec<char> = Vec::new();
    let mut body: Vec<char> = Vec::new();
    let mut seen: usize = 0;
    let mut at: usize = 0;
    let ghost mut start: int = 0;
    assert(pair_views(out@) =~= Seq::empty());
    proof {
        lemma_next_heading(ls, 0);
    }
    while at < n
        invariant
            n == all@.len(),
            n == ls.len(),
            at <= n,
            slice_views(all@) == ls,
            fence@ == FENCE@,
            total == fences(ls, n as nat),
            seen == fences(ls, at as nat),
            seen <= at,
            0 <= start <= at,
            body@ == body_text(ls, start, at as int),
            next_heading(ls, start) == next_heading(ls, at as int),
            pair_views(out@) + sections_from(ls, start, title@) == document_sections(doc@),
        decreases n - at,
    {
        let line = all[at];
        assert(ls[at as int] == line@);
        let t = trim_start_slice(line);
        if occurs_at_slice(t, fence.as_slice(), 0) {
            seen += 1;
            append_slice(&mut body, line);
            body.push('\n');
            assert(body@ =~= body_text(ls, start, at as int) + line@.push('\n'));
        } else {
            let fenced = seen % 2 == 1 && seen < total;
            if !fenced && t.len() > 0 && t[0] == '#' {
                assert(is_heading(ls, at as int));
                let ghost before = pair_views(out@);
                push_section(&mut out, &title, &body);
                let rest = trim_slice(strip_leading_slice(t, '#'));
                title = Vec::new();
                append_slice(&mut title, rest);
                body = Vec::new();
                proof {
                    assert(title@ =~= heading_title(line@));
                    let here = section_unless_blank(title@, body@);
                    assert(pair_views(out@) + sections_from(ls, at + 1, title@)
                        =~= document_sections(doc@));
                    start = at + 1;
                }
            } else {
                append_slice(&mut body, line);
                body.push('\n');
                assert(body@ =~= body_text(ls, start, at as int) + line@.push('\n'));
            }
        }
        at += 1;
    }
    push_section(&mut out, &title, &body);
    out
}

/// No line between the two markers of a code block is a heading.
pub proof fn law_no_heading_in_code_block(all: Seq<Seq<char>>, a: int, i: int, b: int)
    requires
        0 <= a < i < b < all.len(),
        is_fence(all[a]),
        is_fence(all[b]),
        fences(all, a as nat) % 2 == 0,
        forall|k: int| a < k < b ==> !is_fence(#[trigger] all[k]),
    ensures
        !is_heading(all, i),
{
    lemma_same_fences(all, (a + 1) as nat, i as nat);
    lemma_same_fences(all, (a + 1) as nat, b as nat);
    lemma_fences_monotonic(all, (b + 1) as nat, all.len());
}

/// A code block that is never closed hides nothing: behind the last marker, each line that starts
/// with `#` is a heading.
pub proof fn law_unterminated_block_hides_nothing(all: Seq<Seq<char>>, i: int)
    requires
        0 <= i < all.len(),
        forall|k: int| i <= k < all.len() ==> !is_fence(#[trigger] all[k]),
        trim_start(all[i]).len() > 0,
        trim_start(all[i])[0] == '#',
    ensures
        is_heading(all, i),
{
    lemma_same_fences(all, i as nat, all.len());
}

pub(crate) proof fn lemma_same_fences(all: Seq<Seq<char>>, m: nat, n: nat)
    requires
        m <= n,
        forall|k: int| m <= k < n ==> !is_fence(#[trigger] all[k]),
    ensures
        fences(all, m) == fences(all, n),
    decreases n,
{
    if m < n {
        lemma_same_fences(all, m, (n - 1) as nat);
        assert(!is_fence(all[n - 1]));
    }
}

/// Whether a section of a document is the one under heading `j`.
pub open spec fn is_under(doc: Seq<char>, k: int, j: int) -> bool {
    &&& 0 <= k < document_sections(doc).len()
    &&& document_sections(doc)[k].0 == heading_title(lines(doc)[j])
    &&& document_sections(doc)[k].1 == body_text(lines(doc), j + 1, next_heading(lines(doc), j + 1))
}

proof fn lemma_section_under(all: Seq<Seq<char>>, i: int, title: Seq<char>, j: int) -> (k: int)
    requires
        0 <= i <= j < all.len(),
        is_heading(all, j),
        heading_title(all[j]).len() > 0,
    ensures
        0 <= k < sections_from(all, i, title).len(),
        sections_from(all, i, title)[k] == (
            heading_title(all[j]),
            body_text(all, j + 1, next_heading(all, j + 1)),
        ),
    decreases all.len() - i,
{
    lemma_next_heading(all, i);
    lemma_next_heading_first(all, i, j);
    let h = next_heading(all, i);
    let here = section_unless_blank(title, body_text(all, i, h));
    let rest = sections_from(all, h + 1, heading_title(all[h]));
    assert(sections_from(all, i, title) == here + rest);
    if j == h {
        lemma_next_heading(all, h + 1);
        assert(rest[0] == (heading_title(all[j]), body_text(all, j + 1, next_heading(all, j + 1))));
        here.len() as int
    } else {
        let k = lemma_section_under(all, h + 1, heading_title(all[h]), j);
        here.len() + k
    }
}

pub(crate) proof fn lemma_next_heading_first(all: Seq<Seq<char>>, i: int, j: int)
    requires
        i <= j < all.len(),
        is_heading(all, j),
    ensures
        next_heading(all, i) <= j,
        is_heading(all, next_heading(all, i)),
    decreases j - i,
{
    if !is_heading(all, i) {
        lemma_next_heading_first(all, i + 1, j);
    }
}

/// Each heading with a title begins a section: its title, and the lines up to the next heading.
pub proof fn law_heading_begins_section(doc: Seq<char>, j: int)
    requires
        0 <= j < lines(doc).len(),
        is_heading(lines(doc), j),
        heading_title(lines(doc)[j]).len() > 0,
    ensures
        exists|k: int| is_under(doc, k, j),
{
    let k = lemma_section_under(lines(doc), 0, Seq::empty(), j);
    assert(is_under(doc, k, j));
}

proof fn lemma_titles_from(all: Seq<Seq<char>>, i: int, title: Seq<char>, k: int)
    requires
        0 <= i <= all.len(),
        0 <= k < sections_from(all, i, title).len(),
    ensures
        sections_from(all, i, title)[k].0 == title || exists|j: int|
            0 <= j < all.len() && is_heading(all, j) && sections_from(all, i, title)[k].0
                == heading_title(#[trigger] all[j]),
    decreases all.len() - i,
{
    lemma_next_heading(all, i);
    let h = next_heading(all, i);
    let here = section_unless_blank(title, body_text(all, i, h));
    if h < all.len() {
        let rest = sections_from(all, h + 1, heading_title(all[h]));
        if k >= here.len() {
            lemma_titles_from(all, h + 1, heading_title(all[h]), k - here.len());
            assert(sections_from(all, i, title)[k] == rest[k - here.len()]);
            if rest[k - here.len()].0 == heading_title(all[h]) {
                lemma_next_heading_is(all, i);
                assert(is_heading(all, h));
            }
        }
    }
}

pub(crate) proof fn lemma_next_heading_is(all: Seq<Seq<char>>, i: int)
    requires
        0 <= i,
        next_heading(all, i) < all.len(),
    ensures
        is_heading(all, next_heading(all, i)),
    decreases all.len() - i,
{
    if i < all.len() && !is_heading(all, i) {
        lemma_next_heading_is(all, i + 1);
    }
}

/// Each section with a title stands under a heading with that title.
pub proof fn law_section_has_heading(doc: Seq<char>, k: int)
    requires
        0 <= k < document_sections(doc).len(),
        document_sections(doc)[k].0.len() > 0,
    ensures
        exists|j: int|
            0 <= j < lines(doc).len() && is_heading(lines(doc), j) && document_sections(doc)[k].0
                == heading_title(#[trigger] lines(doc)[j]),
{
    lemma_titles_from(lines(doc), 0, Seq::empty(), k);
}

/// Whether a line is the separator row of a table.
pub open spec fn is_table_rule(line: Seq<char>) -> bool {
    &&& trim(line).len() > 0
    &&& trim(line)[0] == '|'
    &&& contains(trim(line), "---"@)
}

/// How many of the first `n` lines are separator rows of tables.
pub open spec fn table_rules(all: Seq<Seq<char>>, n: nat) -> nat
    decreases n,
{
    if n == 0 {
        0
    } else {
        table_rules(all, (n - 1) as nat) + if is_table_rule(all[n - 1]) {
            1nat
        } else {
            0
        }
    }
}

/// Whether a character is an ASCII digit.
pub open spec fn is_digit(c: char) -> bool {
    '0' <= c <= '9'
}

/// Whether a four-digit year of the twentieth or the twenty-first century stands at position `i`,
/// with no digit before or after it.
pub open spec fn year_at(s: Seq<char>, i: int) -> bool {
    &&& 0 <= i <= s.len() - 4
    &&& s[i] == '1' && s[i + 1] == '9' || s[i] == '2' && s[i + 1] == '0'
    &&& is_digit(s[i + 2]) && is_digit(s[i + 3])
    &&& i == 0 || !is_digit(s[i - 1])
    &&& i + 4 == s.len() || !is_digit(s[i + 4])
}

/// How many years stand at the first `n` positions.
pub open spec fn years(s: Seq<char>, n: nat) -> nat
    decreases n,
{
    if n == 0 {
        0
    } else {
        years(s, (n - 1) as nat) + if year_at(s, n - 1) {
            1nat
        } else {
            0
        }
    }
}

/// The lesser of two numbers.
pub open spec fn lesser(a: nat, b: nat) -> nat {
    if a <= b {
        a
    } else {
        b
    }
}

/// What the counts of a document are.
pub open spec fn describes(m: Metrics, doc: Seq<char>) -> bool {
    &&& m.chars == doc.len()
    &&& m.tables == table_rules(lines(doc), lines(doc).len())
    &&& m.citations == lesser(count(doc, '「'), count(doc, '」'))
    &&& m.years == years(doc, doc.len())
}

fn digit_char(c: char) -> (r: bool)
    ensures
        r == is_digit(c),
{
    '0' <= c && c <= '9'
}

fn count_years(s: &[char]) -> (n: usize)
    ensures
        n == years(s@, s@.len()),
{
    let mut n: usize = 0;
    let mut i: usize = 0;
    let len: usize = s.len();
    while i < len && len - i > 3
        invariant
            len == s@.len(),
            i <= len,
            n == years(s@, i as nat),
            n <= i,
        decreases len - i,
    {
        if (s[i] == '1' && s[i + 1] == '9' || s[i] == '2' && s[i + 1] == '0') && digit_char(
            s[i + 2],
        ) && digit_char(s[i + 3]) {
            let prev_ok = i == 0 || !digit_char(s[i - 1]);
            let next_ok = len - i <= 4 || !digit_char(s[i + 4]);
            if prev_ok && next_ok {
                proof {
                    assert(year_at(s@, i as int));
                    assert(!year_at(s@, i + 1));
                    assert(!year_at(s@, i + 2));
                    assert(!year_at(s@, i + 3));
                    reveal_with_fuel(years, 5);
                }
                n += 1;
                i += 4;
                continue ;
            }
        }
        assert(!year_at(s@, i as int));
        i += 1;
    }
    proof {
        lemma_no_late_years(s@, i as nat, s@.len());
    }
    n
}

proof fn lemma_no_late_years(s: Seq<char>, i: nat, n: nat)
    requires
        i <= n,
        i + 3 >= s.len(),
    ensures
        years(s, n) == years(s, i),
    decreases n,
{
    if i < n {
        lemma_no_late_years(s, i, (n - 1) as nat);
    }
}

/// The counts that describe a document.
pub fn metrics(doc: &str) -> (m: Metrics)
    ensures
        describes(m, doc@),
{
    let text = chars_of(doc);
    let rule = chars_of("---");
    let all = lines_slice(text.as_slice());
    let ghost ls = lines(doc@);
    let mut tables: usize = 0;
    let mut i: usize = 0;
    while i < all.len()
        invariant
            i <= all@.len(),
            slice_views(all@) == ls,
            rule@ == "---"@,
            tables == table_rules(ls, i as nat),
            tables <= i,
        decreases all@.len() - i,
    {
        assert(ls[i as int] == all@[i as int]@);
        let t = trim_slice(all[i]);
        if t.len() > 0 && t[0] == '|' && find_slice(t, rule.as_slice()).is_some() {
            tables += 1;
        }
        i += 1;
    }
    let opened = count_slice(text.as_slice(), '「');
    let closed = count_slice(text.as_slice(), '」');
    let citations = if opened <= closed {
        opened
    } else {
        closed
    };
    Metrics { chars: text.len(), tables, citations, years: count_years(text.as_slice()) }
}

/// A title as it is compared: without whitespace.
pub fn norm(s: &str) -> (r: String)
    ensures
        r@ == without_space(s@),
{
    string_of(&without_space_slice(chars_of(s).as_slice()))
}

/// The length in bytes of the UTF-8 encoding.
pub open spec fn byte_len(s: Seq<char>) -> usize {
    encode_utf8(s).len() as usize
}

/// How far the lengths of two titles are apart.
pub open spec fn length_gap(a: Seq<char>, b: Seq<char>) -> int {
    if byte_len(a) >= byte_len(b) {
        byte_len(a) - byte_len(b)
    } else {
        byte_len(b) - byte_len(a)
    }
}

/// Whether a heading can stand for a declared title: one contains the other.
pub open spec fn compatible(head: Seq<char>, want: Seq<char>) -> bool {
    want.len() > 0 && (contains(head, want) || contains(want, head))
}

/// Whether a heading stands for the declared title `i`: of the titles that it can stand for, none
/// is closer in length, and none before it is as close.
pub open spec fn stands_for(head: Seq<char>, wants: Seq<Seq<char>>, i: int) -> bool {
    &&& head.len() > 0
    &&& 0 <= i < wants.len()
    &&& compatible(head, wants[i])
    &&& forall|j: int|
        #![trigger wants[j]]
        0 <= j < wants.len() && compatible(head, wants[j]) ==> length_gap(head, wants[i])
            <= length_gap(head, wants[j]) && (j < i ==> length_gap(head, wants[i]) < length_gap(
            head,
            wants[j],
        ))
}

fn gap(a: &String, b: &String) -> (r: usize)
    ensures
        r == length_gap(a@, b@),
{
    let x: usize = a.as_str().len();
    let y: usize = b.as_str().len();
    if x >= y {
        x - y
    } else {
        y - x
    }
}

/// The declared title that a heading stands for.
fn match_heading(head: &String, wants: &Vec<String>) -> (r: Option<usize>)
    ensures
        forall|i: int|
            #![trigger stands_for(head@, views(wants@), i)]
            stands_for(head@, views(wants@), i) <==> (r is Some && r->0 == i),
{
    let ghost ws = views(wants@);
    let h = chars_of(head.as_str());
    if h.len() == 0 {
        return None;
    }
    let mut best: Option<(usize, usize)> = None;
    let mut i: usize = 0;
    while i < wants.len()
        invariant
            i <= wants@.len(),
            ws == views(wants@),
            h@ == head@,
            head@.len() > 0,
            match best {
                None => forall|j: int|
                    #![trigger ws[j]]
                    0 <= j < i ==> !compatible(head@, ws[j]),
                Some((b, diff)) => {
                    &&& b < i
                    &&& compatible(head@, ws[b as int])
                    &&& diff == length_gap(head@, ws[b as int])
                    &&& forall|j: int|
                        #![trigger ws[j]]
                        0 <= j < i && compatible(head@, ws[j]) ==> diff <= length_gap(head@, ws[j])
                            && (j < b ==> diff < length_gap(head@, ws[j]))
                },
            },
        decreases wants@.len() - i,
    {
        assert(ws[i as int] == wants@[i as int]@);
        let w = chars_of(wants[i].as_str());
        if w.len() > 0 && (find_slice(h.as_slice(), w.as_slice()).is_some() || find_slice(
            w.as_slice(),
            h.as_slice(),
        ).is_some()) {
            assert(compatible(head@, ws[i as int]));
            let diff = gap(head, &wants[i]);
            let better = match best {
                None => true,
                Some((_, best_diff)) => diff < best_diff,
            };
            if better {
                best = Some((i, diff));
            }
        } else {
            assert(!compatible(head@, ws[i as int]));
        }
        i += 1;
    }
    match best {
        None => None,
        Some((b, _)) => {
            assert(stands_for(head@, ws, b as int));
            assert forall|k: int| #![trigger stands_for(head@, ws, k)] stands_for(head@, ws, k) implies k
                == b by {
                let x = ws[k];
                let y = ws[b as int];
            }
            Some(b)
        },
    }
}

/// For each heading, the declared title that it stands for, if any. A heading stands for at most
/// one title: the one closest in length.
pub fn match_headings(heads: &Vec<String>, wants: &Vec<String>) -> (r: Vec<Option<usize>>)
    ensures
        r@.len() == heads@.len(),
        forall|k: int, i: int|
            #![trigger stands_for(heads@[k]@, views(wants@), i)]
            0 <= k < heads@.len() ==> (stands_for(heads@[k]@, views(wants@), i) <==> (r@[k] is Some
                && r@[k]->0 == i)),
{
    let mut r: Vec<Option<usize>> = Vec::new();
    let mut k: usize = 0;
    while k < heads.len()
        invariant
            k <= heads@.len(),
            r@.len() == k,
            forall|a: int, i: int|
                #![trigger stands_for(heads@[a]@, views(wants@), i)]
                0 <= a < k ==> (stands_for(heads@[a]@, views(wants@), i) <==> (r@[a] is Some
                    && r@[a]->0 == i)),
        decreases heads@.len() - k,
    {
        r.push(match_heading(&heads[k], wants));
        k += 1;
    }
    r
}

/// The headings of a document's sections, as they are compared.
pub open spec fn compared_heads(secs: Seq<(Seq<char>, Seq<char>)>) -> Seq<Seq<char>> {
    secs.map_values(|p: (Seq<char>, Seq<char>)| without_space(p.0))
}

/// The declared titles, as they are compared.
pub open spec fn compared_titles(sections: Seq<Section>) -> Seq<Seq<char>> {
    sections.map_values(|s: Section| without_space(s.title@))
}

/// Whether some heading stands for the declared title `i`.
pub open spec fn is_present(heads: Seq<Seq<char>>, wants: Seq<Seq<char>>, i: int) -> bool {
    exists|k: int| 0 <= k < heads.len() && stands_for(#[trigger] heads[k], wants, i)
}

/// The titles of those of the first `n` sections that are required and that no heading stands for.
pub open spec fn missing_titles(sections: Seq<Section>, heads: Seq<Seq<char>>, n: nat) -> Seq<
    Seq<char>,
>
    decreases n,
{
    if n == 0 {
        Seq::empty()
    } else {
        let before = missing_titles(sections, heads, (n - 1) as nat);
        if sections[n - 1].required && !is_present(heads, compared_titles(sections), n - 1) {
            before.push(sections[n - 1].title@)
        } else {
            before
        }
    }
}

/// The titles of the required sections that a document lacks.
pub open spec fn missing_in(sections: Seq<Section>, doc: Seq<char>) -> Seq<Seq<char>> {
    missing_titles(sections, compared_heads(document_sections(doc)), sections.len())
}

/// A heading stands for at most one declared title.
pub proof fn law_heading_stands_for_one(head: Seq<char>, wants: Seq<Seq<char>>, i: int, j: int)
    requires
        stands_for(head, wants, i),
        stands_for(head, wants, j),
    ensures
        i == j,
{
    assert(compatible(head, wants[i]) && compatible(head, wants[j]));
}

/// A heading that can stand for some declared title stands for one.
pub proof fn law_heading_stands_for_some(head: Seq<char>, wants: Seq<Seq<char>>, i: int)
    requires
        head.len() > 0,
        0 <= i < wants.len(),
        compatible(head, wants[i]),
    ensures
        exists|j: int| stands_for(head, wants, j),
{
    let j = lemma_closest(head, wants, wants.len() as int, i);
    assert(stands_for(head, wants, j));
}

/// The closest of the first `n` titles.
proof fn lemma_closest(head: Seq<char>, wants: Seq<Seq<char>>, n: int, i: int) -> (b: int)
    requires
        0 <= i < n <= wants.len(),
        compatible(head, wants[i]),
    ensures
        0 <= b < n,
        compatible(head, wants[b]),
        forall|j: int|
            #![trigger wants[j]]
            0 <= j < n && compatible(head, wants[j]) ==> length_gap(head, wants[b]) <= length_gap(
                head,
                wants[j],
            ) && (j < b ==> length_gap(head, wants[b]) < length_gap(head, wants[j])),
    decreases n,
{
    let last = n - 1;
    if exists|a: int| 0 <= a < last && compatible(head, #[trigger] wants[a]) {
        let a = choose|a: int| 0 <= a < last && compatible(head, #[trigger] wants[a]);
        let b = lemma_closest(head, wants, last, a);
        if compatible(head, wants[last]) && length_gap(head, wants[last]) < length_gap(
            head,
            wants[b],
        ) {
            last
        } else {
            b
        }
    } else {
        assert(i == last);
        last
    }
}

proof fn lemma_bytes_concat(a: Seq<char>, b: Seq<char>)
    ensures
        encode_utf8(a + b) == encode_utf8(a) + encode_utf8(b),
    decreases a.len(),
{
    if a.len() == 0 {
        assert(a + b =~= b);
        assert(encode_utf8(a) =~= Seq::empty());
        assert(encode_utf8(a) + encode_utf8(b) =~= encode_utf8(b));
    } else {
        lemma_bytes_concat(a.drop_first(), b);
        assert((a + b).drop_first() =~= a.drop_first() + b);
        let c = encode_scalar(a[0] as u32);
        assert(c + (encode_utf8(a.drop_first()) + encode_utf8(b)) =~= (c + encode_utf8(
            a.drop_first(),
        )) + encode_utf8(b));
    }
}

proof fn lemma_bytes_positive(s: Seq<char>)
    ensures
        s.len() > 0 ==> encode_utf8(s).len() > 0,
{
}

proof fn lemma_contained_as_long(s: Seq<char>, w: Seq<char>)
    requires
        contains(s, w),
    ensures
        encode_utf8(w).len() <= encode_utf8(s).len(),
        encode_utf8(w).len() == encode_utf8(s).len() ==> s == w,
{
    let i = choose|i: int| occurs_at(s, w, i);
    let head = s.take(i);
    let tail = s.skip(i + w.len());
    assert(s =~= head + (w + tail));
    lemma_bytes_concat(head, w + tail);
    lemma_bytes_concat(w, tail);
    lemma_bytes_positive(head);
    lemma_bytes_positive(tail);
    if encode_utf8(w).len() == encode_utf8(s).len() {
        assert(s =~= w);
    }
}

/// A declared title that a heading spells exactly is the one that the heading stands for, whatever
/// other titles it contains or is contained in.
pub proof fn law_exact_title_wins(head: Seq<char>, wants: Seq<Seq<char>>, i: int, j: int)
    requires
        0 <= i < wants.len(),
        wants[i] == head,
        stands_for(head, wants, j),
        encode_utf8(head).len() <= usize::MAX,
        encode_utf8(wants[j]).len() <= usize::MAX,
    ensures
        wants[j] == head,
{
    assert(head.subrange(0, head.len() as int) =~= head);
    assert(occurs_at(head, head, 0));
    assert(compatible(head, wants[i]));
    assert(length_gap(head, wants[j]) <= length_gap(head, wants[i]));
    if contains(head, wants[j]) {
        lemma_contained_as_long(head, wants[j]);
    } else {
        lemma_contained_as_long(wants[j], head);
    }
}

/// Among the first `n` sections, exactly the required ones that no heading stands for are missing.
pub proof fn law_missing(sections: Seq<Section>, heads: Seq<Seq<char>>, n: nat, title: Seq<char>)
    requires
        n <= sections.len(),
    ensures
        missing_titles(sections, heads, n).contains(title) <==> exists|i: int|
            0 <= i < n && (#[trigger] sections[i]).required && sections[i].title@ == title
                && !is_present(heads, compared_titles(sections), i),
    decreases n,
{
    if n > 0 {
        let before = missing_titles(sections, heads, (n - 1) as nat);
        let now = missing_titles(sections, heads, n);
        law_missing(sections, heads, (n - 1) as nat, title);
        let s = sections[n - 1];
        if s.required && !is_present(heads, compared_titles(sections), n - 1) {
            assert(now == before.push(s.title@));
            assert(now[before.len() as int] == s.title@);
            if before.contains(title) {
                let k = choose|k: int| 0 <= k < before.len() && before[k] == title;
                assert(now[k] == title);
            }
            if now.contains(title) && !before.contains(title) {
                let k = choose|k: int| 0 <= k < now.len() && now[k] == title;
                assert(k == before.len()) by {
                    if k < before.len() {
                        assert(before[k] == title);
                    }
                }
            }
        }
    }
}

/// A document with a heading line added at its end.
pub open spec fn with_heading(doc: Seq<char>, title: Seq<char>) -> Seq<char> {
    doc + "\n## "@ + title + "\n"@
}

/// A heading line's title as it is compared.
pub open spec fn compared_title(line: Seq<char>) -> Seq<char> {
    without_space(heading_title(line))
}

/// Whether some heading among the lines stands for the declared title `i`.
pub open spec fn some_heading(all: Seq<Seq<char>>, wants: Seq<Seq<char>>, i: int) -> bool {
    exists|j: int|
        0 <= j < all.len() && is_heading(all, j) && stands_for(
            compared_title(#[trigger] all[j]),
            wants,
            i,
        )
}

pub(crate) proof fn lemma_some_heading(doc: Seq<char>, wants: Seq<Seq<char>>, i: int)
    ensures
        is_present(compared_heads(document_sections(doc)), wants, i) == some_heading(
            lines(doc),
            wants,
            i,
        ),
{
    let secs = document_sections(doc);
    let heads = compared_heads(secs);
    let all = lines(doc);
    if is_present(heads, wants, i) {
        let k = choose|k: int| 0 <= k < heads.len() && stands_for(#[trigger] heads[k], wants, i);
        assert(heads[k] == without_space(secs[k].0));
        lemma_without_space_empty(secs[k].0);
        law_section_has_heading(doc, k);
        let j = choose|j: int|
            0 <= j < all.len() && is_heading(all, j) && secs[k].0 == heading_title(
                #[trigger] all[j],
            );
        assert(stands_for(compared_title(all[j]), wants, i));
    }
    if some_heading(all, wants, i) {
        let j = choose|j: int|
            0 <= j < all.len() && is_heading(all, j) && stands_for(
                compared_title(#[trigger] all[j]),
                wants,
                i,
            );
        lemma_without_space_empty(heading_title(all[j]));
        law_heading_begins_section(doc, j);
        let k = choose|k: int| is_under(doc, k, j);
        assert(heads[k] == compared_title(all[j]));
    }
}

pub(crate) proof fn lemma_without_space_empty(s: Seq<char>)
    ensures
        without_space(s).len() > 0 ==> s.len() > 0,
{
    if s.len() == 0 {
        reveal(Seq::filter);
    }
}

pub(crate) proof fn lemma_strip_leading_before(a: Seq<char>, w: Seq<char>, c: char)
    requires
        w.len() > 0,
        w[0] != c,
    ensures
        strip_leading(a + w, c) == strip_leading(a, c) + w,
    decreases a.len(),
{
    if a.len() == 0 {
        assert(a + w =~= w);
        assert(strip_leading(a, c) + w =~= w);
    } else {
        assert((a + w)[0] == a[0]);
        if a[0] == c {
            assert((a + w).drop_first() =~= a.drop_first() + w);
            lemma_strip_leading_before(a.drop_first(), w, c);
        }
    }
}

/// The carriage return that ends a line makes no difference to what the line is.
pub(crate) proof fn lemma_chomped_line(x: Seq<char>)
    ensures
        is_fence(chomp(x)) == is_fence(x),
        (trim_start(chomp(x)).len() > 0 && trim_start(chomp(x))[0] == '#') == (trim_start(x).len()
            > 0 && trim_start(x)[0] == '#'),
        compared_title(chomp(x)) == compared_title(x),
{
    reveal_strlit("```");
    if x.len() > 0 && x.last() == '\r' {
        let z = chomp(x);
        let w = seq!['\r'];
        assert(x =~= z + w);
        lemma_trim_start_before(z, w);
        let a = trim_start(z);
        let b = trim_start(x);
        law_trim_takes_space(strip_leading(a, '#'));
        law_trim_takes_space(strip_leading(b, '#'));
        if b == a + w {
            if starts_with(a, FENCE@) {
                assert(b.subrange(0, 3) =~= a.subrange(0, 3));
            }
            if starts_with(b, FENCE@) {
                assert(b.subrange(0, 3)[2] == b[2]);
                assert(b.subrange(0, 3)[1] == b[1]);
                assert(b.subrange(0, 3)[0] == b[0]);
                assert(a.len() >= 3);
                assert(b.subrange(0, 3) =~= a.subrange(0, 3));
            }
            lemma_strip_leading_before(a, w, '#');
            let s = strip_leading(b, '#');
            assert(s.last() == '\r');
            law_chomp_takes_space(s);
            assert(chomp(s) =~= strip_leading(a, '#'));
        } else {
            assert(a =~= b);
        }
    }
}

pub(crate) proof fn lemma_fences_alike(a: Seq<Seq<char>>, b: Seq<Seq<char>>, n: nat)
    requires
        n <= a.len(),
        n <= b.len(),
        forall|k: int| 0 <= k < n ==> is_fence(#[trigger] a[k]) == is_fence(b[k]),
    ensures
        fences(a, n) == fences(b, n),
    decreases n,
{
    if n > 0 {
        lemma_fences_alike(a, b, (n - 1) as nat);
        assert(is_fence(a[n - 1]) == is_fence(b[n - 1]));
    }
}

/// The lines of a document with a heading line added: those of the document, as good as unchanged,
/// perhaps an empty one, and the heading line.
proof fn lemma_lines_with_heading(doc: Seq<char>, title: Seq<char>)
    requires
        !title.contains('\n'),
        !title.contains('\r'),
    ensures
        ({
            let l = lines(doc);
            let n = lines(with_heading(doc, title));
            &&& l.len() + 1 <= n.len() <= l.len() + 2
            &&& n.last() == "## "@ + title
            &&& n.len() == l.len() + 2 ==> n[l.len() as int].len() == 0
            &&& forall|k: int|
                0 <= k < l.len() ==> n[k] == #[trigger] l[k] || n[k] == chomp(l[k])
        }),
{
    reveal_strlit("\n## ");
    reveal_strlit("## ");
    reveal_strlit("\n");
    let h = "## "@ + title;
    let d = with_heading(doc, title);
    assert(d =~= doc.push('\n') + h.push('\n'));
    law_lines_join(doc, h.push('\n'));
    law_lines_ended(doc);
    assert(!h.contains('\n')) by {
        if h.contains('\n') {
            let k = choose|k: int| 0 <= k < h.len() && h[k] == '\n';
            assert(title[k - 3] == '\n');
        }
    }
    assert(h.last() != '\r') by {
        if title.len() > 0 {
            assert(h.last() == title[title.len() - 1]);
        }
    }
    law_one_line(h);
    let m = lines(doc.push('\n'));
    let n = lines(d);
    assert(n =~= m.push(h));
    let l = lines(doc);
    assert forall|k: int| 0 <= k < l.len() implies n[k] == #[trigger] l[k] || n[k] == chomp(
        l[k],
    ) by {
        assert(n[k] == m[k]);
    }
}

proof fn lemma_heading_line(title: Seq<char>)
    ensures
        !is_fence("## "@ + title),
        trim_start("## "@ + title).len() > 0,
        trim_start("## "@ + title)[0] == '#',
        compared_title("## "@ + title) == without_space(title),
{
    reveal_strlit("## ");
    reveal_strlit("```");
    let h = "## "@ + title;
    assert(h[0] == '#' && h[1] == '#' && h[2] == ' ');
    assert(trim_start(h) == h);
    if is_fence(h) {
        assert(h.subrange(0, 3)[0] == h[0]);
    }
    let w = seq![' '] + title;
    let a = seq!['#', '#'];
    assert(h =~= a + w);
    lemma_strip_leading_before(a, w, '#');
    reveal_with_fuel(strip_leading, 3);
    assert(a.drop_first().drop_first() =~= Seq::empty());
    assert(strip_leading(a, '#') =~= Seq::empty());
    assert(strip_leading(h, '#') =~= w);
    law_trim_takes_space(w);
    law_trim_takes_space(title);
    assert(is_blank(seq![' ']));
    let e = Seq::<char>::empty();
    law_trim_ignores_space(seq![' '], title, e);
    assert(seq![' '] + title + e =~= w);
}

/// The headings of a document with a heading line added are those of the document and that one.
proof fn lemma_headings_with_heading(
    doc: Seq<char>,
    title: Seq<char>,
    wants: Seq<Seq<char>>,
    i: int,
)
    requires
        !title.contains('\n'),
        !title.contains('\r'),
    ensures
        some_heading(lines(with_heading(doc, title)), wants, i) == (some_heading(
            lines(doc),
            wants,
            i,
        ) || stands_for(without_space(title), wants, i)),
{
    let l = lines(doc);
    let n = lines(with_heading(doc, title));
    lemma_lines_with_heading(doc, title);
    lemma_heading_line(title);
    assert forall|k: int| 0 <= k < l.len() implies is_fence(#[trigger] l[k]) == is_fence(n[k]) by {
        lemma_chomped_line(l[k]);
    }
    let m = l.len();
    assert forall|k: int| m <= k < n.len() implies !is_fence(#[trigger] n[k]) by {
        if k < n.len() - 1 {
            reveal_strlit("```");
        }
    }
    lemma_fences_alike(l, n, m);
    lemma_same_fences(n, m, n.len());
    assert forall|k: int| 0 <= k < m implies is_heading(n, k) == is_heading(l, k)
        && compared_title(#[trigger] l[k]) == compared_title(n[k]) by {
        lemma_chomped_line(l[k]);
        lemma_fences_alike(l, n, k as nat);
    }
    let last = n.len() - 1;
    lemma_same_fences(n, last as nat, n.len());
    assert(is_heading(n, last));
    assert(n[last] == "## "@ + title);
    if some_heading(n, wants, i) {
        let j = choose|j: int|
            0 <= j < n.len() && is_heading(n, j) && stands_for(
                compared_title(#[trigger] n[j]),
                wants,
                i,
            );
        if j < m {
            assert(compared_title(l[j]) == compared_title(n[j]));
            assert(some_heading(l, wants, i));
        } else if j < last {
            assert(n[j].len() == 0);
            assert(false);
        }
    }
    if some_heading(l, wants, i) {
        let j = choose|j: int|
            0 <= j < l.len() && is_heading(l, j) && stands_for(
                compared_title(#[trigger] l[j]),
                wants,
                i,
            );
        assert(stands_for(compared_title(n[j]), wants, i));
    }
}

/// Whether the declared titles, as they are compared, are nonempty, distinct and of a length that a
/// string can have.
pub open spec fn clear_titles(wants: Seq<Seq<char>>) -> bool {
    &&& forall|i: int|
        0 <= i < wants.len() ==> (#[trigger] wants[i]).len() > 0 && encode_utf8(wants[i]).len()
            <= usize::MAX
    &&& forall|i: int, j: int|
        #![trigger wants[i], wants[j]]
        0 <= i < j < wants.len() ==> wants[i] != wants[j]
}

proof fn lemma_compatible_with_itself(h: Seq<char>)
    requires
        h.len() > 0,
    ensures
        compatible(h, h),
{
    assert(h.subrange(0, h.len() as int) =~= h);
    assert(occurs_at(h, h, 0));
}

/// The title that a declared title, as a heading, stands for is that title.
proof fn lemma_closest_is_itself(wants: Seq<Seq<char>>, k: int, j: int)
    requires
        clear_titles(wants),
        0 <= k < wants.len(),
        stands_for(wants[k], wants, j),
    ensures
        j == k,
{
    assert(0 <= j < wants.len());
    let a = wants[j];
    let b = wants[k];
    assert(encode_utf8(a).len() <= usize::MAX && encode_utf8(b).len() <= usize::MAX);
    law_exact_title_wins(b, wants, k, j);
}

proof fn lemma_stands_for_itself(wants: Seq<Seq<char>>, k: int, i: int)
    requires
        clear_titles(wants),
        0 <= k < wants.len(),
    ensures
        stands_for(wants[k], wants, i) == (i == k),
{
    let h = wants[k];
    assert(h.len() > 0);
    lemma_compatible_with_itself(h);
    law_heading_stands_for_some(h, wants, k);
    let j = choose|j: int| stands_for(h, wants, j);
    lemma_closest_is_itself(wants, k, j);
    if stands_for(h, wants, i) {
        lemma_closest_is_itself(wants, k, i);
    }
}

/// A list of titles without the given one.
pub open spec fn without(titles: Seq<Seq<char>>, title: Seq<char>) -> Seq<Seq<char>> {
    titles.filter(|t: Seq<char>| t != title)
}

/// Adding the heading line of one section takes the title of that section from the missing ones, and
/// changes nothing else.
pub proof fn law_heading_supplies_its_section(sections: Seq<Section>, doc: Seq<char>, k: int)
    requires
        clear_titles(compared_titles(sections)),
        0 <= k < sections.len(),
        !sections[k].title@.contains('\n'),
        !sections[k].title@.contains('\r'),
    ensures
        missing_in(sections, with_heading(doc, sections[k].title@)) == without(
            missing_in(sections, doc),
            sections[k].title@,
        ),
{
    lemma_missing_without(sections, doc, k, sections.len());
}

proof fn lemma_missing_without(sections: Seq<Section>, doc: Seq<char>, k: int, n: nat)
    requires
        clear_titles(compared_titles(sections)),
        0 <= k < sections.len(),
        n <= sections.len(),
        !sections[k].title@.contains('\n'),
        !sections[k].title@.contains('\r'),
    ensures
        ({
            let title = sections[k].title@;
            let before = compared_heads(document_sections(doc));
            let after = compared_heads(document_sections(with_heading(doc, title)));
            missing_titles(sections, after, n) == without(
                missing_titles(sections, before, n),
                title,
            )
        }),
    decreases n,
{
    let title = sections[k].title@;
    let before = compared_heads(document_sections(doc));
    let after = compared_heads(document_sections(with_heading(doc, title)));
    let x = missing_titles(sections, before, n);
    reveal(Seq::filter);
    if n > 0 {
        let m = (n - 1) as nat;
        lemma_missing_without(sections, doc, k, m);
        let wants = compared_titles(sections);
        let y = missing_titles(sections, before, m);
        lemma_some_heading(doc, wants, m as int);
        lemma_some_heading(with_heading(doc, title), wants, m as int);
        lemma_headings_with_heading(doc, title, wants, m as int);
        lemma_stands_for_itself(wants, k, m as int);
        assert(wants[k] == without_space(title));
        assert(wants[m as int] == without_space(sections[m as int].title@));
        assert(m != k ==> sections[m as int].title@ != title) by {
            let a = wants[m as int];
            let b = wants[k];
        }
        if sections[m as int].required && !is_present(before, wants, m as int) {
            assert(x.drop_last() =~= y);
        }
    }
}

fn head_strings(secs: &Vec<(String, String)>) -> (r: Vec<String>)
    ensures
        views(r@) == compared_heads(pair_views(secs@)),
{
    let mut r: Vec<String> = Vec::new();
    let mut i: usize = 0;
    while i < secs.len()
        invariant
            i <= secs@.len(),
            r@.len() == i,
            forall|k: int| 0 <= k < i ==> (#[trigger] r@[k])@ == without_space(secs@[k].0@),
        decreases secs@.len() - i,
    {
        r.push(norm(secs[i].0.as_str()));
        i += 1;
    }
    assert(views(r@) =~= compared_heads(pair_views(secs@)));
    r
}

fn title_strings(sections: &Vec<Section>) -> (r: Vec<String>)
    ensures
        views(r@) == compared_titles(sections@),
{
    let mut r: Vec<String> = Vec::new();
    let mut i: usize = 0;
    while i < sections.len()
        invariant
            i <= sections@.len(),
            r@.len() == i,
            forall|k: int| 0 <= k < i ==> (#[trigger] r@[k])@ == without_space(sections@[k].title@),
        decreases sections@.len() - i,
    {
        r.push(norm(sections[i].title.as_str()));
        i += 1;
    }
    assert(views(r@) =~= compared_titles(sections@));
    r
}

/// The first heading that stands for the declared title `i`, from heading `k` on.
pub open spec fn first_head(
    heads: Seq<Seq<char>>,
    wants: Seq<Seq<char>>,
    i: int,
    k: int,
) -> Option<int>
    decreases heads.len() - k,
{
    if k >= heads.len() {
        None
    } else if stands_for(heads[k], wants, i) {
        Some(k)
    } else {
        first_head(heads, wants, i, k + 1)
    }
}

pub(crate) proof fn lemma_first_head(heads: Seq<Seq<char>>, wants: Seq<Seq<char>>, i: int, k: int)
    requires
        0 <= k,
    ensures
        first_head(heads, wants, i, k) is None <==> !(exists|a: int|
            k <= a < heads.len() && stands_for(#[trigger] heads[a], wants, i)),
        first_head(heads, wants, i, k) matches Some(a) ==> k <= a < heads.len() && stands_for(
            heads[a],
            wants,
            i,
        ),
    decreases heads.len() - k,
{
    if k < heads.len() && !stands_for(heads[k], wants, i) {
        lemma_first_head(heads, wants, i, k + 1);
    }
}

/// The position of the first heading that was matched to the declared title `i`.
fn position_of(
    matches: &Vec<Option<usize>>,
    i: usize,
    Ghost(heads): Ghost<Seq<Seq<char>>>,
    Ghost(wants): Ghost<Seq<Seq<char>>>,
) -> (r: Option<usize>)
    requires
        matches@.len() == heads.len(),
        forall|k: int, j: int|
            #![trigger stands_for(heads[k], wants, j)]
            0 <= k < heads.len() ==> (stands_for(heads[k], wants, j) <==> (matches@[k] is Some
                && matches@[k]->0 == j)),
    ensures
        r is Some <==> first_head(heads, wants, i as int, 0) is Some,
        r matches Some(k) ==> first_head(heads, wants, i as int, 0) == Some(k as int) && k
            < matches@.len(),
{
    let mut k: usize = 0;
    while k < matches.len()
        invariant
            k <= matches@.len(),
            matches@.len() == heads.len(),
            forall|a: int, j: int|
                #![trigger stands_for(heads[a], wants, j)]
                0 <= a < heads.len() ==> (stands_for(heads[a], wants, j) <==> (matches@[a] is Some
                    && matches@[a]->0 == j)),
            first_head(heads, wants, i as int, 0) == first_head(
                heads,
                wants,
                i as int,
                k as int,
            ),
        decreases matches@.len() - k,
    {
        let hit = match matches[k] {
            Some(j) => j == i,
            None => false,
        };
        assert(hit == stands_for(heads[k as int], wants, i as int));
        if hit {
            return Some(k);
        }
        k += 1;
    }
    None
}

/// The titles of the required sections that a document lacks.
pub fn missing_sections(sp: &Spec, doc: &str) -> (r: Vec<String>)
    ensures
        views(r@) == missing_in(sp.sections@, doc@),
{
    let secs = split_sections(doc);
    let heads = head_strings(&secs);
    let wants = title_strings(&sp.sections);
    let matches = match_headings(&heads, &wants);
    let ghost hs = compared_heads(document_sections(doc@));
    let ghost ws = compared_titles(sp.sections@);
    assert(hs == views(heads@));
    assert(ws == views(wants@));
    assert forall|k: int, j: int|
        #![trigger stands_for(hs[k], ws, j)]
        0 <= k < hs.len() implies (stands_for(hs[k], ws, j) <==> (matches@[k] is Some
        && matches@[k]->0 == j)) by {
        assert(hs[k] == heads@[k]@);
    }
    let mut r: Vec<String> = Vec::new();
    let mut i: usize = 0;
    assert(views(r@) =~= Seq::empty());
    while i < sp.sections.len()
        invariant
            i <= sp.sections@.len(),
            ws == compared_titles(sp.sections@),
            matches@.len() == hs.len(),
            forall|k: int, j: int|
                #![trigger stands_for(hs[k], ws, j)]
                0 <= k < hs.len() ==> (stands_for(hs[k], ws, j) <==> (matches@[k] is Some
                    && matches@[k]->0 == j)),
            views(r@) == missing_titles(sp.sections@, hs, i as nat),
        decreases sp.sections@.len() - i,
    {
        let found = position_of(&matches, i, Ghost(hs), Ghost(ws));
        proof {
            lemma_first_head(hs, ws, i as int, 0);
        }
        let ghost before = r@;
        if sp.sections[i].required && found.is_none() {
            r.push(sp.sections[i].title.clone());
            assert(views(r@) =~= views(before).push(sp.sections@[i as int].title@));
        }
        i += 1;
    }
    r
}

/// `chars` times `n / d`, computed in binary64 and cut to an integer.
pub open spec fn scaled_length(chars: usize, n: nat, d: nat) -> nat {
    integer_part(product(fraction(chars as nat, 1), fraction(n, d)), usize::MAX as u64)
}

fn scaled(chars: usize, n: u64, d: u64) -> (r: u64)
    requires
        d > 0,
    ensures
        r == scaled_length(chars, n as nat, d as nat),
{
    Binary64::ratio(chars as u64, 1).times(Binary64::ratio(n, d)).truncated(usize::MAX as u64)
}

/// What is said of a missing section.
pub open spec fn missing_text(title: Seq<char>) -> Seq<char> {
    "Missing required section '"@ + title + "' → add it"@
}

/// What is said of a section of `n` characters: nothing from three fifths to nine fifths of the
/// recommended length, and nothing where none is recommended.
pub open spec fn section_length_issue(s: Section, n: nat) -> Seq<Seq<char>> {
    if s.chars == 0 {
        Seq::empty()
    } else if n < scaled_length(s.chars, 3, 5) {
        seq![
            "'"@ + s.title@ + "' too short: "@ + decimal(n) + " chars (recommended "@ + decimal(
                s.chars as nat,
            ) + " chars) → reinforce with evidence/examples"@,
        ]
    } else if n > scaled_length(s.chars, 9, 5) {
        seq![
            "'"@ + s.title@ + "' too long: "@ + decimal(n) + " chars (recommended "@ + decimal(
                s.chars as nat,
            ) + " chars) → condense"@,
        ]
    } else {
        Seq::empty()
    }
}

/// What is said of the lengths of the first `n` declared sections.
pub open spec fn section_issues(
    sections: Seq<Section>,
    secs: Seq<(Seq<char>, Seq<char>)>,
    n: nat,
) -> Seq<Seq<char>>
    decreases n,
{
    if n == 0 {
        Seq::empty()
    } else {
        section_issues(sections, secs, (n - 1) as nat) + (match first_head(
            compared_heads(secs),
            compared_titles(sections),
            n - 1,
            0,
        ) {
            Some(k) => section_length_issue(sections[n - 1], secs[k].1.len()),
            None => Seq::empty(),
        })
    }
}

/// What is said of the length of the whole document: nothing from seven to thirteen tenths of the
/// target, and nothing where there is none.
pub open spec fn total_length_issue(target: usize, n: nat) -> Seq<Seq<char>> {
    if target == 0 {
        Seq::empty()
    } else if n < scaled_length(target, 7, 10) {
        seq![
            "Overall length too short: "@ + decimal(n) + " chars (target "@ + decimal(target as nat)
                + " chars)"@,
        ]
    } else if n > scaled_length(target, 13, 10) {
        seq![
            "Overall length too long: "@ + decimal(n) + " chars (target "@ + decimal(target as nat)
                + " chars, risk of violating submission rules)"@,
        ]
    } else {
        Seq::empty()
    }
}

/// What is said of the number of citations.
pub open spec fn citation_issue(minimum: usize, n: nat) -> Seq<Seq<char>> {
    if n < minimum {
        seq![
            "Citations (「source name」): "@ + decimal(n) + " found → at least "@ + decimal(
                minimum as nat,
            ) + " required"@,
        ]
    } else {
        Seq::empty()
    }
}

/// What is said of a document without a table.
pub const NO_TABLE: &'static str =
    "No table present → present at least one of comparison/schedule/KPI as a table";

/// What is said of the number of tables.
pub open spec fn table_issue(required: bool, n: nat) -> Seq<Seq<char>> {
    if required && n == 0 {
        seq![NO_TABLE@]
    } else {
        Seq::empty()
    }
}

/// All that is said of the format of a document.
pub open spec fn issues_of(sp: Spec, doc: Seq<char>) -> Seq<Seq<char>> {
    missing_in(sp.sections@, doc).map_values(|t: Seq<char>| missing_text(t)) + section_issues(
        sp.sections@,
        document_sections(doc),
        sp.sections@.len(),
    ) + total_length_issue(sp.total_chars, doc.len()) + citation_issue(
        sp.min_citations,
        lesser(count(doc, '「'), count(doc, '」')),
    ) + table_issue(sp.require_table, table_rules(lines(doc), lines(doc).len()))
}

/// Each missing section is among the format issues, and these come first.
pub proof fn law_missing_sections_are_issues(sp: Spec, doc: Seq<char>, k: int)
    requires
        0 <= k < missing_in(sp.sections@, doc).len(),
    ensures
        k < issues_of(sp, doc).len(),
        issues_of(sp, doc)[k] == missing_text(missing_in(sp.sections@, doc)[k]),
{
}

fn push_text(issues: &mut Vec<String>, s: String)
    ensures
        views(final(issues)@) == views(old(issues)@) + seq![s@],
{
    let ghost before = issues@;
    issues.push(s);
    assert(views(issues@) =~= views(before) + seq![s@]);
}

fn push_section_length(issues: &mut Vec<String>, s: &Section, n: usize)
    ensures
        views(final(issues)@) == views(old(issues)@) + section_length_issue(*s, n as nat),
{
    if s.chars == 0 {
        assert(views(issues@) =~= views(issues@) + Seq::empty());
        return ;
    }
    let lo = scaled(s.chars, 3, 5);
    let hi = scaled(s.chars, 9, 5);
    if (n as u64) < lo {
        let mut t = String::from_str("'");
        t.append(s.title.as_str());
        t.append("' too short: ");
        t.append(decimal_string(n as u64).as_str());
        t.append(" chars (recommended ");
        t.append(decimal_string(s.chars as u64).as_str());
        t.append(" chars) → reinforce with evidence/examples");
        push_text(issues, t);
    } else if n as u64 > hi {
        let mut t = String::from_str("'");
        t.append(s.title.as_str());
        t.append("' too long: ");
        t.append(decimal_string(n as u64).as_str());
        t.append(" chars (recommended ");
        t.append(decimal_string(s.chars as u64).as_str());
        t.append(" chars) → condense");
        push_text(issues, t);
    } else {
        assert(views(issues@) =~= views(issues@) + Seq::empty());
    }
}

fn push_total_length(issues: &mut Vec<String>, target: usize, n: usize)
    ensures
        views(final(issues)@) == views(old(issues)@) + total_length_issue(target, n as nat),
{
    if target == 0 {
        assert(views(issues@) =~= views(issues@) + Seq::empty());
        return ;
    }
    let lo = scaled(target, 7, 10);
    let hi = scaled(target, 13, 10);
    if (n as u64) < lo {
        let mut t = String::from_str("Overall length too short: ");
        t.append(decimal_string(n as u64).as_str());
        t.append(" chars (target ");
        t.append(decimal_string(target as u64).as_str());
        t.append(" chars)");
        push_text(issues, t);
    } else if n as u64 > hi {
        let mut t = String::from_str("Overall length too long: ");
        t.append(decimal_string(n as u64).as_str());
        t.append(" chars (target ");
        t.append(decimal_string(target as u64).as_str());
        t.append(" chars, risk of violating submission rules)");
        push_text(issues, t);
    } else {
        assert(views(issues@) =~= views(issues@) + Seq::empty());
    }
}

/// Findings on the sections, the lengths, the citations and the tables of a document.
pub fn format_issues(sp: &Spec, doc: &str) -> (issues: Vec<String>)
    ensures
        views(issues@) == issues_of(*sp, doc@),
{
    let mut issues: Vec<String> = Vec::new();
    let missing = missing_sections(sp, doc);
    let ghost gone = missing_in(sp.sections@, doc@).map_values(|t: Seq<char>| missing_text(t));
    let mut a: usize = 0;
    assert(views(issues@) =~= gone.take(0));
    while a < missing.len()
        invariant
            a <= missing@.len(),
            views(missing@) == missing_in(sp.sections@, doc@),
            gone == missing_in(sp.sections@, doc@).map_values(|t: Seq<char>| missing_text(t)),
            views(issues@) == gone.take(a as int),
        decreases missing@.len() - a,
    {
        let mut t = String::from_str("Missing required section '");
        t.append(missing[a].as_str());
        t.append("' → add it");
        assert(t@ == gone[a as int]) by {
            assert(views(missing@)[a as int] == missing@[a as int]@);
        }
        push_text(&mut issues, t);
        assert(views(issues@) =~= gone.take(a + 1));
        a += 1;
    }
    assert(gone.len() == views(missing@).len());
    assert(gone.take(a as int) =~= gone);

    let secs = split_sections(doc);
    let heads = head_strings(&secs);
    let wants = title_strings(&sp.sections);
    let matches = match_headings(&heads, &wants);
    let ghost ps = document_sections(doc@);
    let ghost hs = compared_heads(ps);
    let ghost ws = compared_titles(sp.sections@);
    assert(hs == views(heads@));
    assert(ws == views(wants@));
    assert forall|k: int, j: int|
        #![trigger stands_for(hs[k], ws, j)]
        0 <= k < hs.len() implies (stands_for(hs[k], ws, j) <==> (matches@[k] is Some
        && matches@[k]->0 == j)) by {
        assert(hs[k] == heads@[k]@);
    }
    let mut i: usize = 0;
    assert(views(issues@) =~= gone + section_issues(sp.sections@, ps, 0));
    while i < sp.sections.len()
        invariant
            i <= sp.sections@.len(),
            ps == pair_views(secs@),
            hs == compared_heads(ps),
            ws == compared_titles(sp.sections@),
            matches@.len() == hs.len(),
            forall|k: int, j: int|
                #![trigger stands_for(hs[k], ws, j)]
                0 <= k < hs.len() ==> (stands_for(hs[k], ws, j) <==> (matches@[k] is Some
                    && matches@[k]->0 == j)),
            views(issues@) == gone + section_issues(sp.sections@, ps, i as nat),
        decreases sp.sections@.len() - i,
    {
        let ghost before = views(issues@);
        match position_of(&matches, i, Ghost(hs), Ghost(ws)) {
            Some(k) => {
                let n = secs[k].1.as_str().unicode_len();
                assert(ps[k as int].1 == secs@[k as int].1@);
                push_section_length(&mut issues, &sp.sections[i], n);
            },
            None => {
                assert(views(issues@) =~= before + Seq::empty());
            },
        }
        assert(views(issues@) =~= gone + section_issues(sp.sections@, ps, (i + 1) as nat));
        i += 1;
    }

    let m = metrics(doc);
    push_total_length(&mut issues, sp.total_chars, m.chars);
    if sp.min_citations > 0 && m.citations < sp.min_citations {
        let mut t = String::from_str("Citations (「source name」): ");
        t.append(decimal_string(m.citations as u64).as_str());
        t.append(" found → at least ");
        t.append(decimal_string(sp.min_citations as u64).as_str());
        t.append(" required");
        push_text(&mut issues, t);
    } else {
        assert(views(issues@) =~= views(issues@) + Seq::empty());
    }
    if sp.require_table && m.tables == 0 {
        push_text(&mut issues, String::from_str(NO_TABLE));
    } else {
        assert(views(issues@) =~= views(issues@) + Seq::empty());
    }
    issues
}

} // verus!
