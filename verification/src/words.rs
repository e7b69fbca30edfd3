//! What the operations on text do, told by how texts are put together.

use crate::text::{
    contains, count, decimal, digit, first_at, is_blank, is_space, join, law_lines_join,
    law_one_line, law_trim_ignores_space, lemma_run_before, lemma_without_space_concat,
    lemma_without_space_one, lines, occurs_at, pieces, replace, run_before, starts_with, trim,
    trim_end, trim_start, two_digits, without_space,
};
use vstd::prelude::*;

verus! {

/// Spaces, tabs and line breaks are whitespace; no visible ASCII character is.
pub proof fn law_space(c: char)
    ensures
        is_space(' ') && is_space('\t') && is_space('\n') && is_space('\r') && is_space('\u{3000}'),
        '!' <= c <= '~' ==> !is_space(c),
        c == '\u{200B}' ==> !is_space(c),
        '가' <= c <= '힣' ==> !is_space(c),
{
}

/// Whether a text begins and ends with something other than whitespace, or is empty.
pub open spec fn is_trimmed(s: Seq<char>) -> bool {
    s.len() == 0 || (!is_space(s[0]) && !is_space(s.last()))
}

/// Trimming takes away the whitespace around a text, and nothing else.
pub proof fn law_trim(w: Seq<char>, s: Seq<char>, x: Seq<char>)
    requires
        is_blank(w),
        is_blank(x),
        is_trimmed(s),
    ensures
        trim(w + s + x) == s,
{
    law_trim_ignores_space(w, s, x);
    assert(trim_start(s) == s);
    assert(trim_end(s) == s);
}

pub(crate) proof fn lemma_trim_start_splits(s: Seq<char>) -> (w: Seq<char>)
    ensures
        is_blank(w),
        s == w + trim_start(s),
        trim_start(s).len() > 0 ==> !is_space(trim_start(s)[0]),
    decreases s.len(),
{
    if s.len() > 0 && is_space(s[0]) {
        let v = lemma_trim_start_splits(s.drop_first());
        let w = seq![s[0]] + v;
        let t = trim_start(s);
        assert(s =~= seq![s[0]] + s.drop_first());
        assert(seq![s[0]] + (v + t) =~= w + t);
        w
    } else {
        let w = Seq::<char>::empty();
        assert(s =~= w + s);
        w
    }
}

proof fn lemma_trim_end_splits(s: Seq<char>) -> (x: Seq<char>)
    ensures
        is_blank(x),
        s == trim_end(s) + x,
        trim_end(s).len() > 0 ==> !is_space(trim_end(s).last()) && trim_end(s)[0] == s[0],
    decreases s.len(),
{
    if s.len() > 0 && is_space(s.last()) {
        let v = lemma_trim_end_splits(s.drop_last());
        let x = v.push(s.last());
        let t = trim_end(s);
        assert(s =~= s.drop_last().push(s.last()));
        assert((t + v).push(s.last()) =~= t + x);
        x
    } else {
        let x = Seq::<char>::empty();
        assert(s =~= s + x);
        x
    }
}

/// Each text is what is left of it when it is trimmed, with whitespace around it.
pub proof fn law_trimmed_inside(s: Seq<char>) -> (r: (Seq<char>, Seq<char>))
    ensures
        is_blank(r.0),
        is_blank(r.1),
        s == r.0 + trim(s) + r.1,
        is_trimmed(trim(s)),
{
    let w = lemma_trim_start_splits(s);
    let x = lemma_trim_end_splits(trim_start(s));
    assert(s =~= w + trim(s) + x);
    (w, x)
}

/// A text contains another if and only if it is made of something, the other, and something.
pub proof fn law_contains(s: Seq<char>, w: Seq<char>)
    ensures
        contains(s, w) <==> exists|a: Seq<char>, b: Seq<char>| s == #[trigger] (a + w + b),
{
    if contains(s, w) {
        let i = choose|i: int| occurs_at(s, w, i);
        let a = s.take(i);
        let b = s.skip(i + w.len());
        assert(s =~= a + w + b);
    }
    if exists|a: Seq<char>, b: Seq<char>| s == #[trigger] (a + w + b) {
        let (a, b) = choose|a: Seq<char>, b: Seq<char>| s == #[trigger] (a + w + b);
        lemma_occurs_between(a, w, b);
    }
}

pub(crate) proof fn lemma_occurs_between(a: Seq<char>, w: Seq<char>, b: Seq<char>)
    ensures
        occurs_at(a + w + b, w, a.len() as int),
        contains(a + w + b, w),
{
    assert((a + w + b).subrange(a.len() as int, (a.len() + w.len()) as int) =~= w);
}

/// A text starts with another if and only if it is the other and something.
pub proof fn law_starts_with(s: Seq<char>, w: Seq<char>)
    ensures
        starts_with(s, w) <==> exists|b: Seq<char>| s == #[trigger] (w + b),
{
    if starts_with(s, w) {
        let b = s.skip(w.len() as int);
        assert(s =~= w + b);
    }
    if exists|b: Seq<char>| s == #[trigger] (w + b) {
        let b = choose|b: Seq<char>| s == #[trigger] (w + b);
        assert((w + b).subrange(0, w.len() as int) =~= w);
    }
}

/// How often a character stands in a text is how often it stands in the parts of the text, and as
/// many positions hold it.
pub proof fn law_count(a: Seq<char>, b: Seq<char>, c: char)
    ensures
        count(a, c) == a.to_multiset().count(c),
        count(a + b, c) == count(a, c) + count(b, c),
{
    broadcast use vstd::seq_lib::group_to_multiset_ensures;

    lemma_count(a, c);
    lemma_count(b, c);
    lemma_count(a + b, c);
    vstd::seq_lib::lemma_multiset_commutative(a, b);
}

proof fn lemma_count(s: Seq<char>, c: char)
    ensures
        count(s, c) == s.to_multiset().count(c),
    decreases s.len(),
{
    broadcast use vstd::seq_lib::group_to_multiset_ensures;

    if s.len() > 0 {
        let t = s.drop_last();
        lemma_count(t, c);
        assert(s =~= t.push(s.last()));
    } else {
        assert(s.to_multiset().len() == 0);
    }
}

/// The lines of a text: a text without a newline is one line, or none where it is empty, and the
/// first newline ends the first line, with a carriage return before it or not.
pub proof fn law_lines(a: Seq<char>, b: Seq<char>)
    requires
        !a.contains('\n'),
    ensures
        lines(Seq::<char>::empty()) == Seq::<Seq<char>>::empty(),
        a.len() > 0 ==> lines(a) == seq![a],
        a.len() == 0 || a.last() != '\r' ==> lines(a + seq!['\n'] + b) == seq![a] + lines(b),
        lines(a + seq!['\r', '\n'] + b) == seq![a] + lines(b),
{
    let e = Seq::<char>::empty();
    assert(lines(e) =~= Seq::empty());
    if a.len() > 0 {
        lemma_run_before(a, '\n');
        assert(run_before(a, '\n') == a.len()) by {
            let i = run_before(a, '\n') as int;
            if i < a.len() {
                assert(a.contains(a[i]));
            }
        }
        assert(lines(a) =~= seq![a]);
    }
    if a.len() == 0 || a.last() != '\r' {
        law_one_line(a);
        law_lines_join(a, b);
        assert(a + seq!['\n'] + b =~= a.push('\n') + b);
    }
    let c = a.push('\r');
    let n = c.push('\n');
    law_lines_join(c, b);
    assert(a + seq!['\r', '\n'] + b =~= n + b);
    lemma_run_before(n, '\n');
    let i = run_before(n, '\n') as int;
    assert(n[c.len() as int] == '\n');
    assert(i == c.len()) by {
        if i < a.len() {
            assert(a.contains(a[i]));
        } else if i == a.len() {
            assert(n[i] == '\r');
        }
    }
    assert(n.take(i) =~= c);
    assert(c.drop_last() =~= a);
    assert(n.skip(i + 1) =~= e);
    assert(lines(n) =~= seq![a]);
}

/// The value of a text of decimal digits.
pub open spec fn value_of(s: Seq<char>) -> int
    decreases s.len(),
{
    if s.len() == 0 {
        0
    } else {
        10 * value_of(s.drop_last()) + (s.last() as int - '0' as int)
    }
}

/// A number in decimal is made of digits, does not begin with a zero unless it is zero, and has the
/// value of the number; with two digits at least, it has the same value.
pub proof fn law_decimal(n: nat)
    ensures
        decimal(n).len() > 0,
        forall|i: int| 0 <= i < decimal(n).len() ==> '0' <= #[trigger] decimal(n)[i] <= '9',
        decimal(n)[0] == '0' ==> n == 0 && decimal(n).len() == 1,
        value_of(decimal(n)) == n,
        value_of(two_digits(n)) == n,
        two_digits(n).len() >= 2,
        n >= 10 ==> two_digits(n) == decimal(n),
        n < 10 ==> two_digits(n) == seq!['0'] + decimal(n),
    decreases n,
{
    reveal_with_fuel(value_of, 3);
    let d = decimal(n);
    if n >= 10 {
        law_decimal(n / 10);
        assert(d.drop_last() =~= decimal(n / 10));
        assert(digit(n % 10) as int == 48 + n % 10);
        assert forall|i: int| 0 <= i < d.len() implies '0' <= #[trigger] d[i] <= '9' by {
            if i < d.len() - 1 {
                assert(d[i] == decimal(n / 10)[i]);
            }
        }
        assert(d[0] == decimal(n / 10)[0]);
    } else {
        assert(d.drop_last() =~= Seq::empty());
        let t = two_digits(n);
        assert(t.drop_last() =~= seq!['0']);
        assert(t.drop_last().drop_last() =~= Seq::empty());
    }
}

/// A text without its whitespace is its parts without theirs; a character alone is dropped if and
/// only if it is whitespace.
pub proof fn law_without_space(a: Seq<char>, b: Seq<char>, c: char)
    ensures
        without_space(a + b) == without_space(a) + without_space(b),
        is_space(c) ==> without_space(seq![c]) == Seq::<char>::empty(),
        !is_space(c) ==> without_space(seq![c]) == seq![c],
{
    lemma_without_space_concat(a, b);
    lemma_without_space_one(c);
}

/// Texts are joined in order, with the separator between neighbours.
pub proof fn law_join(parts: Seq<Seq<char>>, part: Seq<char>, sep: Seq<char>)
    ensures
        join(Seq::empty(), sep) == Seq::<char>::empty(),
        join(seq![part], sep) == part,
        parts.len() > 0 ==> join(parts.push(part), sep) == join(parts, sep) + sep + part,
{
    assert(parts.push(part).drop_last() =~= parts);
}

/// A text in which another does not stand is left as it is; the first place at which it stands is
/// replaced, and then what follows is dealt with in the same way.
pub proof fn law_replace(a: Seq<char>, w: Seq<char>, b: Seq<char>, t: Seq<char>)
    requires
        w.len() > 0,
    ensures
        !contains(a, w) ==> replace(a, w, t) == a,
        first_at(a + w + b, w, a.len() as int) ==> replace(a + w + b, w, t) == a + t + replace(
            b,
            w,
            t,
        ),
    decreases a.len(),
{
    let s = a + w + b;
    if !contains(a, w) {
        lemma_replace_none(a, w, t);
    }
    if first_at(s, w, a.len() as int) {
        if a.len() == 0 {
            assert(starts_with(s, w));
            assert(s.skip(w.len() as int) =~= b);
            assert(a + t + replace(b, w, t) =~= t + replace(b, w, t));
        } else {
            assert(!occurs_at(s, w, 0));
            let c = a.drop_first();
            let r = c + w + b;
            assert(s.drop_first() =~= r);
            assert(first_at(r, w, c.len() as int)) by {
                assert(r.subrange(c.len() as int, (c.len() + w.len()) as int) =~= w);
                assert forall|j: int| 0 <= j < c.len() implies !#[trigger] occurs_at(r, w, j) by {
                    if occurs_at(r, w, j) {
                        assert(s.subrange(j + 1, j + 1 + w.len()) =~= r.subrange(j, j + w.len()));
                        assert(occurs_at(s, w, j + 1));
                    }
                }
            }
            law_replace(c, w, b, t);
            assert(s[0] == a[0]);
            assert(seq![a[0]] + (c + t + replace(b, w, t)) =~= a + t + replace(b, w, t));
        }
    }
}

proof fn lemma_replace_none(a: Seq<char>, w: Seq<char>, t: Seq<char>)
    requires
        w.len() > 0,
        !contains(a, w),
    ensures
        replace(a, w, t) == a,
    decreases a.len(),
{
    if a.len() > 0 {
        assert(!occurs_at(a, w, 0));
        let c = a.drop_first();
        assert(!contains(c, w)) by {
            if contains(c, w) {
                let j = choose|j: int| occurs_at(c, w, j);
                assert(a.subrange(j + 1, j + 1 + w.len()) =~= c.subrange(j, j + w.len()));
                assert(occurs_at(a, w, j + 1));
            }
        }
        lemma_replace_none(c, w, t);
        assert(seq![a[0]] + c =~= a);
    }
}

/// The pieces of a text: a text without the separator is one piece, and the first separator ends the
/// first piece.
pub proof fn law_pieces(a: Seq<char>, b: Seq<char>, c: char)
    requires
        !a.contains(c),
    ensures
        pieces(a, c) == seq![a],
        pieces(a + seq![c] + b, c) == seq![a] + pieces(b, c),
{
    lemma_run_before(a, c);
    assert(run_before(a, c) == a.len()) by {
        let i = run_before(a, c) as int;
        if i < a.len() {
            assert(a.contains(a[i]));
        }
    }
    let s = a + seq![c] + b;
    lemma_run_before(s, c);
    let i = run_before(s, c) as int;
    assert(s[a.len() as int] == c);
    assert(i == a.len()) by {
        if i < a.len() {
            assert(s[i] == a[i]);
            assert(a.contains(a[i]));
        }
    }
    assert(s.take(i) =~= a);
    assert(s.skip(i + 1) =~= b);
}

} // verus!
