//! Character-level text operations and what they mean on character sequences.

use vstd::prelude::*;
use vstd::slice::slice_subrange;
use vstd::string::*;

verus! {

/// `String::push`: the character is appended to the end of the string.
pub assume_specification[ String::push ](s: &mut String, c: char)
    ensures
        final(s)@ == old(s)@.push(c),
;

/// The Unicode `White_Space` property.
pub open spec fn is_space(c: char) -> bool {
    ||| '\u{9}' <= c <= '\u{d}'
    ||| c == ' '
    ||| c == '\u{85}'
    ||| c == '\u{a0}'
    ||| c == '\u{1680}'
    ||| '\u{2000}' <= c <= '\u{200a}'
    ||| c == '\u{2028}'
    ||| c == '\u{2029}'
    ||| c == '\u{202f}'
    ||| c == '\u{205f}'
    ||| c == '\u{3000}'
}

/// Whether `c` has the Unicode `White_Space` property.
pub fn is_whitespace(c: char) -> (r: bool)
    ensures
        r == is_space(c),
{
    ('\u{9}' <= c && c <= '\u{d}') || c == ' ' || c == '\u{85}' || c == '\u{a0}' || c == '\u{1680}'
        || ('\u{2000}' <= c && c <= '\u{200a}') || c == '\u{2028}' || c == '\u{2029}' || c
        == '\u{202f}' || c == '\u{205f}' || c == '\u{3000}'
}

/// The characters of `s`.
pub fn chars_of(s: &str) -> (v: Vec<char>)
    ensures
        v@ == s@,
{
    let mut v: Vec<char> = Vec::new();
    for c in it: s.chars()
        invariant
            it.seq() == s@,
            v@ == s@.take(it.index()),
    {
        v.push(c);
    }
    v
}

/// The string made of the given characters.
pub fn string_of(v: &Vec<char>) -> (s: String)
    ensures
        s@ == v@,
{
    let mut s = String::new();
    let mut i: usize = 0;
    while i < v.len()
        invariant
            i <= v.len(),
            s@ == v@.take(i as int),
        decreases v.len() - i,
    {
        s.push(v[i]);
        i += 1;
    }
    s
}

/// `s` without its leading whitespace.
pub open spec fn trim_start(s: Seq<char>) -> Seq<char>
    decreases s.len(),
{
    if s.len() > 0 && is_space(s[0]) {
        trim_start(s.drop_first())
    } else {
        s
    }
}

/// `s` without its trailing whitespace.
pub open spec fn trim_end(s: Seq<char>) -> Seq<char>
    decreases s.len(),
{
    if s.len() > 0 && is_space(s.last()) {
        trim_end(s.drop_last())
    } else {
        s
    }
}

/// `s` without its leading and trailing whitespace.
pub open spec fn trim(s: Seq<char>) -> Seq<char> {
    trim_end(trim_start(s))
}

/// `s` without its leading `c`s.
pub open spec fn strip_leading(s: Seq<char>, c: char) -> Seq<char>
    decreases s.len(),
{
    if s.len() > 0 && s[0] == c {
        strip_leading(s.drop_first(), c)
    } else {
        s
    }
}

/// Whether `w` stands in `s` at position `i`.
pub open spec fn occurs_at(s: Seq<char>, w: Seq<char>, i: int) -> bool {
    0 <= i && i + w.len() <= s.len() && s.subrange(i, i + w.len()) == w
}

/// Whether `w` stands somewhere in `s`.
pub open spec fn contains(s: Seq<char>, w: Seq<char>) -> bool {
    exists|i: int| occurs_at(s, w, i)
}

/// Whether `s` starts with `w`.
pub open spec fn starts_with(s: Seq<char>, w: Seq<char>) -> bool {
    occurs_at(s, w, 0)
}

/// Whether `i` is the first position at which `w` stands in `s`.
pub open spec fn first_at(s: Seq<char>, w: Seq<char>, i: int) -> bool {
    occurs_at(s, w, i) && forall|j: int| 0 <= j < i ==> !#[trigger] occurs_at(s, w, j)
}

/// The first position at which `w` stands in `s`.
pub open spec fn find(s: Seq<char>, w: Seq<char>) -> Option<int> {
    if contains(s, w) {
        Some(choose|i: int| first_at(s, w, i))
    } else {
        None
    }
}

/// The last position at which `c` stands in `s`.
pub open spec fn find_last(s: Seq<char>, c: char) -> Option<int>
    decreases s.len(),
{
    if s.len() == 0 {
        None
    } else if s.last() == c {
        Some(s.len() - 1)
    } else {
        find_last(s.drop_last(), c)
    }
}

/// The length of the run of other characters that `s` starts with: the position of the first `c` in
/// `s`, or the length of `s` where there is none.
pub open spec fn run_before(s: Seq<char>, c: char) -> nat
    decreases s.len(),
{
    if s.len() == 0 || s[0] == c {
        0
    } else {
        1 + run_before(s.drop_first(), c)
    }
}

/// A line without the carriage return that ends it.
pub open spec fn chomp(s: Seq<char>) -> Seq<char> {
    if s.len() > 0 && s.last() == '\r' {
        s.drop_last()
    } else {
        s
    }
}

/// The lines of `s`, without their line endings (a newline, or a carriage return and a newline).
pub open spec fn lines(s: Seq<char>) -> Seq<Seq<char>>
    decreases s.len(),
{
    let i = run_before(s, '\n') as int;
    if s.len() == 0 {
        Seq::empty()
    } else if 0 <= i < s.len() {
        seq![chomp(s.take(i))] + lines(s.skip(i + 1))
    } else {
        seq![s]
    }
}

/// The pieces of `s` between the `c`s.
pub open spec fn pieces(s: Seq<char>, c: char) -> Seq<Seq<char>>
    decreases s.len(),
{
    let i = run_before(s, c) as int;
    if 0 <= i < s.len() {
        seq![s.take(i)] + pieces(s.skip(i + 1), c)
    } else {
        seq![s]
    }
}

/// `s` with each `w`, from the left and without overlap, replaced by `t`.
pub open spec fn replace(s: Seq<char>, w: Seq<char>, t: Seq<char>) -> Seq<char>
    decreases s.len(),
{
    if s.len() == 0 || w.len() == 0 {
        s
    } else if starts_with(s, w) {
        t + replace(s.skip(w.len() as int), w, t)
    } else {
        seq![s[0]] + replace(s.drop_first(), w, t)
    }
}

/// How many `c`s stand in `s`.
pub open spec fn count(s: Seq<char>, c: char) -> nat
    decreases s.len(),
{
    if s.len() == 0 {
        0
    } else {
        count(s.drop_last(), c) + if s.last() == c {
            1nat
        } else {
            0
        }
    }
}

/// `s` without whitespace.
pub open spec fn without_space(s: Seq<char>) -> Seq<char> {
    s.filter(|c: char| !is_space(c))
}

/// The parts of a list, in order, with `sep` between neighbours.
pub open spec fn join(parts: Seq<Seq<char>>, sep: Seq<char>) -> Seq<char>
    decreases parts.len(),
{
    if parts.len() == 0 {
        Seq::empty()
    } else if parts.len() == 1 {
        parts[0]
    } else {
        join(parts.drop_last(), sep) + sep + parts.last()
    }
}

/// A digit's character.
pub open spec fn digit(d: nat) -> char {
    (48 + d) as char
}

/// `n` in decimal.
pub open spec fn decimal(n: nat) -> Seq<char>
    decreases n,
{
    if n < 10 {
        seq![digit(n)]
    } else {
        decimal(n / 10).push(digit(n % 10))
    }
}

/// `n` in decimal, with a leading zero where it has one digit.
pub open spec fn two_digits(n: nat) -> Seq<char> {
    if n < 10 {
        seq!['0'] + decimal(n)
    } else {
        decimal(n)
    }
}

/// The characters of each string of a list.
pub open spec fn views(v: Seq<String>) -> Seq<Seq<char>> {
    v.map_values(|s: String| s@)
}

/// The characters of each slice of a list.
pub open spec fn slice_views(v: Seq<&[char]>) -> Seq<Seq<char>> {
    v.map_values(|s: &[char]| s@)
}

/// `s` without its leading whitespace.
pub fn trim_start_slice(s: &[char]) -> (r: &[char])
    ensures
        r@ == trim_start(s@),
{
    let mut i: usize = 0;
    assert(s@.skip(0) == s@);
    while i < s.len() && is_whitespace(s[i])
        invariant
            i <= s.len(),
            trim_start(s@) == trim_start(s@.skip(i as int)),
        decreases s.len() - i,
    {
        assert(s@.skip(i as int).drop_first() == s@.skip(i + 1));
        i += 1;
    }
    slice_subrange(s, i, s.len())
}

/// `s` without its trailing whitespace.
pub fn trim_end_slice(s: &[char]) -> (r: &[char])
    ensures
        r@ == trim_end(s@),
{
    let mut n: usize = s.len();
    assert(s@.take(n as int) == s@);
    while n > 0 && is_whitespace(s[n - 1])
        invariant
            n <= s.len(),
            trim_end(s@) == trim_end(s@.take(n as int)),
        decreases n,
    {
        assert(s@.take(n as int).drop_last() == s@.take(n - 1));
        n -= 1;
    }
    slice_subrange(s, 0, n)
}

/// `s` without its leading and trailing whitespace.
pub fn trim_slice(s: &[char]) -> (r: &[char])
    ensures
        r@ == trim(s@),
{
    trim_end_slice(trim_start_slice(s))
}

/// `s` without its leading `c`s.
pub fn strip_leading_slice(s: &[char], c: char) -> (r: &[char])
    ensures
        r@ == strip_leading(s@, c),
{
    let mut i: usize = 0;
    assert(s@.skip(0) == s@);
    while i < s.len() && s[i] == c
        invariant
            i <= s.len(),
            strip_leading(s@, c) == strip_leading(s@.skip(i as int), c),
        decreases s.len() - i,
    {
        assert(s@.skip(i as int).drop_first() == s@.skip(i + 1));
        i += 1;
    }
    slice_subrange(s, i, s.len())
}

/// Whether `w` stands in `s` at position `i`.
pub fn occurs_at_slice(s: &[char], w: &[char], i: usize) -> (r: bool)
    ensures
        r == occurs_at(s@, w@, i as int),
{
    if i > s.len() || w.len() > s.len() - i {
        return false;
    }
    let mut k: usize = 0;
    while k < w.len()
        invariant
            k <= w.len(),
            i + w.len() <= s.len(),
            forall|j: int| 0 <= j < k ==> s@[i + j] == w@[j],
        decreases w.len() - k,
    {
        if s[i + k] != w[k] {
            assert(s@.subrange(i as int, i + w@.len())[k as int] != w@[k as int]);
            return false;
        }
        k += 1;
    }
    assert(s@.subrange(i as int, i + w@.len()) =~= w@);
    true
}

pub(crate) proof fn lemma_find(s: Seq<char>, w: Seq<char>, i: int)
    requires
        first_at(s, w, i),
    ensures
        find(s, w) == Some(i),
{
    assert(contains(s, w));
    let k = choose|k: int| first_at(s, w, k);
    assert(first_at(s, w, k));
    if k < i {
        assert(occurs_at(s, w, k));
    } else if i < k {
        assert(occurs_at(s, w, i));
    }
}

/// The first position at which `w` stands in `s`.
pub fn find_slice(s: &[char], w: &[char]) -> (r: Option<usize>)
    ensures
        r is Some <==> find(s@, w@) is Some,
        r matches Some(i) ==> find(s@, w@) == Some(i as int) && occurs_at(s@, w@, i as int),
{
    let mut i: usize = 0;
    while i < s.len()
        invariant
            i <= s.len(),
            forall|j: int| 0 <= j < i ==> !#[trigger] occurs_at(s@, w@, j),
        decreases s.len() - i,
    {
        if occurs_at_slice(s, w, i) {
            proof {
                lemma_find(s@, w@, i as int);
            }
            return Some(i);
        }
        i += 1;
    }
    if occurs_at_slice(s, w, i) {
        proof {
            lemma_find(s@, w@, i as int);
        }
        return Some(i);
    }
    assert forall|j: int| !#[trigger] occurs_at(s@, w@, j) by {}
    None
}

/// The last position at which `c` stands in `s`.
pub fn find_last_slice(s: &[char], c: char) -> (r: Option<usize>)
    ensures
        r is Some <==> find_last(s@, c) is Some,
        r matches Some(i) ==> find_last(s@, c) == Some(i as int) && i < s.len(),
{
    let mut n: usize = s.len();
    assert(s@.take(n as int) == s@);
    while n > 0
        invariant
            n <= s.len(),
            find_last(s@, c) == find_last(s@.take(n as int), c),
        decreases n,
    {
        if s[n - 1] == c {
            return Some(n - 1);
        }
        assert(s@.take(n as int).drop_last() == s@.take(n - 1));
        n -= 1;
    }
    None
}

pub(crate) proof fn lemma_run_before(s: Seq<char>, c: char)
    ensures
        run_before(s, c) <= s.len(),
        forall|j: int| 0 <= j < run_before(s, c) ==> s[j] != c,
        run_before(s, c) < s.len() ==> s[run_before(s, c) as int] == c,
    decreases s.len(),
{
    if s.len() > 0 && s[0] != c {
        lemma_run_before(s.drop_first(), c);
        assert forall|j: int| 0 <= j < run_before(s, c) implies s[j] != c by {
            if j > 0 {
                assert(s[j] == s.drop_first()[j - 1]);
            }
        }
    }
}

/// No line holds a newline.
pub proof fn law_lines_hold_no_newline(s: Seq<char>, k: int)
    requires
        0 <= k < lines(s).len(),
    ensures
        !lines(s)[k].contains('\n'),
    decreases s.len(),
{
    lemma_run_before(s, '\n');
    let i = run_before(s, '\n') as int;
    if i < s.len() {
        if k > 0 {
            law_lines_hold_no_newline(s.skip(i + 1), k - 1);
        }
    }
}

/// The position of the first `c` in `s` from `from` on, or the length of `s` where there is none.
fn next_char(s: &[char], c: char, from: usize) -> (i: usize)
    requires
        from <= s.len(),
    ensures
        from <= i <= s.len(),
        i - from == run_before(s@.skip(from as int), c),
        i < s.len() ==> s@[i as int] == c,
{
    let mut i: usize = from;
    while i < s.len() && s[i] != c
        invariant
            from <= i <= s.len(),
            run_before(s@.skip(from as int), c) == i - from + run_before(s@.skip(i as int), c),
        decreases s.len() - i,
    {
        assert(s@.skip(i as int).drop_first() == s@.skip(i + 1));
        i += 1;
    }
    i
}

/// The lines of `s`.
pub fn lines_slice(s: &[char]) -> (r: Vec<&[char]>)
    ensures
        slice_views(r@) == lines(s@),
{
    let mut r: Vec<&[char]> = Vec::new();
    let mut at: usize = 0;
    assert(s@.skip(0) == s@);
    while at < s.len()
        invariant
            at <= s.len(),
            lines(s@) == slice_views(r@) + lines(s@.skip(at as int)),
        decreases s.len() - at,
    {
        let i = next_char(s, '\n', at);
        let ghost rest = s@.skip(at as int);
        let ghost before = r@;
        if i < s.len() {
            let raw = slice_subrange(s, at, i);
            assert(raw@ == rest.take(i - at));
            let line = if raw.len() > 0 && raw[raw.len() - 1] == '\r' {
                slice_subrange(raw, 0, raw.len() - 1)
            } else {
                raw
            };
            assert(line@ == chomp(raw@));
            r.push(line);
            assert(rest.skip(i - at + 1) == s@.skip(i + 1));
            assert(slice_views(r@) == slice_views(before).push(line@));
            at = i + 1;
        } else {
            let line = slice_subrange(s, at, i);
            assert(line@ == rest);
            r.push(line);
            assert(slice_views(r@) == slice_views(before).push(line@));
            assert(s@.skip(i as int).len() == 0);
            at = i;
        }
    }
    r
}

/// The pieces of `s` between the `c`s.
pub fn pieces_slice(s: &[char], c: char) -> (r: Vec<&[char]>)
    ensures
        slice_views(r@) == pieces(s@, c),
{
    let mut r: Vec<&[char]> = Vec::new();
    let mut at: usize = 0;
    assert(s@.skip(0) == s@);
    loop
        invariant
            at <= s.len(),
            pieces(s@, c) == slice_views(r@) + pieces(s@.skip(at as int), c),
        decreases s.len() - at,
    {
        let i = next_char(s, c, at);
        let ghost rest = s@.skip(at as int);
        let ghost before = r@;
        let piece = slice_subrange(s, at, i);
        r.push(piece);
        assert(slice_views(r@) == slice_views(before).push(piece@));
        assert(piece@ == rest.take(i - at));
        if i == s.len() {
            assert(piece@ == rest);
            return r;
        }
        assert(rest.skip(i - at + 1) == s@.skip(i + 1));
        at = i + 1;
    }
}

/// `s` with each `w`, from the left and without overlap, replaced by `t`.
pub fn replace_slice(s: &[char], w: &[char], t: &[char]) -> (r: Vec<char>)
    requires
        w.len() > 0,
    ensures
        r@ == replace(s@, w@, t@),
{
    let mut r: Vec<char> = Vec::new();
    let mut i: usize = 0;
    assert(s@.skip(0) == s@);
    while i < s.len()
        invariant
            w.len() > 0,
            i <= s.len(),
            replace(s@, w@, t@) == r@ + replace(s@.skip(i as int), w@, t@),
        decreases s.len() - i,
    {
        let ghost rest = s@.skip(i as int);
        let hit = occurs_at_slice(s, w, i);
        assert(hit == starts_with(rest, w@)) by {
            if i + w@.len() <= s@.len() {
                assert(rest.subrange(0, w@.len() as int) == s@.subrange(i as int, i + w@.len()));
            }
        }
        if hit {
            append_slice(&mut r, t);
            assert(rest.skip(w@.len() as int) == s@.skip(i + w@.len()));
            i += w.len();
        } else {
            r.push(s[i]);
            assert(rest.drop_first() == s@.skip(i + 1));
            i += 1;
        }
    }
    r
}

/// Appends the characters of `t` to `v`.
pub fn append_slice(v: &mut Vec<char>, t: &[char])
    ensures
        final(v)@ == old(v)@ + t@,
{
    let mut k: usize = 0;
    let ghost before = v@;
    while k < t.len()
        invariant
            k <= t.len(),
            v@ == before + t@.take(k as int),
        decreases t.len() - k,
    {
        v.push(t[k]);
        k += 1;
    }
    assert(t@.take(k as int) == t@);
}

/// How many `c`s stand in `s`.
pub fn count_slice(s: &[char], c: char) -> (n: usize)
    ensures
        n == count(s@, c),
{
    let mut n: usize = 0;
    let mut i: usize = 0;
    while i < s.len()
        invariant
            i <= s.len(),
            n <= i,
            n == count(s@.take(i as int), c),
        decreases s.len() - i,
    {
        assert(s@.take(i + 1).drop_last() == s@.take(i as int));
        if s[i] == c {
            n += 1;
        }
        i += 1;
    }
    assert(s@.take(i as int) == s@);
    n
}

/// `s` without whitespace.
pub fn without_space_slice(s: &[char]) -> (r: Vec<char>)
    ensures
        r@ == without_space(s@),
{
    let mut r: Vec<char> = Vec::new();
    let mut i: usize = 0;
    let ghost keep = |c: char| !is_space(c);
    proof {
        reveal(Seq::filter);
    }
    while i < s.len()
        invariant
            i <= s.len(),
            keep == (|c: char| !is_space(c)),
            r@ == s@.take(i as int).filter(keep),
        decreases s.len() - i,
    {
        proof {
            reveal(Seq::filter);
            assert(s@.take(i + 1).drop_last() == s@.take(i as int));
        }
        if !is_whitespace(s[i]) {
            r.push(s[i]);
        }
        i += 1;
    }
    assert(s@.take(i as int) == s@);
    r
}

/// `n` in decimal.
pub fn decimal_string(n: u64) -> (s: String)
    ensures
        s@ == decimal(n as nat),
    decreases n,
{
    if n < 10 {
        let mut s = String::new();
        s.push((48 + n as u8) as char);
        s
    } else {
        let mut s = decimal_string(n / 10);
        s.push((48 + (n % 10) as u8) as char);
        s
    }
}

/// `n` in decimal, with a leading zero where it has one digit.
pub fn two_digit_string(n: u64) -> (s: String)
    ensures
        s@ == two_digits(n as nat),
{
    let d = decimal_string(n);
    if n < 10 {
        let mut s = String::new();
        s.push('0');
        s.append(d.as_str());
        s
    } else {
        d
    }
}

/// The strings of a list, in order, with `sep` between neighbours.
pub fn join_strings(parts: &Vec<String>, sep: &str) -> (s: String)
    ensures
        s@ == join(views(parts@), sep@),
{
    let mut s = String::new();
    let ghost all = views(parts@);
    let mut i: usize = 0;
    while i < parts.len()
        invariant
            i <= parts.len(),
            all == views(parts@),
            s@ == join(all.take(i as int), sep@),
        decreases parts.len() - i,
    {
        assert(all.take(i + 1).drop_last() == all.take(i as int));
        assert(all[i as int] == parts@[i as int]@);
        if i > 0 {
            s.append(sep);
        }
        s.append(parts[i].as_str());
        i += 1;
    }
    assert(all.take(i as int) == all);
    s
}

/// A copy of a list of strings.
pub fn copied(v: &Vec<String>) -> (r: Vec<String>)
    ensures
        views(r@) == views(v@),
{
    let mut r: Vec<String> = Vec::new();
    let mut i: usize = 0;
    while i < v.len()
        invariant
            i <= v@.len(),
            r@.len() == i,
            forall|k: int| 0 <= k < i ==> (#[trigger] r@[k])@ == v@[k]@,
        decreases v@.len() - i,
    {
        r.push(v[i].clone());
        i += 1;
    }
    assert(views(r@) =~= views(v@));
    r
}

/// Whether a text is whitespace alone.
pub open spec fn is_blank(s: Seq<char>) -> bool {
    forall|i: int| 0 <= i < s.len() ==> is_space(#[trigger] s[i])
}

proof fn lemma_trim_start_blank(w: Seq<char>, s: Seq<char>)
    requires
        is_blank(w),
    ensures
        trim_start(w + s) == trim_start(s),
    decreases w.len(),
{
    if w.len() == 0 {
        assert(w + s =~= s);
    } else {
        assert((w + s)[0] == w[0]);
        assert((w + s).drop_first() =~= w.drop_first() + s);
        lemma_trim_start_blank(w.drop_first(), s);
    }
}

proof fn lemma_trim_end_blank(s: Seq<char>, w: Seq<char>)
    requires
        is_blank(w),
    ensures
        trim_end(s + w) == trim_end(s),
    decreases w.len(),
{
    if w.len() == 0 {
        assert(s + w =~= s);
    } else {
        assert((s + w).last() == w[w.len() - 1]);
        assert((s + w).drop_last() =~= s + w.drop_last());
        lemma_trim_end_blank(s, w.drop_last());
    }
}

pub(crate) proof fn lemma_trim_start_before(s: Seq<char>, w: Seq<char>)
    requires
        is_blank(w),
    ensures
        trim_start(s + w) == trim_start(s) + w || (trim_start(s).len() == 0 && trim_start(
            s + w,
        ).len() == 0),
    decreases s.len(),
{
    if s.len() == 0 {
        assert(s + w =~= w);
        lemma_trim_start_all(w);
    } else {
        assert((s + w)[0] == s[0]);
        if is_space(s[0]) {
            assert((s + w).drop_first() =~= s.drop_first() + w);
            lemma_trim_start_before(s.drop_first(), w);
        }
    }
}

proof fn lemma_trim_start_all(w: Seq<char>)
    requires
        is_blank(w),
    ensures
        trim_start(w).len() == 0,
    decreases w.len(),
{
    if w.len() > 0 {
        lemma_trim_start_all(w.drop_first());
    }
}

/// Whitespace around a text makes no difference to what is left of it when it is trimmed.
pub proof fn law_trim_ignores_space(w: Seq<char>, s: Seq<char>, x: Seq<char>)
    requires
        is_blank(w),
        is_blank(x),
    ensures
        trim(w + s + x) == trim(s),
{
    assert(w + s + x =~= w + (s + x));
    lemma_trim_start_blank(w, s + x);
    lemma_trim_start_before(s, x);
    if trim_start(s + x) == trim_start(s) + x {
        lemma_trim_end_blank(trim_start(s), x);
    } else {
        let e = Seq::<char>::empty();
        assert(trim_start(s) =~= e);
        lemma_trim_end_blank(e, trim_start(s + x));
        assert(e + trim_start(s + x) =~= trim_start(s + x));
    }
}

/// The lines of two texts with a newline between them are those of the first text, ended by the
/// newline, and then those of the second.
pub proof fn law_lines_join(a: Seq<char>, b: Seq<char>)
    ensures
        lines(a.push('\n') + b) == lines(a.push('\n')) + lines(b),
    decreases a.len(),
{
    let n = a.push('\n');
    let s = n + b;
    lemma_run_before(n, '\n');
    lemma_run_before(s, '\n');
    let i = run_before(n, '\n') as int;
    assert(n[a.len() as int] == '\n');
    assert(i < n.len()) by {
        if i == n.len() {
            assert(n[a.len() as int] != '\n');
        }
    }
    let j = run_before(s, '\n') as int;
    assert(s[i] == n[i]);
    assert(j == i) by {
        if j < i {
            assert(s[j] == n[j]);
        }
    }
    assert(s.take(i) =~= n.take(i));
    if i < a.len() {
        let rest = a.skip(i + 1);
        assert(n.skip(i + 1) =~= rest.push('\n'));
        assert(s.skip(i + 1) =~= rest.push('\n') + b);
        law_lines_join(rest, b);
        assert(lines(s) =~= lines(n) + lines(b));
    } else {
        let e = Seq::<char>::empty();
        assert(n.skip(i + 1) =~= e);
        assert(s.skip(i + 1) =~= b);
        assert(lines(e) =~= Seq::empty());
        assert(lines(n) =~= seq![chomp(n.take(i))]);
        assert(lines(s) =~= lines(n) + lines(b));
    }
}

/// Ending a text by a newline ends its last line, or adds an empty one.
pub proof fn law_lines_ended(a: Seq<char>)
    ensures
        lines(a).len() <= lines(a.push('\n')).len() <= lines(a).len() + 1,
        forall|k: int|
            0 <= k < lines(a).len() ==> lines(a.push('\n'))[k] == #[trigger] lines(a)[k] || lines(
                a.push('\n'),
            )[k] == chomp(lines(a)[k]),
        lines(a.push('\n')).len() == lines(a).len() + 1 ==> lines(a.push('\n')).last().len() == 0,
    decreases a.len(),
{
    let n = a.push('\n');
    lemma_run_before(n, '\n');
    lemma_run_before(a, '\n');
    let i = run_before(n, '\n') as int;
    let j = run_before(a, '\n') as int;
    assert(n[a.len() as int] == '\n');
    assert(i == j) by {
        if i < j {
            assert(n[i] == a[i]);
        }
        if j < i {
            if j < a.len() {
                assert(n[j] == a[j]);
            }
        }
    }
    assert(n.take(i) =~= a.take(i));
    if i < a.len() {
        let rest = a.skip(i + 1);
        assert(n.skip(i + 1) =~= rest.push('\n'));
        law_lines_ended(rest);
        let x = lines(n);
        let y = lines(a);
        assert(x =~= seq![chomp(a.take(i))] + lines(rest.push('\n')));
        assert(y =~= seq![chomp(a.take(i))] + lines(rest));
        assert forall|k: int| 0 <= k < y.len() implies x[k] == #[trigger] y[k] || x[k] == chomp(
            y[k],
        ) by {
            if k > 0 {
                assert(y[k] == lines(rest)[k - 1]);
                assert(x[k] == lines(rest.push('\n'))[k - 1]);
            }
        }
    } else {
        let e = Seq::<char>::empty();
        assert(n.skip(i + 1) =~= e);
        assert(lines(e) =~= Seq::empty());
        assert(a.take(i) =~= a);
        assert(lines(n) =~= seq![chomp(a)]);
    }
}

/// A line without a newline or a carriage return at its end is the one line of the text that it
/// makes.
pub proof fn law_one_line(s: Seq<char>)
    requires
        !s.contains('\n'),
        s.len() == 0 || s.last() != '\r',
    ensures
        lines(s.push('\n')) == seq![s],
{
    let n = s.push('\n');
    lemma_run_before(n, '\n');
    let i = run_before(n, '\n') as int;
    assert(n[s.len() as int] == '\n');
    assert(i == s.len()) by {
        if i < s.len() {
            assert(s[i] == n[i]);
        }
    }
    assert(n.take(i) =~= s);
    let e = Seq::<char>::empty();
    assert(n.skip(i + 1) =~= e);
    assert(lines(e) =~= Seq::empty());
    assert(lines(n) =~= seq![s]);
}

pub(crate) proof fn lemma_without_space_concat(a: Seq<char>, b: Seq<char>)
    ensures
        without_space(a + b) == without_space(a) + without_space(b),
{
    Seq::filter_distributes_over_add(a, b, |c: char| !is_space(c));
}

pub(crate) proof fn lemma_without_space_one(c: char)
    ensures
        without_space(seq![c]) == if is_space(c) {
            Seq::empty()
        } else {
            seq![c]
        },
{
    reveal_with_fuel(Seq::filter, 2);
    assert(seq![c].drop_last() =~= Seq::empty());
}

proof fn lemma_without_space_first(s: Seq<char>)
    requires
        s.len() > 0,
        is_space(s[0]),
    ensures
        without_space(s.drop_first()) == without_space(s),
{
    assert(s =~= seq![s[0]] + s.drop_first());
    lemma_without_space_concat(seq![s[0]], s.drop_first());
    lemma_without_space_one(s[0]);
    assert(Seq::<char>::empty() + without_space(s.drop_first()) =~= without_space(s.drop_first()));
}

proof fn lemma_without_space_last(s: Seq<char>)
    requires
        s.len() > 0,
        is_space(s.last()),
    ensures
        without_space(s.drop_last()) == without_space(s),
{
    assert(s =~= s.drop_last() + seq![s.last()]);
    lemma_without_space_concat(s.drop_last(), seq![s.last()]);
    lemma_without_space_one(s.last());
    assert(without_space(s.drop_last()) + Seq::<char>::empty() =~= without_space(s.drop_last()));
}

proof fn lemma_without_space_trim_start(s: Seq<char>)
    ensures
        without_space(trim_start(s)) == without_space(s),
    decreases s.len(),
{
    if s.len() > 0 && is_space(s[0]) {
        lemma_without_space_first(s);
        lemma_without_space_trim_start(s.drop_first());
    }
}

proof fn lemma_without_space_trim_end(s: Seq<char>)
    ensures
        without_space(trim_end(s)) == without_space(s),
    decreases s.len(),
{
    if s.len() > 0 && is_space(s.last()) {
        lemma_without_space_last(s);
        lemma_without_space_trim_end(s.drop_last());
    }
}

/// Trimming takes away whitespace alone.
pub proof fn law_trim_takes_space(s: Seq<char>)
    ensures
        without_space(trim(s)) == without_space(s),
{
    lemma_without_space_trim_start(s);
    lemma_without_space_trim_end(trim_start(s));
}

/// A carriage return at the end of a line is whitespace.
pub proof fn law_chomp_takes_space(s: Seq<char>)
    ensures
        without_space(chomp(s)) == without_space(s),
{
    if s.len() > 0 && s.last() == '\r' {
        lemma_without_space_last(s);
    }
}

} // verus!
