//! Where the JSON of an answer is found, and what a response is read as.

use crate::binary64::{fraction, one, product, units, Binary64, HIDDEN, INFINITE, UNIT_SHIFT};
use crate::json::{distinct_keys, entry_under, parsed_json, Json, JsonNumber};
use crate::llm::{
    braced_part, candidate_texts, cost_of, fenced_part, first_parsed, json_view_of, micros,
    reads_as, truncated, LlmError, Reply,
};
use crate::measuring::{lemma_lower, lemma_one_is_huge};
use crate::nearness::lemma_upper;
use crate::range::{lemma_at_most, lemma_integer};
use crate::text::{
    contains, find, find_last, first_at, is_blank, lemma_find, occurs_at, starts_with, trim,
};
use crate::words::{is_trimmed, law_trim};
use vstd::arithmetic::div_mod::{lemma_fundamental_div_mod, lemma_fundamental_div_mod_converse};
use vstd::arithmetic::power2::lemma_pow2_pos;
use vstd::prelude::*;
use vstd::string::*;

verus! {

proof fn lemma_trimmed(s: Seq<char>)
    requires
        is_trimmed(s),
    ensures
        trim(s) == s,
{
    let e = Seq::<char>::empty();
    assert(is_blank(e));
    law_trim(e, s, e);
    assert(e + s + e =~= s);
}

/// The first place of a text is where it stands behind something that does not hold its first
/// character.
proof fn lemma_first_place(a: Seq<char>, w: Seq<char>, b: Seq<char>)
    requires
        w.len() > 0,
        !a.contains(w[0]),
    ensures
        find(a + w + b, w) == Some(a.len() as int),
{
    let s = a + w + b;
    let n = a.len() as int;
    assert(s.subrange(n, n + w.len()) =~= w);
    assert forall|j: int| 0 <= j < n implies !#[trigger] occurs_at(s, w, j) by {
        if occurs_at(s, w, j) {
            assert(s.subrange(j, j + w.len())[0] == s[j]);
            assert(a[j] == w[0]);
            assert(a.contains(w[0]));
        }
    }
    assert(first_at(s, w, n));
    lemma_find(s, w, n);
}

proof fn lemma_no_place(s: Seq<char>, w: Seq<char>)
    requires
        w.len() > 0,
        !s.contains(w[0]),
    ensures
        find(s, w) is None,
{
    if contains(s, w) {
        let i = choose|i: int| occurs_at(s, w, i);
        assert(s.subrange(i, i + w.len())[0] == s[i]);
        assert(s.contains(w[0]));
    }
}

/// The JSON of an answer is found between its first two markers of a code block, with a label
/// `json` or without one, unless the answer as a whole is JSON.
pub proof fn law_fenced_json_is_found(
    a: Seq<char>,
    label: Seq<char>,
    x: Seq<char>,
    b: Seq<char>,
)
    requires
        first_at(
            a + seq!['`', '`', '`'] + (label + (x + seq!['`', '`', '`'] + b)),
            seq!['`', '`', '`'],
            a.len() as int,
        ),
        first_at(x + seq!['`', '`', '`'] + b, seq!['`', '`', '`'], x.len() as int),
        label == "json"@ || (label == Seq::<char>::empty() && !starts_with(
            x + seq!['`', '`', '`'] + b,
            "json"@,
        )),
        is_trimmed(a + seq!['`', '`', '`'] + (label + (x + seq!['`', '`', '`'] + b))),
        parsed_json(a + seq!['`', '`', '`'] + (label + (x + seq!['`', '`', '`'] + b))) is None,
    ensures
        fenced_part(a + seq!['`', '`', '`'] + (label + (x + seq!['`', '`', '`'] + b))) == Some(
            trim(x),
        ),
        parsed_json(trim(x)) is Some ==> first_parsed(
            candidate_texts(a + seq!['`', '`', '`'] + (label + (x + seq!['`', '`', '`'] + b))),
        ) == parsed_json(trim(x)),
{
    reveal_strlit("```");
    reveal_strlit("json");
    let f = seq!['`', '`', '`'];
    assert("```"@ =~= f);
    let rest = x + f + b;
    let after = label + rest;
    let t = a + f + after;
    lemma_trimmed(t);
    lemma_find(t, f, a.len() as int);
    assert(t.skip(a.len() + 3int) =~= after);
    let inner = if starts_with(after, "json"@) {
        after.skip(4)
    } else {
        after
    };
    if label == "json"@ {
        assert(after.subrange(0, 4) =~= label);
        assert(after.skip(4) =~= rest);
    } else {
        assert(after =~= rest);
    }
    assert(inner == rest);
    lemma_find(rest, f, x.len() as int);
    assert(rest.take(x.len() as int) =~= x);
    assert(fenced_part(t) == Some(trim(x)));
    let all = candidate_texts(t);
    reveal_with_fuel(first_parsed, 3);
    assert(all[0] == t);
    assert(all.drop_first()[0] == trim(x));
}

/// The JSON of an answer is found from its first opening brace to its last closing one, unless the
/// answer as a whole, or its first code block, is JSON.
pub proof fn law_braces_come_last(a: Seq<char>, x: Seq<char>, b: Seq<char>)
    requires
        !a.contains('{'),
        !b.contains('}'),
        is_trimmed(a + (seq!['{'] + x + seq!['}']) + b),
        parsed_json(a + (seq!['{'] + x + seq!['}']) + b) is None,
        fenced_part(a + (seq!['{'] + x + seq!['}']) + b) matches Some(t) ==> parsed_json(t) is None,
    ensures
        first_parsed(candidate_texts(a + (seq!['{'] + x + seq!['}']) + b)) == parsed_json(
            seq!['{'] + x + seq!['}'],
        ),
{
    reveal_strlit("{");
    let o = seq!['{'];
    let m = o + x + seq!['}'];
    let t = a + m + b;
    lemma_trimmed(t);
    assert("{"@ =~= o);
    assert(t =~= a + o + (x + seq!['}'] + b));
    lemma_first_place(a, o, x + seq!['}'] + b);
    lemma_last_place(a + o + x, '}', b);
    assert(t =~= (a + o + x).push('}') + b);
    let i = a.len() as int;
    let k = (a + o + x).len() as int;
    assert(t.subrange(i, k + 1) =~= m);
    assert(braced_part(t) == Some(m));
    let all = candidate_texts(t);
    reveal_with_fuel(first_parsed, 4);
    match fenced_part(t) {
        Some(p) => {
            assert(all =~= seq![t, p, m]);
            assert(all.drop_first() =~= seq![p, m]);
            assert(seq![p, m].drop_first() =~= seq![m]);
        },
        None => {
            assert(all =~= seq![t, m]);
            assert(all.drop_first() =~= seq![m]);
        },
    }
    assert(seq![m].drop_first() =~= Seq::empty());
}

/// The JSON of an answer without code blocks is found from its first opening brace to its last
/// closing one, unless the answer as a whole is JSON.
pub proof fn law_braced_json_is_found(a: Seq<char>, x: Seq<char>, b: Seq<char>)
    requires
        !a.contains('{'),
        !b.contains('}'),
        !(a + (seq!['{'] + x + seq!['}']) + b).contains('`'),
        is_trimmed(a + (seq!['{'] + x + seq!['}']) + b),
        parsed_json(a + (seq!['{'] + x + seq!['}']) + b) is None,
    ensures
        first_parsed(candidate_texts(a + (seq!['{'] + x + seq!['}']) + b)) == parsed_json(
            seq!['{'] + x + seq!['}'],
        ),
{
    reveal_strlit("```");
    let t = a + (seq!['{'] + x + seq!['}']) + b;
    lemma_no_place(t, "```"@);
    law_braces_come_last(a, x, b);
}

proof fn lemma_last_place(a: Seq<char>, c: char, b: Seq<char>)
    requires
        !b.contains(c),
    ensures
        find_last(a.push(c) + b, c) == Some(a.len() as int),
    decreases b.len(),
{
    let s = a.push(c) + b;
    if b.len() == 0 {
        assert(s =~= a.push(c));
    } else {
        assert(s.last() == b[b.len() - 1]);
        assert(b.contains(b[b.len() - 1]));
        let d = b.drop_last();
        assert(s.drop_last() =~= a.push(c) + d);
        assert(!d.contains(c)) by {
            if d.contains(c) {
                let k = choose|k: int| 0 <= k < d.len() && d[k] == c;
                assert(b[k] == c);
            }
        }
        lemma_last_place(a, c, d);
    }
}

/// In an answer without code blocks and without opening braces, which is not JSON as a whole, none
/// is found.
pub proof fn law_no_json_is_found(raw: Seq<char>)
    requires
        is_trimmed(raw),
        !raw.contains('`'),
        !raw.contains('{'),
        parsed_json(raw) is None,
    ensures
        first_parsed(candidate_texts(raw)) is None,
{
    reveal_strlit("```");
    reveal_strlit("{");
    lemma_trimmed(raw);
    lemma_no_place(raw, "```"@);
    lemma_no_place(raw, "{"@);
    let all = candidate_texts(raw);
    assert(all =~= seq![raw]);
    reveal_with_fuel(first_parsed, 2);
    assert(all.drop_first() =~= Seq::empty());
}

/// A text is cut to a number of characters, and an ellipsis is put behind it, if and only if it has
/// more.
pub proof fn law_truncated(a: Seq<char>, b: Seq<char>)
    ensures
        b.len() == 0 ==> truncated(a + b, a.len()) == a,
        b.len() > 0 ==> truncated(a + b, a.len()) == a + seq!['…'],
{
    reveal_strlit("…");
    assert("…"@ =~= seq!['…']);
    assert((a + b).take(a.len() as int) =~= a);
    if b.len() == 0 {
        assert(a + b =~= a);
    }
}

/// Whether a value stands under a key.
pub open spec fn has_entry(entries: Seq<(Seq<char>, Json)>, key: Seq<char>, value: Json) -> bool {
    exists|i: int| 0 <= i < entries.len() && #[trigger] entries[i] == (key, value)
}

/// Whether nothing stands under a key.
pub open spec fn has_no_entry(entries: Seq<(Seq<char>, Json)>, key: Seq<char>) -> bool {
    forall|i: int| 0 <= i < entries.len() ==> (#[trigger] entries[i]).0 != key
}

proof fn lemma_entry(entries: Seq<(Seq<char>, Json)>, key: Seq<char>, value: Json)
    requires
        distinct_keys(entries),
        has_entry(entries, key, value),
    ensures
        entry_under(entries, key) == Some(value),
    decreases entries.len(),
{
    let i = choose|i: int| 0 <= i < entries.len() && #[trigger] entries[i] == (key, value);
    if i > 0 {
        assert(entries[0].0 != entries[i].0);
        let rest = entries.drop_first();
        assert(rest[i - 1] == (key, value));
        assert(distinct_keys(rest)) by {
            assert forall|a: int, b: int|
                #![trigger rest[a], rest[b]]
                0 <= a < b < rest.len() implies rest[a].0 != rest[b].0 by {
                assert(entries[a + 1].0 != entries[b + 1].0);
            }
        }
        lemma_entry(rest, key, value);
    }
}

proof fn lemma_no_entry(entries: Seq<(Seq<char>, Json)>, key: Seq<char>)
    requires
        has_no_entry(entries, key),
    ensures
        entry_under(entries, key) is None,
    decreases entries.len(),
{
    if entries.len() > 0 {
        let rest = entries.drop_first();
        assert(entries[0].0 != key);
        assert forall|i: int| 0 <= i < rest.len() implies (#[trigger] rest[i]).0 != key by {
            assert(rest[i] == entries[i + 1]);
        }
        lemma_no_entry(rest, key);
    }
}

/// A response that says it is an error is read as that error, whatever else it holds.
pub proof fn law_error_response(
    entries: Seq<(Seq<char>, Json)>,
    text: Seq<char>,
    subtype: Seq<char>,
    r: Result<Reply, LlmError>,
)
    requires
        distinct_keys(entries),
        has_entry(entries, "is_error"@, Json::Bool(true)),
        has_entry(entries, "result"@, Json::Text(text)),
        has_entry(entries, "subtype"@, Json::Text(subtype)) || (subtype == "?"@ && has_no_entry(
            entries,
            "subtype"@,
        )),
        reads_as(Json::Object(entries), r),
    ensures
        r matches Err(LlmError::ErrorResponse { subtype: s, result: t }) && s@ == subtype && t@
            == truncated(text, 300),
{
    lemma_entry(entries, "is_error"@, Json::Bool(true));
    lemma_entry(entries, "result"@, Json::Text(text));
    if has_entry(entries, "subtype"@, Json::Text(subtype)) {
        lemma_entry(entries, "subtype"@, Json::Text(subtype));
    } else {
        lemma_no_entry(entries, "subtype"@);
    }
}

/// A response that does not say it is an error is read as its text and its structured output, where
/// it has one that is not null; and as empty where it has neither.
pub proof fn law_response(
    entries: Seq<(Seq<char>, Json)>,
    text: Seq<char>,
    structured: Option<Json>,
    r: Result<Reply, LlmError>,
)
    requires
        distinct_keys(entries),
        has_entry(entries, "is_error"@, Json::Bool(false)) || has_no_entry(entries, "is_error"@),
        has_entry(entries, "result"@, Json::Text(text)) || (text == Seq::<char>::empty()
            && has_no_entry(entries, "result"@)),
        match structured {
            Some(j) => j != Json::Null && has_entry(entries, "structured_output"@, j),
            None => has_no_entry(entries, "structured_output"@) || has_entry(
                entries,
                "structured_output"@,
                Json::Null,
            ),
        },
        reads_as(Json::Object(entries), r),
    ensures
        trim(text).len() > 0 || structured is Some ==> (r matches Ok(reply) && reply.text@ == text
            && json_view_of(reply.structured) == structured),
        trim(text).len() == 0 && structured is None ==> (r matches Err(LlmError::Empty)),
{
    if has_entry(entries, "is_error"@, Json::Bool(false)) {
        lemma_entry(entries, "is_error"@, Json::Bool(false));
    } else {
        lemma_no_entry(entries, "is_error"@);
    }
    if has_entry(entries, "result"@, Json::Text(text)) {
        lemma_entry(entries, "result"@, Json::Text(text));
    } else {
        lemma_no_entry(entries, "result"@);
    }
    match structured {
        Some(j) => {
            lemma_entry(entries, "structured_output"@, j);
        },
        None => {
            if has_no_entry(entries, "structured_output"@) {
                lemma_no_entry(entries, "structured_output"@);
            } else {
                lemma_entry(entries, "structured_output"@, Json::Null);
            }
        },
    }
}

/// The cost of a response counts whether or not the response is an error: so many millions of
/// millionths as it states dollars, where these are whole.
pub proof fn law_cost(entries: Seq<(Seq<char>, Json)>, dollars: nat)
    requires
        distinct_keys(entries),
        dollars < 0x1_0000_0000,
        has_entry(entries, "total_cost_usd"@, Json::Number(JsonNumber::Natural(dollars))) || (
        dollars == 0 && has_no_entry(entries, "total_cost_usd"@)),
    ensures
        cost_of(Json::Object(entries)) == 1_000_000 * dollars,
{
    if has_entry(entries, "total_cost_usd"@, Json::Number(JsonNumber::Natural(dollars))) {
        lemma_entry(
            entries,
            "total_cost_usd"@,
            Json::Number(JsonNumber::Natural(dollars)),
        );
        let u = one();
        let m = 1_000_000 * dollars;
        lemma_pow2_pos(UNIT_SHIFT as nat);
        lemma_integer(dollars);
        lemma_integer(1_000_000);
        lemma_integer(m);
        if dollars == 0 {
            crate::range::lemma_nothing(1);
            assert(0 * u == 0) by (nonlinear_arith);
        } else {
            let x = fraction(dollars, 1);
            assert(x.bits > 0) by {
                crate::range::lemma_zero_units();
                assert(dollars * u > 0) by (nonlinear_arith)
                    requires
                        dollars > 0,
                        u > 0,
                ;
            }
            let n = (dollars * u) * (1_000_000 * u);
            assert(n == (m * u) * u && m * u * 1 == m * u) by (nonlinear_arith)
                requires
                    n == (dollars * u) * (1_000_000 * u),
                    m == 1_000_000 * dollars,
            ;
            crate::binary64::lemma_nearest_scale(m * u, 1, u);
            assert(1 * u == u);
            assert(product(x, fraction(1_000_000, 1)) == fraction(m, 1));
            lemma_fundamental_div_mod_converse((m * u) as int, u as int, m as int, 0);
        }
    } else {
        lemma_no_entry(entries, "total_cost_usd"@);
    }
}

/// A cost of up to a million dollars is cut to whole millionths of a dollar: these are not more than
/// the cost, and less than one millionth below it, but for a quarter of one that rounding may take.
pub proof fn law_micros(x: Binary64)
    requires
        0 < x.bits < INFINITE,
        units(x.bits as nat) <= 1_000_000 * one(),
    ensures
        4 * (micros(x) * one()) <= 4_000_000 * units(x.bits as nat) + one(),
        4 * ((micros(x) + 1) * one()) > 4_000_000 * units(x.bits as nat) - one(),
{
    let u = one();
    let h = HIDDEN as nat;
    let a = units(x.bits as nat);
    lemma_pow2_pos(UNIT_SHIFT as nat);
    lemma_one_is_huge();
    lemma_integer(1_000_000);
    let q = 1_000_000 * u;
    assert(a * q <= (1_000_000_000_000 * u) * u) by (nonlinear_arith)
        requires
            a <= 1_000_000 * u,
            q == 1_000_000 * u,
    {
        assert(a * q <= (1_000_000 * u) * q);
    }
    lemma_at_most(a * q, u, 1_000_000_000_000);
    lemma_upper(a * q, u);
    lemma_lower(a * q, u);
    let p = units(product(x, fraction(1_000_000, 1)).bits as nat);
    let t = 1_000_000 * a;
    assert(2 * h * p <= (2 * h + 1) * t + h) by (nonlinear_arith)
        requires
            2 * h * (p * u) <= (2 * h + 1) * (a * q) + h * u,
            q == 1_000_000 * u,
            t == 1_000_000 * a,
            u > 0,
    {
        assert((2 * h + 1) * (a * q) == u * ((2 * h + 1) * t));
        assert(2 * h * (p * u) == u * (2 * h * p));
        assert(h * u == u * h);
        assert(u * (2 * h * p) <= u * ((2 * h + 1) * t + h));
    }
    assert((2 * h - 1) * t <= 2 * h * p + h) by (nonlinear_arith)
        requires
            (2 * h - 1) * (a * q) <= 2 * h * (p * u) + h * u,
            q == 1_000_000 * u,
            t == 1_000_000 * a,
            u > 0,
    {
        assert((2 * h - 1) * (a * q) == u * ((2 * h - 1) * t));
        assert(2 * h * (p * u) == u * (2 * h * p));
        assert(h * u == u * h);
        assert(u * ((2 * h - 1) * t) <= u * (2 * h * p + h));
    }
    assert(0x20_0000_0000_0000 * p <= 0x20_0000_0000_0001 * t + 0x10_0000_0000_0000
        && 0x1f_ffff_ffff_ffff * t <= 0x20_0000_0000_0000 * p + 0x10_0000_0000_0000)
        by (nonlinear_arith)
        requires
            2 * h * p <= (2 * h + 1) * t + h,
            (2 * h - 1) * t <= 2 * h * p + h,
            h == 0x10_0000_0000_0000,
    ;
    assert(t <= 1_000_000_000_000 * u);
    assert(4 * p <= 4 * t + u);
    assert(4 * t <= 4 * p + u);
    let m = p / u;
    lemma_fundamental_div_mod(p as int, u as int);
    assert(m * u <= p < (m + 1) * u) by (nonlinear_arith)
        requires
            p == u * m + p % u,
            0 <= p % u < u,
    ;
    assert(m <= u64::MAX) by (nonlinear_arith)
        requires
            m * u <= p,
            p <= 1_000_000_000_001 * u,
            u > 0,
    ;
}

} // verus!
