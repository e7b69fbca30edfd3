//! The language model behind the command line: how it is called and how its answers are read.

use crate::binary64::{fraction, integer_part, product, quotient, Binary64, INFINITE};
use crate::json::{
    flag_in, json_of, json_text, member, member_of, number_bits, number_in, parse_json, parsed_json,
    reads_exactly, refusal_text, text_in, value_text, Json, DEEPEST,
};
use crate::text::{
    append_slice, chars_of, decimal, decimal_string, find, find_last, find_last_slice, find_slice,
    is_blank, law_trim_ignores_space, occurs_at, occurs_at_slice, replace, replace_slice, starts_with, string_of, trim, trim_slice,
    views,
};
use vstd::prelude::*;
use vstd::slice::slice_subrange;
use vstd::string::*;

verus! {

/// An answer of the model.
#[derive(Debug, Clone)]
pub struct Reply {
    pub text: String,
    /// The structured output, where a schema was asked for and the model kept to it.
    pub structured: Option<serde_json::Value>,
}

/// How the model is called: as a subprocess of the given program.
#[derive(Debug, Clone)]
pub struct Llm {
    pub bin: String,
    pub model: Option<String>,
    pub retries: u32,
    pub verbose: bool,
    pub timeout_secs: u64,
    /// The cost cap per call, as the program takes it.
    pub max_budget_usd: Option<String>,
    /// Whether the program may load the context of the directory it runs in.
    pub load_context: bool,
}

/// Why a call of the model gave no usable answer.
#[derive(Debug, Clone)]
pub enum LlmError {
    /// The program ended with a failure. Holds the start of its error output.
    Exit { code: Option<i32>, stderr: String },
    /// The program was stopped after this many seconds.
    Timeout { secs: u64 },
    /// The output is not JSON. Holds its start and the reason.
    NotJson { output: String, cause: String },
    /// The program reported an error.
    ErrorResponse { subtype: String, result: String },
    /// The answer holds neither text nor structured output.
    Empty,
    /// No JSON was found in the answer. Holds its start.
    NoJsonFound { answer: String },
}

/// At most the first `n` characters, marked where some were cut off.
pub open spec fn truncated(s: Seq<char>, n: nat) -> Seq<char> {
    if s.len() <= n {
        s
    } else {
        s.take(n as int) + "…"@
    }
}

/// How an exit code is written.
pub open spec fn code_text(code: Option<i32>) -> Seq<char> {
    match code {
        None => "None"@,
        Some(c) => if c < 0 {
            "Some(-"@ + decimal((-c) as nat) + ")"@
        } else {
            "Some("@ + decimal(c as nat) + ")"@
        },
    }
}

fn code_string(code: Option<i32>) -> (s: String)
    ensures
        s@ == code_text(code),
{
    match code {
        None => String::from_str("None"),
        Some(c) => {
            if c < 0 {
                let mut s = String::from_str("Some(-");
                s.append(decimal_string((-(c as i64)) as u64).as_str());
                s.append(")");
                s
            } else {
                let mut s = String::from_str("Some(");
                s.append(decimal_string(c as u64).as_str());
                s.append(")");
                s
            }
        },
    }
}

impl LlmError {
    /// The message for the error of the given program.
    pub open spec fn message_text(self, program: Seq<char>) -> Seq<char> {
        match self {
            LlmError::Exit { code, stderr } => program + " exited with code "@ + code_text(code)
                + ": "@ + stderr@,
            LlmError::Timeout { secs } => "Timeout exceeded "@ + decimal(secs as nat) + " seconds"@,
            LlmError::NotJson { output, cause } => "Failed to parse "@ + program + " JSON output: "@
                + output@ + ": "@ + cause@,
            LlmError::ErrorResponse { subtype, result } => program + " error response (subtype="@
                + subtype@ + "): "@ + result@,
            LlmError::Empty => "Empty response"@,
            LlmError::NoJsonFound { answer } => "Failed to extract JSON: "@ + answer@,
        }
    }

    /// The message for the error of the given program.
    pub fn message(&self, program: &str) -> (s: String)
        ensures
            s@ == self.message_text(program@),
    {
        match self {
            LlmError::Exit { code, stderr } => {
                let mut s = String::from_str(program);
                s.append(" exited with code ");
                s.append(code_string(*code).as_str());
                s.append(": ");
                s.append(stderr.as_str());
                s
            },
            LlmError::Timeout { secs } => {
                let mut s = String::from_str("Timeout exceeded ");
                s.append(decimal_string(*secs).as_str());
                s.append(" seconds");
                s
            },
            LlmError::NotJson { output, cause } => {
                let mut s = String::from_str("Failed to parse ");
                s.append(program);
                s.append(" JSON output: ");
                s.append(output.as_str());
                s.append(": ");
                s.append(cause.as_str());
                s
            },
            LlmError::ErrorResponse { subtype, result } => {
                let mut s = String::from_str(program);
                s.append(" error response (subtype=");
                s.append(subtype.as_str());
                s.append("): ");
                s.append(result.as_str());
                s
            },
            LlmError::Empty => String::from_str("Empty response"),
            LlmError::NoJsonFound { answer } => {
                let mut s = String::from_str("Failed to extract JSON: ");
                s.append(answer.as_str());
                s
            },
        }
    }
}

/// At most the first `n` characters of `s`, with an ellipsis where some were cut off.
pub fn truncate(s: &str, n: usize) -> (r: String)
    ensures
        r@ == truncated(s@, n as nat),
{
    let v = chars_of(s);
    if v.len() <= n {
        string_of(&v)
    } else {
        let mut r: Vec<char> = Vec::new();
        append_slice(&mut r, slice_subrange(v.as_slice(), 0, n));
        let mut out = string_of(&r);
        assert(out@ == s@.take(n as int));
        out.append("…");
        out
    }
}

/// The closing delimiter of a block.
pub open spec fn closing(tag: Seq<char>) -> Seq<char> {
    "</"@ + tag + ">"@
}

/// What stands in for a closing delimiter inside a block: the same, but for a zero-width space.
pub open spec fn inert_closing(tag: Seq<char>) -> Seq<char> {
    "<\u{200B}/"@ + tag + ">"@
}

/// Untrusted content as a delimited block.
pub open spec fn wrapped(tag: Seq<char>, content: Seq<char>) -> Seq<char> {
    "<"@ + tag + ">\n"@ + replace(content, closing(tag), inert_closing(tag)) + "\n</"@ + tag + ">"@
}

/// Wraps untrusted content in a delimited block for a prompt. A closing delimiter inside the
/// content is made inert, so that the content cannot end the block early.
pub fn wrap_untrusted(tag: &str, content: &str) -> (r: String)
    ensures
        r@ == wrapped(tag@, content@),
{
    let mut close = String::from_str("</");
    close.append(tag);
    close.append(">");
    let mut inert = String::from_str("<\u{200B}/");
    inert.append(tag);
    inert.append(">");
    let w = chars_of(close.as_str());
    let t = chars_of(inert.as_str());
    proof {
        reveal_strlit("</");
    }
    let body = string_of(
        &replace_slice(chars_of(content).as_slice(), w.as_slice(), t.as_slice()),
    );
    let mut r = String::from_str("<");
    r.append(tag);
    r.append(">\n");
    r.append(body.as_str());
    r.append("\n</");
    r.append(tag);
    r.append(">");
    r
}

/// What a line of text without `<` looks like before the block's end, it looks like in the content.
proof fn lemma_prefix_survives(q: Seq<char>, s: Seq<char>, p: Seq<char>, r: Seq<char>, t: Seq<char>)
    requires
        q.len() > 0,
        forall|i: int| 0 <= i < q.len() ==> q[i] != '<',
        q.last() != '\n',
        p.len() > 0,
        r.len() > 0,
        r[0] == '<',
        t.len() >= 2,
        t[0] == '\n',
        t[1] == '<',
        starts_with(replace(s, p, r) + t, q),
    ensures
        starts_with(s, q),
    decreases s.len(),
{
    let w = replace(s, p, r) + t;
    assert forall|i: int| 0 <= i < q.len() implies w[i] == q[i] by {
        assert(w.subrange(0, q.len() as int)[i] == w[i]);
    }
    if s.len() == 0 {
        assert(w =~= t);
        assert(w[0] == q[0]);
        if q.len() > 1 {
            assert(w[1] == q[1]);
        }
    } else if starts_with(s, p) {
        assert(w[0] == r[0]);
        assert(w[0] == q[0]);
    } else {
        let rest = s.drop_first();
        let w2 = replace(rest, p, r) + t;
        assert(w =~= seq![s[0]] + w2);
        assert(q[0] == s[0]);
        if q.len() > 1 {
            let q2 = q.drop_first();
            assert(w2.subrange(0, q2.len() as int) =~= q2) by {
                assert forall|i: int| 0 <= i < q2.len() implies w2[i] == q2[i] by {
                    assert(w[i + 1] == q[i + 1]);
                }
            }
            assert(starts_with(w2, q2));
            lemma_prefix_survives(q2, rest, p, r, t);
            assert(s.subrange(0, q.len() as int) =~= q) by {
                assert forall|i: int| 0 <= i < q.len() implies s[i] == q[i] by {
                    if i > 0 {
                        assert(rest.subrange(0, q2.len() as int)[i - 1] == q2[i - 1]);
                    }
                }
            }
        } else {
            assert(s.subrange(0, 1) =~= q);
        }
    }
}

/// No closing delimiter begins inside the content of a block.
proof fn lemma_content_inert(s: Seq<char>, p: Seq<char>, r: Seq<char>, t: Seq<char>, i: int)
    requires
        p.len() >= 2,
        p[0] == '<',
        p[1] == '/',
        p.last() == '>',
        forall|k: int| 1 <= k < p.len() ==> p[k] != '<',
        r.len() >= 2,
        r[0] == '<',
        r[1] != '/',
        forall|k: int| 1 <= k < r.len() ==> r[k] != '<',
        t.len() >= 2,
        t[0] == '\n',
        t[1] == '<',
        0 <= i < replace(s, p, r).len(),
    ensures
        !occurs_at(replace(s, p, r) + t, p, i),
    decreases s.len(),
{
    let w = replace(s, p, r) + t;
    if occurs_at(w, p, i) {
        assert forall|k: int| 0 <= k < p.len() implies w[i + k] == p[k] by {
            assert(w.subrange(i, i + p.len())[k] == w[i + k]);
        }
        assert(w[i] == '<' && w[i + 1] == '/') by {
            assert(w[i + 0] == p[0]);
            assert(w[i + 1] == p[1]);
        }
        if starts_with(s, p) {
            let rest = s.skip(p.len() as int);
            let w2 = replace(rest, p, r) + t;
            assert(w =~= r + w2);
            if i == 0 {
                assert(w[1] == r[1]);
            } else if i < r.len() {
                assert(w[i] == r[i]);
            } else {
                let j = i - r.len();
                assert(w2.subrange(j, j + p.len()) =~= p) by {
                    assert forall|k: int| 0 <= k < p.len() implies w2[j + k] == p[k] by {
                        assert(w[i + k] == p[k]);
                    }
                }
                assert(occurs_at(w2, p, j));
                lemma_content_inert(rest, p, r, t, j);
            }
        } else {
            let rest = s.drop_first();
            let w2 = replace(rest, p, r) + t;
            assert(w =~= seq![s[0]] + w2);
            if i == 0 {
                let q = p.drop_first();
                assert(w2.subrange(0, q.len() as int) =~= q) by {
                    assert forall|k: int| 0 <= k < q.len() implies w2[k] == q[k] by {
                        assert(w[0 + (k + 1)] == p[k + 1]);
                    }
                }
                assert(starts_with(w2, q));
                lemma_prefix_survives(q, rest, p, r, t);
                assert(s.subrange(0, p.len() as int) =~= p) by {
                    assert forall|k: int| 0 <= k < p.len() implies s[k] == p[k] by {
                        if k > 0 {
                            assert(rest.subrange(0, q.len() as int)[k - 1] == q[k - 1]);
                        }
                    }
                }
                assert(starts_with(s, p));
            } else {
                let j = i - 1;
                assert(w2.subrange(j, j + p.len()) =~= p) by {
                    assert forall|k: int| 0 <= k < p.len() implies w2[j + k] == p[k] by {
                        assert(w[i + k] == p[k]);
                    }
                }
                assert(occurs_at(w2, p, j));
                lemma_content_inert(rest, p, r, t, j);
            }
        }
    }
}

/// A wrapped block holds exactly one closing delimiter, and that one ends it: whatever the content
/// is, it cannot break out of the block. The tag must be free of `<`.
pub proof fn law_wrapped_closes_once(tag: Seq<char>, content: Seq<char>, i: int)
    requires
        !tag.contains('<'),
    ensures
        occurs_at(wrapped(tag, content), closing(tag), i) <==> i == wrapped(tag, content).len()
            - closing(tag).len(),
{
    reveal_strlit("<");
    reveal_strlit(">");
    reveal_strlit(">\n");
    reveal_strlit("</");
    reveal_strlit("\n</");
    reveal_strlit("<\u{200B}/");
    let p = closing(tag);
    let r = inert_closing(tag);
    let body = replace(content, p, r);
    let head = "<"@ + tag + ">\n"@;
    let t = seq!['\n'] + p;
    let w = wrapped(tag, content);
    assert(w =~= head + (body + t));
    assert forall|k: int| 1 <= k < p.len() implies p[k] != '<' by {
        if 2 <= k < 2 + tag.len() {
            assert(p[k] == tag[k - 2]);
        }
    }
    assert forall|k: int| 1 <= k < r.len() implies r[k] != '<' by {
        if 3 <= k < 3 + tag.len() {
            assert(r[k] == tag[k - 3]);
        }
    }
    let end = w.len() - p.len();
    assert(w.subrange(end, end + p.len()) =~= p);
    if occurs_at(w, p, i) && i != end {
        assert forall|k: int| 0 <= k < p.len() implies w[i + k] == p[k] by {
            assert(w.subrange(i, i + p.len())[k] == w[i + k]);
        }
        assert(w[i] == '<') by {
            assert(w[i + 0] == p[0]);
        }
        if i == 0 {
            let last = p.len() - 1;
            assert(w[0 + last] == p[last]);
            assert(w[last] == head[last]);
            assert(head[last] == '\n');
        } else if i < head.len() {
            assert(w[i] == head[i]);
            if i <= tag.len() {
                assert(head[i] == tag[i - 1]);
            }
        } else if i < head.len() + body.len() {
            let j = i - head.len();
            assert((body + t).subrange(j, j + p.len()) =~= p) by {
                assert forall|k: int| 0 <= k < p.len() implies (body + t)[j + k] == p[k] by {
                    assert(w[i + k] == p[k]);
                }
            }
            assert(occurs_at(body + t, p, j));
            lemma_content_inert(content, p, r, t, j);
        } else {
            assert(i == head.len() + body.len());
            assert(w[i] == t[0]);
        }
    }
}

/// Whether untrusted content stands in a prompt as a block that begins at `at`.
pub open spec fn has_block(p: Seq<char>, tag: Seq<char>, content: Seq<char>, at: int) -> bool {
    occurs_at(p, wrapped(tag, content), at)
}

/// A closing delimiter that begins inside a block of a prompt is the one that ends the block,
/// whatever the content of the block is and whatever follows it.
pub proof fn law_block_closes_once(
    p: Seq<char>,
    tag: Seq<char>,
    content: Seq<char>,
    at: int,
    i: int,
)
    requires
        !tag.contains('<'),
        has_block(p, tag, content, at),
        at <= i < at + wrapped(tag, content).len(),
    ensures
        occurs_at(p, closing(tag), i) <==> i == at + wrapped(tag, content).len()
            - closing(tag).len(),
{
    let w = wrapped(tag, content);
    let c = closing(tag);
    let end = w.len() - c.len();
    assert forall|k: int| 0 <= k < w.len() implies p[at + k] == w[k] by {
        assert(p.subrange(at, at + w.len())[k] == p[at + k]);
    }
    law_wrapped_closes_once(tag, content, i - at);
    if i - at <= end {
        assert(p.subrange(i, i + c.len()) =~= w.subrange(i - at, i - at + c.len()));
    } else {
        law_wrapped_closes_once(tag, content, end);
        reveal_strlit("</");
        reveal_strlit(">");
        let k = i - at - end;
        assert(w.subrange(end, end + c.len())[k] == w[i - at]);
        assert(p[at + (i - at)] == w[i - at]);
        assert(c[k] != '<') by {
            if 2 <= k < 2 + tag.len() {
                assert(c[k] == tag[k - 2]);
            }
        }
        if occurs_at(p, c, i) {
            assert(p.subrange(i, i + c.len())[0] == p[i]);
        }
    }
}

/// A text without zero-width spaces.
pub open spec fn visible(s: Seq<char>) -> Seq<char> {
    s.filter(|c: char| c != '\u{200B}')
}

proof fn lemma_visible_concat(a: Seq<char>, b: Seq<char>)
    ensures
        visible(a + b) == visible(a) + visible(b),
{
    Seq::filter_distributes_over_add(a, b, |c: char| c != '\u{200B}');
}

proof fn lemma_visible_one(c: char)
    ensures
        visible(seq![c]) == if c != '\u{200B}' {
            seq![c]
        } else {
            Seq::empty()
        },
{
    reveal_with_fuel(Seq::filter, 2);
    assert(seq![c].drop_last() =~= Seq::empty());
}

proof fn lemma_visible_closings(tag: Seq<char>)
    ensures
        visible(inert_closing(tag)) == visible(closing(tag)),
{
    reveal_strlit("</");
    reveal_strlit("<\u{200B}/");
    let tail = seq!['/'] + (tag + ">"@);
    assert(closing(tag) =~= seq!['<'] + tail);
    assert(inert_closing(tag) =~= seq!['<'] + (seq!['\u{200B}'] + tail));
    lemma_visible_concat(seq!['<'], tail);
    lemma_visible_concat(seq!['<'], seq!['\u{200B}'] + tail);
    lemma_visible_concat(seq!['\u{200B}'], tail);
    lemma_visible_one('\u{200B}');
    assert(Seq::<char>::empty() + visible(tail) =~= visible(tail));
}

/// Making the closing delimiters inert loses none of the visible text of the content.
pub proof fn law_wrapping_keeps_visible_text(tag: Seq<char>, content: Seq<char>)
    ensures
        visible(replace(content, closing(tag), inert_closing(tag))) == visible(content),
    decreases content.len(),
{
    let p = closing(tag);
    let r = inert_closing(tag);
    reveal_strlit("</");
    if content.len() == 0 {
    } else if starts_with(content, p) {
        let rest = content.skip(p.len() as int);
        law_wrapping_keeps_visible_text(tag, rest);
        lemma_visible_concat(r, replace(rest, p, r));
        assert(content =~= content.subrange(0, p.len() as int) + rest);
        lemma_visible_concat(p, rest);
        lemma_visible_closings(tag);
    } else {
        let rest = content.drop_first();
        law_wrapping_keeps_visible_text(tag, rest);
        lemma_visible_concat(seq![content[0]], replace(rest, p, r));
        assert(content =~= seq![content[0]] + rest);
        lemma_visible_concat(seq![content[0]], rest);
    }
}

/// The arguments with which the program is called: text or JSON generation without tools, without
/// a session file and, unless the context is wanted, without the context of the directory.
pub open spec fn argument_texts(
    llm: Llm,
    system: Option<Seq<char>>,
    schema: Option<Seq<char>>,
) -> Seq<Seq<char>> {
    seq!["-p"@, "--output-format"@, "json"@] + (if llm.load_context {
        Seq::empty()
    } else {
        seq!["--safe-mode"@]
    }) + seq!["--no-session-persistence"@, "--tools"@, ""@] + option_texts("--model"@, view_of(llm.model))
        + option_texts("--max-budget-usd"@, view_of(llm.max_budget_usd)) + option_texts(
        "--append-system-prompt"@,
        system,
    ) + option_texts("--json-schema"@, schema)
}

/// An option and its value, where there is one.
pub open spec fn option_texts(name: Seq<char>, value: Option<Seq<char>>) -> Seq<Seq<char>> {
    match value {
        Some(v) => seq![name, v],
        None => Seq::empty(),
    }
}

/// The characters of a string that may be absent.
pub open spec fn view_of(s: Option<String>) -> Option<Seq<char>> {
    match s {
        Some(x) => Some(x@),
        None => None,
    }
}

/// The characters of a string slice that may be absent.
pub open spec fn str_view_of(s: Option<&str>) -> Option<Seq<char>> {
    match s {
        Some(x) => Some(x@),
        None => None,
    }
}

fn push_arg(v: &mut Vec<String>, s: &str)
    ensures
        views(final(v)@) == views(old(v)@).push(s@),
{
    let ghost before = v@;
    v.push(String::from_str(s));
    assert(views(v@) =~= views(before).push(s@));
}

fn push_option(v: &mut Vec<String>, name: &str, value: Option<&str>)
    ensures
        views(final(v)@) == views(old(v)@) + option_texts(name@, str_view_of(value)),
{
    let ghost before = views(v@);
    if let Some(x) = value {
        push_arg(v, name);
        push_arg(v, x);
        assert(views(v@) =~= before + seq![name@, x@]);
    } else {
        assert(views(v@) =~= before + Seq::empty());
    }
}

fn str_of(s: &Option<String>) -> (r: Option<&str>)
    ensures
        str_view_of(r) == view_of(*s),
{
    match s {
        Some(x) => Some(x.as_str()),
        None => None,
    }
}

impl Llm {
    /// A model behind the given program, with the usual limits.
    pub fn new(bin: String, model: Option<String>) -> (r: Llm)
        ensures
            r.bin == bin,
            r.model == model,
            r.retries == 2,
            !r.verbose,
            r.timeout_secs == 600,
            r.max_budget_usd is None,
            !r.load_context,
    {
        Llm {
            bin,
            model,
            retries: 2,
            verbose: false,
            timeout_secs: 600,
            max_budget_usd: None,
            load_context: false,
        }
    }

    /// The name under which the model is reported.
    pub fn label(&self) -> (s: String)
        ensures
            s@ == match self.model {
                Some(m) => m@,
                None => "default"@,
            },
    {
        match &self.model {
            Some(m) => m.clone(),
            None => String::from_str("default"),
        }
    }

    /// The arguments with which the program is called.
    pub fn call_args(&self, system: Option<&str>, schema: Option<&str>) -> (v: Vec<String>)
        ensures
            views(v@) == argument_texts(*self, str_view_of(system), str_view_of(schema)),
    {
        let mut v: Vec<String> = Vec::new();
        push_arg(&mut v, "-p");
        push_arg(&mut v, "--output-format");
        push_arg(&mut v, "json");
        assert(views(v@) =~= seq!["-p"@, "--output-format"@, "json"@]);
        let ghost start = views(v@);
        if !self.load_context {
            push_arg(&mut v, "--safe-mode");
        }
        assert(views(v@) =~= start + (if self.load_context {
            Seq::empty()
        } else {
            seq!["--safe-mode"@]
        }));
        let ghost mid = views(v@);
        push_arg(&mut v, "--no-session-persistence");
        push_arg(&mut v, "--tools");
        push_arg(&mut v, "");
        assert(views(v@) =~= mid + seq!["--no-session-persistence"@, "--tools"@, ""@]);
        push_option(&mut v, "--model", str_of(&self.model));
        push_option(&mut v, "--max-budget-usd", str_of(&self.max_budget_usd));
        push_option(&mut v, "--append-system-prompt", system);
        push_option(&mut v, "--json-schema", schema);
        v
    }
}

/// What a look at the running program leads to.
#[derive(Debug, Clone, Copy, PartialEq, Eq, Structural)]
pub enum Poll {
    /// It has ended by itself.
    Ended,
    /// It is stopped for having run too long.
    Stop,
    /// It goes on, and is looked at again after a pause.
    Wait,
}

/// Decides on a running program: it is stopped once it has run longer than the timeout, unless it
/// has ended.
pub fn poll(ended: bool, elapsed_nanos: u128, timeout_secs: u64) -> (r: Poll)
    ensures
        r == if ended {
            Poll::Ended
        } else if elapsed_nanos > timeout_secs * 1_000_000_000 {
            Poll::Stop
        } else {
            Poll::Wait
        },
{
    if ended {
        Poll::Ended
    } else if elapsed_nanos > (timeout_secs as u128) * 1_000_000_000 {
        Poll::Stop
    } else {
        Poll::Wait
    }
}

/// What became of an attempt to call the model.
pub enum Attempt<T, E> {
    /// It succeeded.
    Done(T),
    /// It failed, and the attempt with this number is made next.
    Again(u32),
    /// It failed, and no further attempt is made.
    Failed(E),
}

/// Decides on an attempt. Attempts count from zero, and as many are made after the first as there
/// are retries.
pub fn after_attempt<T, E>(retries: u32, attempt: u32, outcome: Result<T, E>) -> (r: Attempt<T, E>)
    ensures
        match outcome {
            Ok(v) => r == Attempt::<T, E>::Done(v),
            Err(e) => if attempt < retries {
                r == Attempt::<T, E>::Again((attempt + 1) as u32)
            } else {
                r == Attempt::<T, E>::Failed(e)
            },
        },
{
    match outcome {
        Ok(v) => Attempt::Done(v),
        Err(e) => if attempt < retries {
            Attempt::Again(attempt + 1)
        } else {
            Attempt::Failed(e)
        },
    }
}

/// The note on a failed attempt.
pub fn retry_note(what: &str, attempt: u32, retries: u32, message: &str) -> (s: String)
    ensures
        s@ == "["@ + what@ + " retry "@ + decimal(attempt as nat + 1) + "/"@ + decimal(
            retries as nat,
        ) + "] "@ + truncated(message@, 200),
{
    let mut s = String::from_str("[");
    s.append(what);
    s.append(" retry ");
    s.append(decimal_string(attempt as u64 + 1).as_str());
    s.append("/");
    s.append(decimal_string(retries as u64).as_str());
    s.append("] ");
    s.append(truncate(message, 200).as_str());
    s
}

/// The error of a program that ended with a failure.
pub fn exit_error(code: Option<i32>, stderr: &str) -> (e: LlmError)
    ensures
        e matches LlmError::Exit { code: c, stderr: t } && c == code && t@ == truncated(
            trim(stderr@),
            300,
        ),
{
    let v = chars_of(stderr);
    let mut t: Vec<char> = Vec::new();
    append_slice(&mut t, trim_slice(v.as_slice()));
    assert(t@ =~= trim(stderr@));
    LlmError::Exit { code, stderr: truncate(string_of(&t).as_str(), 300) }
}

/// The cost that a response states, in millionths of a dollar.
pub open spec fn cost_of(j: Json) -> nat {
    match member_of(j, "total_cost_usd"@) {
        Some(c) => match number_in(c) {
            Some(x) => micros(x),
            None => 0,
        },
        None => 0,
    }
}

/// A cost in dollars as an integer number of millionths; zero where it is not above zero.
pub open spec fn micros(cost: Binary64) -> nat {
    if 0 < cost.bits <= INFINITE {
        integer_part(product(cost, fraction(1_000_000, 1)), u64::MAX)
    } else {
        0
    }
}

/// A cost in millionths of a dollar as dollars.
pub fn total_cost_usd(micros: u64) -> (r: Binary64)
    ensures
        r == quotient(fraction(micros as nat, 1), fraction(1_000_000, 1)),
{
    Binary64::ratio(micros, 1).over(Binary64::ratio(1_000_000, 1))
}

/// The text under a key, or another where there is none.
pub open spec fn text_under(j: Json, key: Seq<char>, otherwise: Seq<char>) -> Seq<char> {
    match member_of(j, key) {
        Some(x) => match text_in(x) {
            Some(t) => t,
            None => otherwise,
        },
        None => otherwise,
    }
}

/// Whether a response says that it is an error.
pub open spec fn says_error(j: Json) -> bool {
    match member_of(j, "is_error"@) {
        Some(x) => flag_in(x) == Some(true),
        None => false,
    }
}

/// The structured output of a response, where it is there and not null.
pub open spec fn structured_in(j: Json) -> Option<Json> {
    match member_of(j, "structured_output"@) {
        Some(Json::Null) => None,
        other => other,
    }
}

/// The contents of a value that may be absent.
pub open spec fn json_view_of(v: Option<serde_json::Value>) -> Option<Json> {
    match v {
        Some(x) => Some(json_of(x)),
        None => None,
    }
}

/// Whether `r` is what a response with the given contents is read as.
pub open spec fn reads_as(j: Json, r: Result<Reply, LlmError>) -> bool {
    let text = text_under(j, "result"@, Seq::empty());
    if says_error(j) {
        r matches Err(LlmError::ErrorResponse { subtype, result }) && subtype@ == text_under(
            j,
            "subtype"@,
            "?"@,
        ) && result@ == truncated(text, 300)
    } else if trim(text).len() == 0 && structured_in(j) is None {
        r matches Err(LlmError::Empty)
    } else {
        r matches Ok(reply) && reply.text@ == text && json_view_of(reply.structured)
            == structured_in(j)
    }
}

fn text_member(v: &serde_json::Value, key: &str, otherwise: &str) -> (s: String)
    ensures
        s@ == text_under(json_of(*v), key@, otherwise@),
{
    match member(v, key) {
        Some(x) => match x.as_str() {
            Some(t) => String::from_str(t),
            None => String::from_str(otherwise),
        },
        None => String::from_str(otherwise),
    }
}

fn cost_micros(v: &serde_json::Value) -> (n: u64)
    ensures
        n == cost_of(json_of(*v)),
{
    match member(v, "total_cost_usd") {
        Some(c) => match number_bits(c) {
            Some(bits) => {
                if 0 < bits && bits <= INFINITE {
                    Binary64 { bits }.times(Binary64::ratio(1_000_000, 1)).truncated(u64::MAX)
                } else {
                    0
                }
            },
            None => 0,
        },
        None => 0,
    }
}

/// Reads a response: its cost in millionths of a dollar, which counts even where the response says
/// that it is an error, and the answer.
pub fn read_response(v: &serde_json::Value) -> (r: (u64, Result<Reply, LlmError>))
    ensures
        r.0 == cost_of(json_of(*v)),
        reads_as(json_of(*v), r.1),
{
    let cost = cost_micros(v);
    let failed = match member(v, "is_error") {
        Some(x) => match x.as_bool() {
            Some(b) => b,
            None => false,
        },
        None => false,
    };
    proof {
        reveal_strlit("");
        assert(""@ =~= Seq::<char>::empty());
    }
    let text = text_member(v, "result", "");
    if failed {
        let subtype = text_member(v, "subtype", "?");
        return (
            cost,
            Err(LlmError::ErrorResponse { subtype, result: truncate(text.as_str(), 300) }),
        );
    }
    let structured = match member(v, "structured_output") {
        Some(x) => if x.is_null() {
            None
        } else {
            Some(x.clone())
        },
        None => None,
    };
    let chars = chars_of(text.as_str());
    if trim_slice(chars.as_slice()).len() == 0 && structured.is_none() {
        return (cost, Err(LlmError::Empty));
    }
    (cost, Ok(Reply { text, structured }))
}

/// Reads the output of the program: the cost in millionths of a dollar, and the answer.
pub fn read_output(stdout: &str) -> (r: (u64, Result<Reply, LlmError>))
    ensures
        match parsed_json(trim(stdout@)) {
            Some(j) => r.0 == cost_of(j) && reads_as(j, r.1),
            None => r.0 == 0 && (r.1 matches Err(LlmError::NotJson { output, cause }) && output@
                == truncated(stdout@, 300) && cause@ == refusal_text(trim(stdout@))),
        },
{
    let v = chars_of(stdout);
    let mut t: Vec<char> = Vec::new();
    append_slice(&mut t, trim_slice(v.as_slice()));
    assert(t@ =~= trim(stdout@));
    match parse_json(string_of(&t).as_str()) {
        Ok(value) => read_response(&value),
        Err(cause) => (0, Err(LlmError::NotJson { output: truncate(stdout, 300), cause })),
    }
}

/// The text between the first two fence markers, without a leading `json`.
pub open spec fn fenced_part(t: Seq<char>) -> Option<Seq<char>> {
    match find(t, "```"@) {
        Some(i) => {
            let after = t.skip(i + 3);
            let inner = if starts_with(after, "json"@) {
                after.skip(4)
            } else {
                after
            };
            match find(inner, "```"@) {
                Some(k) => Some(trim(inner.take(k))),
                None => None,
            }
        },
        None => None,
    }
}

/// The text from the first opening to the last closing brace.
pub open spec fn braced_part(t: Seq<char>) -> Option<Seq<char>> {
    match (find(t, "{"@), find_last(t, '}')) {
        (Some(i), Some(k)) => if i < k {
            Some(t.subrange(i, k + 1))
        } else {
            None
        },
        _ => None,
    }
}

/// A list of what may be absent.
pub open spec fn as_list(part: Option<Seq<char>>) -> Seq<Seq<char>> {
    match part {
        Some(t) => seq![t],
        None => Seq::empty(),
    }
}

/// The parts of an answer that may be the JSON asked for, in the order in which they are tried.
pub open spec fn candidate_texts(raw: Seq<char>) -> Seq<Seq<char>> {
    let t = trim(raw);
    seq![t] + as_list(fenced_part(t)) + as_list(braced_part(t))
}

/// What the first text of a list that is JSON holds.
pub open spec fn first_parsed(texts: Seq<Seq<char>>) -> Option<Json>
    decreases texts.len(),
{
    if texts.len() == 0 {
        None
    } else if parsed_json(texts[0]) is Some {
        parsed_json(texts[0])
    } else {
        first_parsed(texts.drop_first())
    }
}

/// An answer that is JSON as a whole is taken as it stands, whatever it holds inside.
pub proof fn law_whole_answer_comes_first(raw: Seq<char>)
    requires
        parsed_json(trim(raw)) is Some,
    ensures
        first_parsed(candidate_texts(raw)) == parsed_json(trim(raw)),
{
    assert(candidate_texts(raw)[0] == trim(raw));
}

/// Whitespace around an answer makes no difference to the JSON that is found in it, nor to whether
/// any is found.
pub proof fn law_space_around_answer(w: Seq<char>, raw: Seq<char>, x: Seq<char>)
    requires
        is_blank(w),
        is_blank(x),
    ensures
        candidate_texts(w + raw + x) == candidate_texts(raw),
        first_parsed(candidate_texts(w + raw + x)) == first_parsed(candidate_texts(raw)),
{
    law_trim_ignores_space(w, raw, x);
}

/// Whether each answer that is a text, with any whitespace around it, gives the value.
pub open spec fn is_found(text: Seq<char>, j: Json) -> bool {
    forall|w: Seq<char>, x: Seq<char>|
        is_blank(w) && is_blank(x) ==> first_parsed(candidate_texts(#[trigger] (w + text + x)))
            == Some(j)
}

/// A value is found in an answer that is JSON for it, whatever whitespace stands around it.
pub proof fn law_json_in_space_is_found(text: Seq<char>, j: Json)
    requires
        parsed_json(trim(text)) == Some(j),
    ensures
        is_found(text, j),
{
    assert forall|w: Seq<char>, x: Seq<char>| is_blank(w) && is_blank(x) implies first_parsed(
        candidate_texts(#[trigger] (w + text + x)),
    ) == Some(j) by {
        law_space_around_answer(w, text, x);
        law_whole_answer_comes_first(text);
    }
}

/// The text of a schema, as it is handed to the model. A value without floating-point numbers that
/// is not nested too deep is found again in an answer that is its text, whatever whitespace stands
/// around it.
pub fn schema_text(schema: &serde_json::Value) -> (s: String)
    ensures
        s@ == json_text(json_of(*schema)),
        reads_exactly(json_of(*schema), DEEPEST as nat) ==> is_found(s@, json_of(*schema)),
{
    let s = value_text(schema);
    proof {
        if reads_exactly(json_of(*schema), DEEPEST as nat) {
            law_json_in_space_is_found(s@, json_of(*schema));
        }
    }
    s
}

/// A string with the characters of a slice.
fn slice_string(s: &[char]) -> (r: String)
    ensures
        r@ == s@,
{
    let mut v: Vec<char> = Vec::new();
    append_slice(&mut v, s);
    assert(v@ =~= s@);
    string_of(&v)
}

fn fenced(t: &[char]) -> (r: Option<String>)
    ensures
        view_of(r) == fenced_part(t@),
{
    let fence = chars_of("```");
    let label = chars_of("json");
    proof {
        reveal_strlit("```");
        reveal_strlit("json");
    }
    assert(fence@.len() == 3);
    assert(label@.len() == 4);
    match find_slice(t, fence.as_slice()) {
        Some(i) => {
            let n: usize = t.len();
            let after = slice_subrange(t, i + 3, n);
            assert(after@ =~= t@.skip(i + 3));
            let labelled = occurs_at_slice(after, label.as_slice(), 0);
            let inner = if labelled {
                slice_subrange(after, 4, after.len())
            } else {
                after
            };
            assert(inner@ =~= if starts_with(after@, "json"@) {
                after@.skip(4)
            } else {
                after@
            });
            match find_slice(inner, fence.as_slice()) {
                Some(k) => {
                    let part = slice_subrange(inner, 0, k);
                    assert(part@ =~= inner@.take(k as int));
                    Some(slice_string(trim_slice(part)))
                },
                None => None,
            }
        },
        None => None,
    }
}

fn braced(t: &[char]) -> (r: Option<String>)
    ensures
        view_of(r) == braced_part(t@),
{
    let brace = chars_of("{");
    match (find_slice(t, brace.as_slice()), find_last_slice(t, '}')) {
        (Some(i), Some(k)) => if i < k {
            Some(slice_string(slice_subrange(t, i, k + 1)))
        } else {
            None
        },
        _ => None,
    }
}

/// The parts of an answer that may be the JSON asked for: all of it, the text of the first code
/// block, and the text from the first opening to the last closing brace.
pub fn json_candidates(raw: &str) -> (v: Vec<String>)
    ensures
        views(v@) == candidate_texts(raw@),
{
    let all = chars_of(raw);
    let t = trim_slice(all.as_slice());
    let mut v: Vec<String> = Vec::new();
    v.push(slice_string(t));
    assert(views(v@) =~= seq![trim(raw@)]);
    let ghost first = views(v@);
    if let Some(s) = fenced(t) {
        v.push(s);
    }
    assert(views(v@) =~= first + as_list(fenced_part(t@)));
    let ghost second = views(v@);
    if let Some(s) = braced(t) {
        v.push(s);
    }
    assert(views(v@) =~= second + as_list(braced_part(t@)));
    v
}

/// Extracts the JSON from an answer that mixes it with a code block or with other text.
pub fn extract_json(raw: &str) -> (r: Result<serde_json::Value, LlmError>)
    ensures
        match r {
            Ok(v) => first_parsed(candidate_texts(raw@)) == Some(json_of(v)),
            Err(e) => first_parsed(candidate_texts(raw@)) is None && (
            e matches LlmError::NoJsonFound { answer } && answer@ == truncated(trim(raw@), 300)),
        },
{
    let texts = json_candidates(raw);
    let ghost all = candidate_texts(raw@);
    let mut i: usize = 0;
    assert(all.skip(0) =~= all);
    while i < texts.len()
        invariant
            i <= texts@.len(),
            all == views(texts@),
            all == candidate_texts(raw@),
            first_parsed(all) == first_parsed(all.skip(i as int)),
        decreases texts@.len() - i,
    {
        assert(all.skip(i as int)[0] == texts@[i as int]@);
        assert(all.skip(i as int).drop_first() =~= all.skip(i + 1));
        match parse_json(texts[i].as_str()) {
            Ok(v) => {
                assert(parsed_json(all.skip(i as int)[0]) == Some(json_of(v)));
                return Ok(v);
            },
            Err(_) => {},
        }
        i += 1;
    }
    let v = chars_of(raw);
    let t = slice_string(trim_slice(v.as_slice()));
    Err(LlmError::NoJsonFound { answer: truncate(t.as_str(), 300) })
}

/// The JSON of an answer: the structured output, or else what its text holds.
pub fn json_answer(reply: Reply) -> (r: Result<serde_json::Value, LlmError>)
    ensures
        match reply.structured {
            Some(v) => r == Ok::<serde_json::Value, LlmError>(v),
            None => match r {
                Ok(v) => first_parsed(candidate_texts(reply.text@)) == Some(json_of(v)),
                Err(e) => first_parsed(candidate_texts(reply.text@)) is None && (
                e matches LlmError::NoJsonFound { answer } && answer@ == truncated(
                    trim(reply.text@),
                    300,
                )),
            },
        },
{
    match reply.structured {
        Some(v) => Ok(v),
        None => extract_json(reply.text.as_str()),
    }
}

} // verus!
