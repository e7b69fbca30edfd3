//! What is told of the judges' instructions and comments: each of them, once and in order.

use crate::score::{
    all_instructions, bullets, feedback, one_line, with_instruction, with_instructions, JudgeResult,
    Scored,
};
use crate::text::{law_lines_join, law_one_line, lines, trim, views};
use crate::words::{law_lines, law_trimmed_inside};
use vstd::prelude::*;
use vstd::string::*;

verus! {

/// The line that lists a text: a dash, a space, and the text with spaces for its newlines.
pub open spec fn item(t: Seq<char>) -> Seq<char> {
    seq!['-', ' '] + Seq::new(
        t.len(),
        |i: int|
            if t[i] == '\n' {
                ' '
            } else {
                t[i]
            },
    )
}

/// Whether something is left of a text when it is trimmed.
pub open spec fn says_something(t: Seq<char>) -> bool {
    trim(t).len() > 0
}

/// The lines that list some texts: one for each that says something, in order.
pub open spec fn items(texts: Seq<Seq<char>>) -> Seq<Seq<char>> {
    texts.filter(|t: Seq<char>| says_something(t)).map_values(|t: Seq<char>| item(trim(t)))
}

proof fn lemma_item(t: Seq<char>)
    requires
        trim(t).len() > 0,
    ensures
        "- "@ + one_line(trim(t)) == item(trim(t)),
        !item(trim(t)).contains('\n'),
        item(trim(t)).last() != '\r',
{
    reveal_strlit("- ");
    let c = trim(t);
    let r = law_trimmed_inside(t);
    let x = item(c);
    assert("- "@ =~= seq!['-', ' ']);
    assert("- "@ + one_line(c) =~= x);
    if x.contains('\n') {
        let k = choose|k: int| 0 <= k < x.len() && x[k] == '\n';
        assert(k >= 2);
        assert(x[k] == if c[k - 2] == '\n' {
            ' '
        } else {
            c[k - 2]
        });
    }
    assert(x.last() == if c.last() == '\n' {
        ' '
    } else {
        c.last()
    });
}

proof fn lemma_bullet_lines(texts: Seq<Seq<char>>, n: nat)
    requires
        n <= texts.len(),
    ensures
        lines(bullets(texts, n)) == items(texts.take(n as int)),
        bullets(texts, n).len() == 0 || bullets(texts, n).last() == '\n',
    decreases n,
{
    reveal(Seq::filter);
    reveal_strlit("\n");
    let f = |t: Seq<char>| says_something(t);
    let g = |t: Seq<char>| item(trim(t));
    let e = Seq::<char>::empty();
    if n == 0 {
        law_lines(e, e);
        assert(items(texts.take(0)) =~= Seq::empty());
    } else {
        let m = (n - 1) as nat;
        lemma_bullet_lines(texts, m);
        let before = bullets(texts, m);
        let t = texts[n - 1];
        let now = texts.take(n as int);
        let was = texts.take(m as int);
        assert(now.drop_last() =~= was);
        assert(now.last() == t);
        if trim(t).len() > 0 {
            lemma_item(t);
            let x = item(trim(t));
            let all = bullets(texts, n);
            assert("\n"@ =~= seq!['\n']);
            assert(all =~= before + x.push('\n'));
            law_one_line(x);
            if before.len() == 0 {
                assert(all =~= x.push('\n'));
                assert(before =~= e);
                law_lines(e, e);
                assert(lines(all) =~= lines(before).push(x));
            } else {
                let p = before.drop_last();
                assert(before =~= p.push('\n'));
                law_lines_join(p, x.push('\n'));
                assert(lines(all) =~= lines(before).push(x));
            }
            assert(was.filter(f).push(t).map_values(g) =~= was.filter(f).map_values(g).push(x));
        }
    }
}

/// The lines of the feedback: the first heading, a line for each instruction that says something, in
/// order, and where there are comments, an empty line, the second heading, and a line for each
/// comment that says something, in order. There are no others.
pub proof fn law_feedback_lines(s: Scored)
    ensures
        lines(feedback(s)) == seq!["[Revision instructions that must be incorporated]"@] + items(
            views(s.improvements@),
        ) + if s.comments@.len() > 0 {
            seq![Seq::<char>::empty(), "[Overall Review Comments]"@] + items(views(s.comments@))
        } else {
            Seq::empty()
        },
{
    reveal_strlit("[Revision instructions that must be incorporated]\n");
    reveal_strlit("[Revision instructions that must be incorporated]");
    reveal_strlit("\n[Overall Review Comments]\n");
    reveal_strlit("[Overall Review Comments]");
    let e = Seq::<char>::empty();
    let h = "[Revision instructions that must be incorporated]"@;
    let g = "[Overall Review Comments]"@;
    let first = "[Revision instructions that must be incorporated]\n"@;
    let second = "\n[Overall Review Comments]\n"@;
    let a = bullets(views(s.improvements@), s.improvements@.len());
    let b = bullets(views(s.comments@), s.comments@.len());
    lemma_bullet_lines(views(s.improvements@), s.improvements@.len());
    lemma_bullet_lines(views(s.comments@), s.comments@.len());
    assert(views(s.improvements@).take(s.improvements@.len() as int) =~= views(s.improvements@));
    assert(views(s.comments@).take(s.comments@.len() as int) =~= views(s.comments@));
    assert(first =~= h.push('\n'));
    assert(second =~= e.push('\n') + g.push('\n'));
    law_one_line(h);
    law_one_line(e);
    law_one_line(g);
    let listed = first + a;
    law_lines_join(h, a);
    assert(lines(listed) == seq![h] + lines(a));
    if s.comments@.len() > 0 {
        let tail = second + b;
        law_lines_join(e, g.push('\n') + b);
        law_lines_join(g, b);
        assert(tail =~= e.push('\n') + (g.push('\n') + b));
        assert(lines(tail) =~= seq![e, g] + lines(b));
        assert(listed.last() == '\n') by {
            if a.len() > 0 {
                assert(listed.last() == a.last());
            }
        }
        let p = listed.drop_last();
        assert(listed =~= p.push('\n'));
        law_lines_join(p, tail);
        assert(feedback(s) =~= listed + tail);
        assert(lines(feedback(s)) =~= seq![h] + lines(a) + (seq![e, g] + lines(b)));
    } else {
        assert(feedback(s) =~= listed);
        assert(seq![h] + lines(a) + Seq::<Seq<char>>::empty() =~= seq![h] + lines(a));
    }
}

/// Each text that says something has its line in the list, and there are as many lines as such
/// texts.
pub proof fn law_each_is_listed(texts: Seq<Seq<char>>, k: int)
    requires
        0 <= k < texts.len(),
    ensures
        trim(texts[k]).len() > 0 ==> lines(bullets(texts, texts.len())).contains(
            item(trim(texts[k])),
        ),
        lines(bullets(texts, texts.len())).len() == texts.filter(
            |t: Seq<char>| says_something(t),
        ).len(),
{
    broadcast use vstd::seq_lib::group_filter_ensures;

    lemma_bullet_lines(texts, texts.len());
    assert(texts.take(texts.len() as int) =~= texts);
    let f = |t: Seq<char>| says_something(t);
    let kept = texts.filter(f);
    if trim(texts[k]).len() > 0 {
        texts.lemma_filter_contains(f, k);
        let i = choose|i: int| 0 <= i < kept.len() && kept[i] == texts[k];
        assert(items(texts)[i] == item(trim(texts[k])));
    }
}

/// The instructions of the first `n` replies, one after the other.
pub open spec fn instructions_of(replies: Seq<JudgeResult>, n: nat) -> Seq<Seq<char>>
    decreases n,
{
    if n == 0 {
        Seq::empty()
    } else {
        instructions_of(replies, (n - 1) as nat) + views(replies[n - 1].improvements@)
    }
}

proof fn lemma_with_more(list: Seq<Seq<char>>, a: Seq<Seq<char>>, b: Seq<Seq<char>>, m: nat)
    requires
        m <= b.len(),
    ensures
        with_instructions(with_instructions(list, a, a.len()), b, m) == with_instructions(
            list,
            a + b,
            a.len() + m,
        ),
    decreases m,
{
    if m == 0 {
        lemma_with_same(list, a, a + b, a.len());
    } else {
        lemma_with_more(list, a, b, (m - 1) as nat);
        assert((a + b)[a.len() + m - 1] == b[m - 1]);
    }
}

proof fn lemma_with_same(list: Seq<Seq<char>>, a: Seq<Seq<char>>, b: Seq<Seq<char>>, n: nat)
    requires
        n <= a.len(),
        n <= b.len(),
        forall|k: int| 0 <= k < n ==> a[k] == b[k],
    ensures
        with_instructions(list, a, n) == with_instructions(list, b, n),
    decreases n,
{
    if n > 0 {
        lemma_with_same(list, a, b, (n - 1) as nat);
    }
}

proof fn lemma_all_instructions(list: Seq<Seq<char>>, replies: Seq<JudgeResult>, n: nat)
    ensures
        all_instructions(list, replies, n) == with_instructions(
            list,
            instructions_of(replies, n),
            instructions_of(replies, n).len(),
        ),
    decreases n,
{
    if n > 0 {
        let m = (n - 1) as nat;
        lemma_all_instructions(list, replies, m);
        let b = views(replies[n - 1].improvements@);
        lemma_with_more(list, instructions_of(replies, m), b, b.len());
    }
}

proof fn lemma_instructions_kept(list: Seq<Seq<char>>, texts: Seq<Seq<char>>, n: nat)
    requires
        n <= texts.len(),
    ensures
        ({
            let all = with_instructions(list, texts, n);
            &&& list.len() <= all.len()
            &&& all.take(list.len() as int) == list
            &&& forall|q: int|
                0 <= q < n && trim(#[trigger] texts[q]).len() > 0 ==> all.contains(trim(texts[q]))
            &&& forall|i: int|
                list.len() <= i < all.len() ==> exists|p: int|
                    0 <= p < n && trim(#[trigger] texts[p]) == #[trigger] all[i]
            &&& forall|i: int, j: int|
                list.len() <= i < j < all.len() ==> #[trigger] told_before(
                    texts,
                    n,
                    all[i],
                    all[j],
                )
        }),
    decreases n,
{
    if n == 0 {
        assert(list.take(list.len() as int) =~= list);
    } else {
        let m = (n - 1) as nat;
        lemma_instructions_kept(list, texts, m);
        let before = with_instructions(list, texts, m);
        let all = with_instructions(list, texts, n);
        let x = trim(texts[n - 1]);
        assert(all == with_instruction(before, texts[n - 1]));
        let pushed = x.len() > 0 && !before.contains(x);
        assert(all.take(list.len() as int) =~= before.take(list.len() as int));
        assert forall|y: Seq<char>| before.contains(y) implies all.contains(y) by {
            let k = choose|k: int| 0 <= k < before.len() && before[k] == y;
            assert(all[k] == y);
        }
        assert forall|q: int| 0 <= q < n && trim(#[trigger] texts[q]).len() > 0 implies all.contains(
            trim(texts[q]),
        ) by {
            if q < m {
                assert(before.contains(trim(texts[q])));
            } else if pushed {
                assert(all[before.len() as int] == x);
            }
        }
        assert forall|i: int| list.len() <= i < all.len() implies exists|p: int|
            0 <= p < n && trim(#[trigger] texts[p]) == #[trigger] all[i] by {
            if i < before.len() {
                assert(all[i] == before[i]);
                let p = choose|p: int| 0 <= p < m && trim(#[trigger] texts[p]) == before[i];
                assert(trim(texts[p]) == all[i]);
            } else {
                assert(trim(texts[n - 1]) == all[i]);
            }
        }
        assert forall|i: int, j: int| list.len() <= i < j < all.len() implies #[trigger] told_before(
            texts,
            n,
            all[i],
            all[j],
        ) by {
            assert(all[i] == before[i]);
            if j < before.len() {
                assert(all[j] == before[j]);
                assert(told_before(texts, m, before[i], before[j]));
                let p = choose|p: int|
                    0 <= p < m && trim(#[trigger] texts[p]) == before[i] && forall|q: int|
                        0 <= q < m && trim(#[trigger] texts[q]) == before[j] ==> p < q;
                assert(trim(texts[p]) == all[i]);
                assert forall|q: int| 0 <= q < n && trim(#[trigger] texts[q]) == all[j] implies p
                    < q by {}
            } else {
                let p = choose|p: int| 0 <= p < m && trim(#[trigger] texts[p]) == before[i];
                assert(trim(texts[p]) == all[i]);
                assert forall|q: int| 0 <= q < n && trim(#[trigger] texts[q]) == all[j] implies p
                    < q by {
                    if q < m {
                        assert(before.contains(trim(texts[q])));
                    }
                }
            }
        }
    }
}

/// Whether an instruction is given, for the first time, before another among the first `n` texts.
pub open spec fn told_before(texts: Seq<Seq<char>>, n: nat, a: Seq<char>, b: Seq<char>) -> bool {
    exists|p: int|
        0 <= p < n && trim(#[trigger] texts[p]) == a && forall|q: int|
            0 <= q < n && trim(#[trigger] texts[q]) == b ==> p < q
}

/// The list of instructions holds each instruction of each reply that says something, trimmed; it
/// holds nothing else behind the format issues; and it keeps the order in which the instructions
/// are first given.
pub proof fn law_all_instructions(list: Seq<Seq<char>>, replies: Seq<JudgeResult>)
    ensures
        ({
            let all = all_instructions(list, replies, replies.len());
            let texts = instructions_of(replies, replies.len());
            &&& list.len() <= all.len()
            &&& all.take(list.len() as int) == list
            &&& forall|q: int|
                0 <= q < texts.len() && trim(#[trigger] texts[q]).len() > 0 ==> all.contains(
                    trim(texts[q]),
                )
            &&& forall|i: int|
                list.len() <= i < all.len() ==> exists|p: int|
                    0 <= p < texts.len() && trim(#[trigger] texts[p]) == #[trigger] all[i]
            &&& forall|i: int, j: int|
                list.len() <= i < j < all.len() ==> #[trigger] told_before(
                    texts,
                    texts.len(),
                    all[i],
                    all[j],
                )
        }),
{
    let texts = instructions_of(replies, replies.len());
    lemma_all_instructions(list, replies, replies.len());
    lemma_instructions_kept(list, texts, texts.len());
}

} // verus!
