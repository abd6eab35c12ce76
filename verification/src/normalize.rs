//! Rewriting of code fences before rendering.
//!
//! Fences written with a two-space indent (as inside list items) are moved to
//! the left margin; a plain fence gets an empty line after its opening line
//! and before its closing line, and its body is indented by two spaces.
use vstd::prelude::*;
use crate::text::{
    chars_of, copy_chars, drop_leading, is_ws, join_chars, join_lines,
    lemma_drop_leading_skip, lemma_join_lines_of_plain_text, lines, lines_of, push_all, push_line,
    starts_with, starts_with_chars, string_of, strip_prefix, strip_prefix_chars, trim_start,
    trim_start_chars, CharClass, lacks, lemma_drop_leading_idempotent, lemma_drop_leading_lacks,
    lemma_lines_lack_newline, lemma_split_join, split_on,
};

verus! {

/// Three backticks.
pub open spec fn fence_marker() -> Seq<char> {
    seq!['`', '`', '`']
}

/// Two spaces followed by three backticks.
pub open spec fn shifted_fence_marker() -> Seq<char> {
    seq![' ', ' ', '`', '`', '`']
}

/// Two spaces.
pub open spec fn indent() -> Seq<char> {
    seq![' ', ' ']
}

/// Whether a line opens or closes a fence (after its leading whitespace).
pub open spec fn is_fence_line(line: Seq<char>) -> bool {
    starts_with(trim_start(line), fence_marker())
}

/// The lines written for one input line, given whether a shifted fence and
/// whether a plain fence is open; with the two flags after that line.
pub open spec fn normalize_step(line: Seq<char>, shifted: bool, fenced: bool) -> (
    Seq<Seq<char>>,
    bool,
    bool,
) {
    let trimmed = trim_start(line);
    if starts_with(line, shifted_fence_marker()) {
        (seq![trimmed], !shifted, fenced)
    } else if shifted {
        let body = match strip_prefix(line, indent()) {
            Some(rest) => rest,
            None => line,
        };
        (seq![body], !starts_with(trimmed, fence_marker()), fenced)
    } else if starts_with(trimmed, fence_marker()) {
        if !fenced {
            (seq![line, Seq::empty()], shifted, true)
        } else {
            (seq![Seq::empty(), line], shifted, false)
        }
    } else if fenced {
        (seq![indent() + line], shifted, fenced)
    } else {
        (seq![line], shifted, fenced)
    }
}

/// The lines written for `ls`, read top to bottom from a state with no fence
/// open, with the two flags at the end.
pub open spec fn normalize_run(ls: Seq<Seq<char>>) -> (Seq<Seq<char>>, bool, bool)
    decreases ls.len(),
{
    if ls.len() == 0 {
        (Seq::empty(), false, false)
    } else {
        let prev = normalize_run(ls.drop_last());
        let step = normalize_step(ls.last(), prev.1, prev.2);
        (prev.0 + step.0, step.1, step.2)
    }
}

/// What `normalize_markdown_for_viewer` returns for `markdown`.
pub open spec fn normalize_markdown(markdown: Seq<char>) -> Seq<char> {
    join_lines(normalize_run(lines(markdown)).0)
}

/// Rewrites the code fences of `markdown` for display (see the module
/// documentation); every other line is kept, and lines are joined with `\n`.
pub fn normalize_markdown_for_viewer(markdown: &str) -> (r: String)
    ensures
        r@ == normalize_markdown(markdown@),
{
    let text = chars_of(markdown);
    let ls = lines_of(&text);
    let shifted_marker: Vec<char> = vec![' ', ' ', '`', '`', '`'];
    let marker: Vec<char> = vec!['`', '`', '`'];
    let two: Vec<char> = vec![' ', ' '];
    let mut out: Vec<Vec<char>> = Vec::new();
    let mut in_shifted_fence = false;
    let mut in_fence = false;
    let mut i: usize = 0;
    while i < ls.len()
        invariant
            i <= ls@.len(),
            shifted_marker@ == shifted_fence_marker(),
            marker@ == fence_marker(),
            two@ == indent(),
            normalize_run(ls.deep_view().take(i as int)) == (
                out.deep_view(),
                in_shifted_fence,
                in_fence,
            ),
        decreases ls@.len() - i,
    {
        let line = &ls[i];
        let ghost prev_out = out.deep_view();
        let ghost step = normalize_step(line@, in_shifted_fence, in_fence);
        proof {
            let t = ls.deep_view().take(i + 1);
            assert(t.drop_last() =~= ls.deep_view().take(i as int));
            assert(t.last() =~= line@);
        }
        let trimmed = trim_start_chars(line);
        if starts_with_chars(line, &shifted_marker) {
            let ghost tv = trimmed@;
            push_line(&mut out, trimmed);
            in_shifted_fence = !in_shifted_fence;
            assert(out.deep_view() =~= prev_out + seq![tv]);
        } else if in_shifted_fence {
            match strip_prefix_chars(line, &two) {
                Some(rest) => {
                    let ghost rv = rest@;
                    push_line(&mut out, rest);
                    assert(out.deep_view() =~= prev_out + seq![rv]);
                },
                None => {
                    push_line(&mut out, copy_chars(line));
                    assert(out.deep_view() =~= prev_out + seq![line@]);
                },
            }
            if starts_with_chars(&trimmed, &marker) {
                in_shifted_fence = false;
            }
        } else if starts_with_chars(&trimmed, &marker) {
            if !in_fence {
                push_line(&mut out, copy_chars(line));
                push_line(&mut out, Vec::new());
                in_fence = true;
                assert(out.deep_view() =~= prev_out + seq![line@, Seq::<char>::empty()]);
            } else {
                push_line(&mut out, Vec::new());
                push_line(&mut out, copy_chars(line));
                in_fence = false;
                assert(out.deep_view() =~= prev_out + seq![Seq::<char>::empty(), line@]);
            }
        } else if in_fence {
            let mut shifted = copy_chars(&two);
            push_all(&mut shifted, line);
            push_line(&mut out, shifted);
            assert(out.deep_view() =~= prev_out + seq![indent() + line@]);
        } else {
            push_line(&mut out, copy_chars(line));
            assert(out.deep_view() =~= prev_out + seq![line@]);
        }
        assert(out.deep_view() =~= prev_out + step.0);
        i = i + 1;
    }
    assert(ls.deep_view().take(ls@.len() as int) =~= ls.deep_view());
    let joined = join_chars(&out);
    string_of(&joined)
}

/// A line that starts with the shifted fence marker opens or closes a fence.
proof fn lemma_shifted_marker_is_fence(line: Seq<char>)
    requires
        starts_with(line, shifted_fence_marker()),
    ensures
        is_fence_line(line),
{
    let m = shifted_fence_marker();
    assert(line[0] == m[0] && line[1] == m[1] && line[2] == m[2]);
    assert(line[3] == m[3] && line[4] == m[4]);
    assert(is_ws(line[0]) && is_ws(line[1]));
    lemma_drop_leading_skip(line, CharClass::Whitespace, 2);
    let rest = line.skip(2);
    assert(rest[0] == '`');
    assert(drop_leading(rest, CharClass::Whitespace) == rest);
    assert(rest.take(3) =~= fence_marker());
}

proof fn lemma_run_without_fences(ls: Seq<Seq<char>>)
    requires
        forall|i: int| 0 <= i < ls.len() ==> !is_fence_line(#[trigger] ls[i]),
    ensures
        normalize_run(ls) == (ls, false, false),
    decreases ls.len(),
{
    if ls.len() > 0 {
        let prev = ls.drop_last();
        assert forall|i: int| 0 <= i < prev.len() implies !is_fence_line(#[trigger] prev[i]) by {
            assert(prev[i] == ls[i]);
        }
        lemma_run_without_fences(prev);
        let last = ls.last();
        assert(!is_fence_line(ls[ls.len() - 1]));
        if starts_with(last, shifted_fence_marker()) {
            lemma_shifted_marker_is_fence(last);
        }
        assert(prev + seq![last] =~= ls);
    }
}

/// Law: text in which no line opens or closes a code fence is only re-joined
/// line by line: normalizing it gives its lines joined with `\n`.
pub proof fn law_normalize_keeps_fence_free_text(markdown: Seq<char>)
    requires
        forall|i: int|
            0 <= i < lines(markdown).len() ==> !is_fence_line(#[trigger] lines(markdown)[i]),
    ensures
        normalize_markdown(markdown) == join_lines(lines(markdown)),
{
    lemma_run_without_fences(lines(markdown));
}

/// Law: text with no code fence, no `'\r'` and no final line ending is shown
/// exactly as written.
pub proof fn law_normalize_leaves_plain_text_unchanged(markdown: Seq<char>)
    requires
        forall|i: int|
            0 <= i < lines(markdown).len() ==> !is_fence_line(#[trigger] lines(markdown)[i]),
        forall|i: int| 0 <= i < markdown.len() ==> markdown[i] != '\r',
        markdown.len() == 0 || markdown.last() != '\n',
    ensures
        normalize_markdown(markdown) == markdown,
{
    law_normalize_keeps_fence_free_text(markdown);
    lemma_join_lines_of_plain_text(markdown);
}

// ---------------------------------------------------------------------------
// Only indentation and blank lines change.
// ---------------------------------------------------------------------------
/// The non-blank lines of `ls`, each without its leading whitespace.
pub open spec fn visible_text(ls: Seq<Seq<char>>) -> Seq<Seq<char>>
    decreases ls.len(),
{
    if ls.len() == 0 {
        Seq::empty()
    } else {
        visible_text(ls.drop_last()) + if trim_start(ls.last()).len() == 0 {
            Seq::<Seq<char>>::empty()
        } else {
            seq![trim_start(ls.last())]
        }
    }
}

proof fn lemma_visible_concat(a: Seq<Seq<char>>, b: Seq<Seq<char>>)
    ensures
        visible_text(a + b) == visible_text(a) + visible_text(b),
    decreases b.len(),
{
    if b.len() == 0 {
        assert(a + b =~= a);
        assert(visible_text(a) + visible_text(b) =~= visible_text(a));
    } else {
        lemma_visible_concat(a, b.drop_last());
        assert((a + b).drop_last() =~= a + b.drop_last());
        assert((a + b).last() == b.last());
        assert(visible_text(a + b) =~= visible_text(a) + visible_text(b));
    }
}

proof fn lemma_visible_one(x: Seq<char>)
    ensures
        visible_text(seq![x]) == if trim_start(x).len() == 0 {
            Seq::<Seq<char>>::empty()
        } else {
            seq![trim_start(x)]
        },
{
    assert(seq![x].drop_last() =~= Seq::<Seq<char>>::empty());
    assert(seq![x].last() == x);
    assert(visible_text(Seq::<Seq<char>>::empty()) == Seq::<Seq<char>>::empty());
    assert(visible_text(seq![x]) =~= (if trim_start(x).len() == 0 {
        Seq::<Seq<char>>::empty()
    } else {
        seq![trim_start(x)]
    }));
}

proof fn lemma_visible_two(x: Seq<char>, y: Seq<char>)
    ensures
        visible_text(seq![x, y]) == visible_text(seq![x]) + visible_text(seq![y]),
{
    lemma_visible_concat(seq![x], seq![y]);
    assert(seq![x] + seq![y] =~= seq![x, y]);
}

/// Text after two leading spaces starts where the text does, once its
/// leading whitespace is dropped.
proof fn lemma_trim_start_after_indent(l: Seq<char>)
    requires
        starts_with(l, indent()),
    ensures
        trim_start(l.skip(2)) == trim_start(l),
{
    assert(l[0] == indent()[0] && l[1] == indent()[1]);
    assert(is_ws(l[0]) && is_ws(l[1]));
    lemma_drop_leading_skip(l, CharClass::Whitespace, 2);
}

/// One input line gives output lines with the same visible text; outputs
/// hold no `'\n'` when the line holds none.
proof fn lemma_step_visible(l: Seq<char>, shifted: bool, fenced: bool)
    ensures
        visible_text(normalize_step(l, shifted, fenced).0) == visible_text(seq![l]),
        lacks(l, '\n') ==> forall|i: int|
            0 <= i < normalize_step(l, shifted, fenced).0.len() ==> lacks(
                #[trigger] normalize_step(l, shifted, fenced).0[i],
                '\n',
            ),
{
    let out = normalize_step(l, shifted, fenced).0;
    let e = Seq::<char>::empty();
    lemma_visible_one(l);
    lemma_visible_one(e);
    assert(trim_start(e) =~= e);
    if lacks(l, '\n') {
        lemma_drop_leading_lacks(l, CharClass::Whitespace, '\n');
    }
    if starts_with(l, shifted_fence_marker()) {
        lemma_visible_one(trim_start(l));
        lemma_drop_leading_idempotent(l, CharClass::Whitespace);
    } else if shifted {
        if starts_with(l, indent()) {
            let rest = l.skip(2);
            lemma_visible_one(rest);
            lemma_trim_start_after_indent(l);
            assert forall|i: int| 0 <= i < rest.len() implies rest[i] == l[i + 2] by {}
        }
    } else if starts_with(trim_start(l), fence_marker()) {
        if !fenced {
            lemma_visible_two(l, e);
        } else {
            lemma_visible_two(e, l);
        }
    } else if fenced {
        let x = indent() + l;
        lemma_visible_one(x);
        assert(x.take(2) =~= indent());
        lemma_trim_start_after_indent(x);
        assert(x.skip(2) =~= l);
        assert forall|i: int| 0 <= i < x.len() implies x[i] != '\n' || !lacks(l, '\n') by {
            if i >= 2 {
                assert(x[i] == l[i - 2]);
            }
        }
    }
}

proof fn lemma_run_visible(ls: Seq<Seq<char>>)
    ensures
        visible_text(normalize_run(ls).0) == visible_text(ls),
        (forall|i: int| 0 <= i < ls.len() ==> lacks(#[trigger] ls[i], '\n')) ==> forall|i: int|
            0 <= i < normalize_run(ls).0.len() ==> lacks(#[trigger] normalize_run(ls).0[i], '\n'),
    decreases ls.len(),
{
    if ls.len() > 0 {
        let init = ls.drop_last();
        let prev = normalize_run(init);
        let step = normalize_step(ls.last(), prev.1, prev.2);
        lemma_run_visible(init);
        lemma_step_visible(ls.last(), prev.1, prev.2);
        lemma_visible_concat(prev.0, step.0);
        lemma_visible_concat(init, seq![ls.last()]);
        assert(init + seq![ls.last()] =~= ls);
        if forall|i: int| 0 <= i < ls.len() ==> lacks(#[trigger] ls[i], '\n') {
            assert forall|i: int| 0 <= i < init.len() implies lacks(#[trigger] init[i], '\n') by {
                assert(init[i] == ls[i]);
            }
            assert(lacks(ls[ls.len() - 1], '\n'));
            let out = prev.0 + step.0;
            assert forall|i: int| 0 <= i < out.len() implies lacks(#[trigger] out[i], '\n') by {
                if i < prev.0.len() {
                    assert(out[i] == prev.0[i]);
                } else {
                    assert(out[i] == step.0[i - prev.0.len()]);
                }
            }
        }
    }
}

/// Law: normalizing changes only indentation and blank lines: the lines of
/// the result that are not blank, without their leading whitespace, are
/// those of the input.
pub proof fn law_normalize_changes_only_indentation_and_blank_lines(markdown: Seq<char>)
    ensures
        visible_text(split_on(normalize_markdown(markdown), '\n')) == visible_text(
            lines(markdown),
        ),
{
    let ls = lines(markdown);
    let out = normalize_run(ls).0;
    lemma_lines_lack_newline(markdown);
    lemma_run_visible(ls);
    if out.len() == 0 {
        let e = Seq::<char>::empty();
        assert(normalize_markdown(markdown) == e);
        assert(split_on(e, '\n') == seq![e]);
        lemma_visible_one(e);
        assert(trim_start(e) =~= e);
        assert(visible_text(out) =~= Seq::<Seq<char>>::empty());
    } else {
        lemma_split_join(out);
    }
}

// ---------------------------------------------------------------------------
// Shifted fences open and close.
// ---------------------------------------------------------------------------
/// The lines written for `ls` read from the state `(shifted, fenced)`, with
/// the state after them.
pub open spec fn run_from(ls: Seq<Seq<char>>, shifted: bool, fenced: bool) -> (
    Seq<Seq<char>>,
    bool,
    bool,
)
    decreases ls.len(),
{
    if ls.len() == 0 {
        (Seq::empty(), shifted, fenced)
    } else {
        let prev = run_from(ls.drop_last(), shifted, fenced);
        let step = normalize_step(ls.last(), prev.1, prev.2);
        (prev.0 + step.0, step.1, step.2)
    }
}

proof fn lemma_run_is_run_from(ls: Seq<Seq<char>>)
    ensures
        normalize_run(ls) == run_from(ls, false, false),
    decreases ls.len(),
{
    if ls.len() > 0 {
        lemma_run_is_run_from(ls.drop_last());
    }
}

proof fn lemma_run_from_append(a: Seq<Seq<char>>, b: Seq<Seq<char>>, shifted: bool, fenced: bool)
    ensures
        run_from(a + b, shifted, fenced) == ({
            let ra = run_from(a, shifted, fenced);
            let rb = run_from(b, ra.1, ra.2);
            (ra.0 + rb.0, rb.1, rb.2)
        }),
    decreases b.len(),
{
    let ra = run_from(a, shifted, fenced);
    if b.len() == 0 {
        assert(a + b =~= a);
        assert(ra.0 + Seq::<Seq<char>>::empty() =~= ra.0);
    } else {
        lemma_run_from_append(a, b.drop_last(), shifted, fenced);
        assert((a + b).drop_last() =~= a + b.drop_last());
        assert((a + b).last() == b.last());
        let rb0 = run_from(b.drop_last(), ra.1, ra.2);
        let step = normalize_step(b.last(), rb0.1, rb0.2);
        assert(ra.0 + rb0.0 + step.0 =~= ra.0 + (rb0.0 + step.0));
    }
}

/// A line inside a shifted fence loses two leading spaces, where it has them.
pub open spec fn unindent_line(l: Seq<char>) -> Seq<char> {
    if starts_with(l, indent()) {
        l.skip(2)
    } else {
        l
    }
}

proof fn lemma_run_shifted_body(body: Seq<Seq<char>>, fenced: bool)
    requires
        forall|i: int| 0 <= i < body.len() ==> !is_fence_line(#[trigger] body[i]),
    ensures
        run_from(body, true, fenced) == (
            Seq::new(body.len(), |i: int| unindent_line(body[i])),
            true,
            fenced,
        ),
    decreases body.len(),
{
    if body.len() > 0 {
        let init = body.drop_last();
        assert forall|i: int| 0 <= i < init.len() implies !is_fence_line(#[trigger] init[i]) by {
            assert(init[i] == body[i]);
        }
        lemma_run_shifted_body(init, fenced);
        let l = body.last();
        assert(!is_fence_line(body[body.len() - 1]));
        if starts_with(l, shifted_fence_marker()) {
            lemma_shifted_marker_is_fence(l);
        }
        assert(run_from(body, true, fenced).0 =~= Seq::new(
            body.len(),
            |i: int| unindent_line(body[i]),
        ));
    }
}

proof fn lemma_run_plain_text(rest: Seq<Seq<char>>)
    requires
        forall|i: int| 0 <= i < rest.len() ==> !is_fence_line(#[trigger] rest[i]),
    ensures
        run_from(rest, false, false) == (rest, false, false),
    decreases rest.len(),
{
    if rest.len() > 0 {
        let init = rest.drop_last();
        assert forall|i: int| 0 <= i < init.len() implies !is_fence_line(#[trigger] init[i]) by {
            assert(init[i] == rest[i]);
        }
        lemma_run_plain_text(init);
        let l = rest.last();
        assert(!is_fence_line(rest[rest.len() - 1]));
        if starts_with(l, shifted_fence_marker()) {
            lemma_shifted_marker_is_fence(l);
        }
        assert(init.push(l) =~= rest);
    }
}

proof fn lemma_run_marker(m: Seq<char>, shifted: bool, fenced: bool)
    requires
        starts_with(m, shifted_fence_marker()),
    ensures
        run_from(seq![m], shifted, fenced) == (seq![trim_start(m)], !shifted, fenced),
{
    let e = Seq::<Seq<char>>::empty();
    assert(seq![m].drop_last() =~= e);
    assert(seq![m].last() == m);
    assert(run_from(e, shifted, fenced) == (e, shifted, fenced));
    assert(normalize_step(m, shifted, fenced) == (seq![trim_start(m)], !shifted, fenced));
    assert(e + seq![trim_start(m)] =~= seq![trim_start(m)]);
}

/// Law: a fence written with two spaces before its backticks opens at its
/// first marker line and closes at its second: the marker lines move to the
/// left margin, the lines between lose two leading spaces, and the lines after
/// the closing marker (that open no fence) are kept exactly, with no fence
/// left open.
pub proof fn law_shifted_fence_closes(
    m1: Seq<char>,
    body: Seq<Seq<char>>,
    m2: Seq<char>,
    rest: Seq<Seq<char>>,
)
    requires
        starts_with(m1, shifted_fence_marker()),
        starts_with(m2, shifted_fence_marker()),
        forall|i: int| 0 <= i < body.len() ==> !is_fence_line(#[trigger] body[i]),
        forall|i: int| 0 <= i < rest.len() ==> !is_fence_line(#[trigger] rest[i]),
    ensures
        normalize_run(seq![m1] + body + seq![m2] + rest) == (
            seq![trim_start(m1)] + Seq::new(body.len(), |i: int| unindent_line(body[i]))
                + seq![trim_start(m2)] + rest,
            false,
            false,
        ),
{
    let ls = seq![m1] + body + seq![m2] + rest;
    lemma_run_is_run_from(ls);
    lemma_run_from_append(seq![m1] + body + seq![m2], rest, false, false);
    lemma_run_from_append(seq![m1] + body, seq![m2], false, false);
    lemma_run_from_append(seq![m1], body, false, false);
    lemma_run_marker(m1, false, false);
    lemma_run_shifted_body(body, false);
    lemma_run_marker(m2, true, false);
    lemma_run_plain_text(rest);
}

/// Law: the same, for a whole text whose lines are a shifted fence followed
/// by lines that open no fence.
pub proof fn law_shifted_fence_closes_in_text(
    markdown: Seq<char>,
    m1: Seq<char>,
    body: Seq<Seq<char>>,
    m2: Seq<char>,
    rest: Seq<Seq<char>>,
)
    requires
        lines(markdown) == seq![m1] + body + seq![m2] + rest,
        starts_with(m1, shifted_fence_marker()),
        starts_with(m2, shifted_fence_marker()),
        forall|i: int| 0 <= i < body.len() ==> !is_fence_line(#[trigger] body[i]),
        forall|i: int| 0 <= i < rest.len() ==> !is_fence_line(#[trigger] rest[i]),
    ensures
        normalize_markdown(markdown) == join_lines(
            seq![trim_start(m1)] + Seq::new(body.len(), |i: int| unindent_line(body[i]))
                + seq![trim_start(m2)] + rest,
        ),
{
    law_shifted_fence_closes(m1, body, m2, rest);
}

// ---------------------------------------------------------------------------
// Plain fences, line by line.
// ---------------------------------------------------------------------------
/// The number of lines of `ls` that open or close a fence.
pub open spec fn marker_count(ls: Seq<Seq<char>>) -> nat
    decreases ls.len(),
{
    if ls.len() == 0 {
        0
    } else {
        marker_count(ls.drop_last()) + if is_fence_line(ls.last()) {
            1nat
        } else {
            0nat
        }
    }
}

/// The lines written for line `l` after `before` fence lines: an opening
/// fence line (an even number before it) is followed by an empty line, a
/// closing one is preceded by one, a line inside a fence is indented by two
/// spaces, and any other line is kept.
pub open spec fn fence_rewrite(l: Seq<char>, before: nat) -> Seq<Seq<char>> {
    if is_fence_line(l) {
        if before % 2 == 0 {
            seq![l, Seq::empty()]
        } else {
            seq![Seq::empty(), l]
        }
    } else if before % 2 == 1 {
        seq![indent() + l]
    } else {
        seq![l]
    }
}

/// The lines written for `ls`, each line rewritten by `fence_rewrite`.
pub open spec fn fence_rewrites(ls: Seq<Seq<char>>) -> Seq<Seq<char>>
    decreases ls.len(),
{
    if ls.len() == 0 {
        Seq::empty()
    } else {
        fence_rewrites(ls.drop_last()) + fence_rewrite(ls.last(), marker_count(ls.drop_last()))
    }
}

proof fn lemma_run_plain_fences(ls: Seq<Seq<char>>)
    requires
        forall|i: int| 0 <= i < ls.len() ==> !starts_with(#[trigger] ls[i], shifted_fence_marker()),
    ensures
        normalize_run(ls) == (fence_rewrites(ls), false, marker_count(ls) % 2 == 1),
    decreases ls.len(),
{
    if ls.len() > 0 {
        let init = ls.drop_last();
        assert forall|i: int| 0 <= i < init.len() implies !starts_with(
            #[trigger] init[i],
            shifted_fence_marker(),
        ) by {
            assert(init[i] == ls[i]);
        }
        lemma_run_plain_fences(init);
        assert(!starts_with(ls[ls.len() - 1], shifted_fence_marker()));
    }
}

/// Law: where no line starts with two spaces and three backticks, each line
/// is rewritten by `fence_rewrite`, counting the fence lines before it.
pub proof fn law_normalize_rewrites_plain_fences(markdown: Seq<char>)
    requires
        forall|i: int|
            0 <= i < lines(markdown).len() ==> !starts_with(
                #[trigger] lines(markdown)[i],
                shifted_fence_marker(),
            ),
    ensures
        normalize_markdown(markdown) == join_lines(fence_rewrites(lines(markdown))),
{
    lemma_run_plain_fences(lines(markdown));
}

} // verus!
