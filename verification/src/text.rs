//! Character-level text model shared by the markdown passes.
//!
//! Text is modelled as `Seq<char>`, the view of `str` and `String`. The spec
//! functions here state what the std string operations used by the viewer
//! compute (`lines`, `trim`, `trim_start`, `trim_matches`, `split`, `join`,
//! `starts_with`, `strip_prefix`); the exec functions
//! compute them on `Vec<char>` and are proved against those statements.
use vstd::prelude::*;
use vstd::slice::slice_subrange;
use vstd::slice::slice_to_vec;

verus! {

/// Unicode `White_Space`, the set that `char::is_whitespace` tests.
pub open spec fn is_ws(c: char) -> bool {
    let u = c as u32;
    ||| 0x09 <= u <= 0x0D
    ||| u == 0x20
    ||| u == 0x85
    ||| u == 0xA0
    ||| u == 0x1680
    ||| 0x2000 <= u <= 0x200A
    ||| u == 0x2028
    ||| u == 0x2029
    ||| u == 0x202F
    ||| u == 0x205F
    ||| u == 0x3000
}

/// The two kinds of characters that the viewer trims from text.
#[derive(Clone, Copy, PartialEq, Eq)]
pub enum CharClass {
    Whitespace,
    Pipe,
}

pub open spec fn in_class(k: CharClass, c: char) -> bool {
    match k {
        CharClass::Whitespace => is_ws(c),
        CharClass::Pipe => c == '|',
    }
}

/// `s` without its leading characters of class `k`.
pub open spec fn drop_leading(s: Seq<char>, k: CharClass) -> Seq<char>
    decreases s.len(),
{
    if s.len() > 0 && in_class(k, s[0]) {
        drop_leading(s.drop_first(), k)
    } else {
        s
    }
}

/// `s` without its trailing characters of class `k`.
pub open spec fn drop_trailing(s: Seq<char>, k: CharClass) -> Seq<char>
    decreases s.len(),
{
    if s.len() > 0 && in_class(k, s.last()) {
        drop_trailing(s.drop_last(), k)
    } else {
        s
    }
}

/// `str::trim_start`.
pub open spec fn trim_start(s: Seq<char>) -> Seq<char> {
    drop_leading(s, CharClass::Whitespace)
}

/// `str::trim` (and, with `CharClass::Pipe`, `str::trim_matches('|')`).
pub open spec fn trim_by(s: Seq<char>, k: CharClass) -> Seq<char> {
    drop_trailing(drop_leading(s, k), k)
}

pub open spec fn trim(s: Seq<char>) -> Seq<char> {
    trim_by(s, CharClass::Whitespace)
}

/// `s.starts_with(p)`.
pub open spec fn starts_with(s: Seq<char>, p: Seq<char>) -> bool {
    p.len() <= s.len() && s.take(p.len() as int) == p
}

/// `s.strip_prefix(p)`.
pub open spec fn strip_prefix(s: Seq<char>, p: Seq<char>) -> Option<Seq<char>> {
    if starts_with(s, p) {
        Some(s.skip(p.len() as int))
    } else {
        None
    }
}

/// The pieces of `s` between occurrences of `sep` (`str::split` with a char):
/// one more piece than there are separators.
pub open spec fn split_on(s: Seq<char>, sep: char) -> Seq<Seq<char>>
    decreases s.len(),
{
    if s.len() == 0 {
        seq![Seq::empty()]
    } else {
        let prev = split_on(s.drop_last(), sep);
        if s.last() == sep {
            prev.push(Seq::empty())
        } else {
            prev.update(prev.len() - 1, prev.last().push(s.last()))
        }
    }
}

pub open spec fn strip_cr(l: Seq<char>) -> Seq<char> {
    if l.len() > 0 && l.last() == '\r' {
        l.drop_last()
    } else {
        l
    }
}

/// The pieces of a split that were each ended by a `'\n'`, each without one
/// trailing `'\r'`.
pub open spec fn ended_lines(p: Seq<Seq<char>>) -> Seq<Seq<char>> {
    Seq::new((p.len() - 1) as nat, |i: int| strip_cr(p[i]))
}

/// `str::lines`: the pieces between `'\n'`; a piece ended by `'\n'` loses one
/// trailing `'\r'`; an empty final piece (the text ends with a line ending,
/// or is empty) is not a line.
pub open spec fn lines(s: Seq<char>) -> Seq<Seq<char>> {
    let p = split_on(s, '\n');
    let ended = ended_lines(p);
    if p.last().len() > 0 {
        ended.push(p.last())
    } else {
        ended
    }
}

/// `join("\n")` of a list of lines.
pub open spec fn join_lines(ls: Seq<Seq<char>>) -> Seq<char>
    decreases ls.len(),
{
    if ls.len() == 0 {
        Seq::empty()
    } else if ls.len() == 1 {
        ls[0]
    } else {
        join_lines(ls.drop_last()) + seq!['\n'] + ls.last()
    }
}

pub proof fn lemma_split_on_len(s: Seq<char>, sep: char)
    ensures
        split_on(s, sep).len() >= 1,
    decreases s.len(),
{
    if s.len() > 0 {
        lemma_split_on_len(s.drop_last(), sep);
    }
}

proof fn lemma_join_extend_last(ls: Seq<Seq<char>>, c: char)
    requires
        ls.len() >= 1,
    ensures
        join_lines(ls.update(ls.len() - 1, ls.last().push(c))) == join_lines(ls).push(c),
{
    let u = ls.update(ls.len() - 1, ls.last().push(c));
    if ls.len() == 1 {
        assert(join_lines(u) == u[0]);
    } else {
        assert(u.drop_last() =~= ls.drop_last());
        assert(join_lines(u) == join_lines(u.drop_last()) + seq!['\n'] + u.last());
        assert(join_lines(u) =~= join_lines(ls).push(c));
    }
}

/// Only the empty text has no line.
pub proof fn lemma_no_lines_only_for_empty_text(s: Seq<char>)
    ensures
        lines(s).len() == 0 ==> s.len() == 0,
{
    if s.len() > 0 {
        lemma_split_on_len(s.drop_last(), '\n');
        let p = split_on(s, '\n');
        if s.last() == '\n' {
            assert(p.len() >= 2);
            assert(ended_lines(p).len() >= 1);
        } else {
            assert(p.last().len() > 0);
        }
    }
}

/// Joining two non-empty lists of lines is joining their joins.
pub proof fn lemma_join_concat(a: Seq<Seq<char>>, b: Seq<Seq<char>>)
    requires
        a.len() > 0,
        b.len() > 0,
    ensures
        join_lines(a + b) == join_lines(a) + seq!['\n'] + join_lines(b),
    decreases b.len(),
{
    if b.len() == 1 {
        assert((a + b).drop_last() =~= a);
        assert((a + b).last() == b[0]);
    } else {
        lemma_join_concat(a, b.drop_last());
        assert((a + b).drop_last() =~= a + b.drop_last());
        assert((a + b).last() == b.last());
        assert(join_lines(a + b) =~= join_lines(a) + seq!['\n'] + join_lines(b));
    }
}

/// Joining the pieces of a split on `'\n'` with `'\n'` gives the text back.
pub proof fn lemma_join_split(s: Seq<char>)
    ensures
        join_lines(split_on(s, '\n')) == s,
    decreases s.len(),
{
    if s.len() == 0 {
        assert(join_lines(seq![Seq::<char>::empty()]) == Seq::<char>::empty());
    } else {
        let prev = split_on(s.drop_last(), '\n');
        lemma_join_split(s.drop_last());
        lemma_split_on_len(s.drop_last(), '\n');
        if s.last() == '\n' {
            let p = prev.push(Seq::<char>::empty());
            assert(p.drop_last() =~= prev);
            assert(join_lines(p) =~= s);
        } else {
            lemma_join_extend_last(prev, s.last());
            assert(s.drop_last().push(s.last()) =~= s);
        }
    }
}

/// Text without `'\r'` that does not end with `'\n'` is its lines joined
/// with `'\n'`.
pub proof fn lemma_join_lines_of_plain_text(s: Seq<char>)
    requires
        forall|i: int| 0 <= i < s.len() ==> s[i] != '\r',
        s.len() == 0 || s.last() != '\n',
    ensures
        join_lines(lines(s)) == s,
{
    let p = split_on(s, '\n');
    lemma_join_split(s);
    lemma_split_on_len(s, '\n');
    lemma_split_pieces_from_text(s, '\n');
    assert forall|i: int| 0 <= i < p.len() - 1 implies #[trigger] strip_cr(p[i]) == p[i] by {
        if p[i].len() > 0 {
            assert(p[i].contains(p[i].last()));
        }
    }
    if s.len() == 0 {
        assert(lines(s) =~= Seq::<Seq<char>>::empty());
    } else {
        assert(p.last().len() > 0) by {
            lemma_split_last_nonempty(s);
        }
        assert(lines(s) =~= p);
    }
}

/// Every character of a piece of a split occurs in the text.
pub proof fn lemma_split_pieces_from_text(s: Seq<char>, sep: char)
    ensures
        forall|i: int, c: char|
            0 <= i < split_on(s, sep).len() && #[trigger] split_on(s, sep)[i].contains(c)
                ==> s.contains(c),
    decreases s.len(),
{
    if s.len() > 0 {
        let prev = split_on(s.drop_last(), sep);
        lemma_split_pieces_from_text(s.drop_last(), sep);
        lemma_split_on_len(s.drop_last(), sep);
        assert forall|i: int, c: char|
            0 <= i < split_on(s, sep).len() && #[trigger] split_on(s, sep)[i].contains(c)
                implies s.contains(c) by {
            let p = split_on(s, sep);
            let k = choose|k: int| 0 <= k < p[i].len() && p[i][k] == c;
            if s.last() != sep && i == prev.len() - 1 && k == prev.last().len() {
                assert(s[s.len() - 1] == c);
            } else {
                assert(prev[i].contains(c)) by {
                    assert(prev[i][k] == c);
                }
                let m = choose|m: int| 0 <= m < s.drop_last().len() && s.drop_last()[m] == c;
                assert(s[m] == c);
            }
        }
    }
}

proof fn lemma_split_last_nonempty(s: Seq<char>)
    requires
        s.len() > 0,
        s.last() != '\n',
    ensures
        split_on(s, '\n').last().len() > 0,
{
    lemma_split_on_len(s.drop_last(), '\n');
}

/// `s` holds no `c`.
pub open spec fn lacks(s: Seq<char>, c: char) -> bool {
    forall|i: int| 0 <= i < s.len() ==> s[i] != c
}

/// No piece of a split holds the separator.
pub proof fn lemma_split_pieces_lack_sep(s: Seq<char>, sep: char)
    ensures
        forall|i: int| 0 <= i < split_on(s, sep).len() ==> lacks(#[trigger] split_on(s, sep)[i], sep),
    decreases s.len(),
{
    if s.len() > 0 {
        let prev = split_on(s.drop_last(), sep);
        lemma_split_pieces_lack_sep(s.drop_last(), sep);
        lemma_split_on_len(s.drop_last(), sep);
        let p = split_on(s, sep);
        assert forall|i: int| 0 <= i < p.len() implies lacks(#[trigger] p[i], sep) by {
            if i < prev.len() {
                assert(lacks(prev[i], sep));
            }
        }
    }
}

/// No line holds a `'\n'`.
pub proof fn lemma_lines_lack_newline(s: Seq<char>)
    ensures
        forall|i: int| 0 <= i < lines(s).len() ==> lacks(#[trigger] lines(s)[i], '\n'),
{
    let p = split_on(s, '\n');
    lemma_split_pieces_lack_sep(s, '\n');
    lemma_split_on_len(s, '\n');
    assert forall|i: int| 0 <= i < lines(s).len() implies lacks(#[trigger] lines(s)[i], '\n') by {
        assert(lacks(p[i], '\n'));
        if i < p.len() - 1 {
            assert(lines(s)[i] == strip_cr(p[i]));
        } else {
            assert(lines(s)[i] == p.last());
        }
    }
}

/// A text without the separator is a single piece.
proof fn lemma_split_single(y: Seq<char>, sep: char)
    requires
        lacks(y, sep),
    ensures
        split_on(y, sep) == seq![y],
    decreases y.len(),
{
    if y.len() > 0 {
        lemma_split_single(y.drop_last(), sep);
        assert(y.drop_last().push(y.last()) =~= y);
    } else {
        assert(y =~= Seq::<char>::empty());
    }
}

/// Splitting `a`, a separator, then a piece `y` without separator.
proof fn lemma_split_append_piece(a: Seq<char>, sep: char, y: Seq<char>)
    requires
        lacks(y, sep),
    ensures
        split_on(a + seq![sep] + y, sep) == split_on(a, sep).push(y),
    decreases y.len(),
{
    let x = a + seq![sep];
    if y.len() == 0 {
        assert(x + y =~= x);
        assert(x.drop_last() =~= a);
        assert(x.last() == sep);
        assert(y =~= Seq::<char>::empty());
    } else {
        let yd = y.drop_last();
        assert forall|i: int| 0 <= i < yd.len() implies yd[i] != sep by {
            assert(yd[i] == y[i]);
        }
        lemma_split_append_piece(a, sep, yd);
        let z = x + y;
        assert(z.drop_last() =~= x + yd);
        assert(z.last() == y.last());
        assert(y.last() != sep) by {
            assert(y[y.len() - 1] != sep);
        }
        let prev = split_on(a, sep).push(yd);
        assert(split_on(z, sep) == prev.update(prev.len() - 1, prev.last().push(y.last())));
        assert(yd.push(y.last()) =~= y);
        assert(prev.update(prev.len() - 1, prev.last().push(y.last())) =~= split_on(a, sep).push(y));
    }
}

/// Splitting lines joined with `'\n'` gives them back, when none holds a
/// `'\n'`.
pub proof fn lemma_split_join(ls: Seq<Seq<char>>)
    requires
        ls.len() >= 1,
        forall|i: int| 0 <= i < ls.len() ==> lacks(#[trigger] ls[i], '\n'),
    ensures
        split_on(join_lines(ls), '\n') == ls,
    decreases ls.len(),
{
    if ls.len() == 1 {
        assert(lacks(ls[0], '\n'));
        lemma_split_single(ls[0], '\n');
        assert(seq![ls[0]] =~= ls);
    } else {
        let init = ls.drop_last();
        assert forall|i: int| 0 <= i < init.len() implies lacks(#[trigger] init[i], '\n') by {
            assert(init[i] == ls[i]);
        }
        lemma_split_join(init);
        assert(lacks(ls[ls.len() - 1], '\n'));
        lemma_split_append_piece(join_lines(init), '\n', ls.last());
        assert(init.push(ls.last()) =~= ls);
    }
}

/// Dropping leading characters keeps a text free of `c`.
pub proof fn lemma_drop_leading_lacks(s: Seq<char>, k: CharClass, c: char)
    requires
        lacks(s, c),
    ensures
        lacks(drop_leading(s, k), c),
    decreases s.len(),
{
    if s.len() > 0 && in_class(k, s[0]) {
        assert forall|i: int| 0 <= i < s.drop_first().len() implies s.drop_first()[i] != c by {
            assert(s.drop_first()[i] == s[i + 1]);
        }
        lemma_drop_leading_lacks(s.drop_first(), k, c);
    }
}

proof fn lemma_drop_leading_first(s: Seq<char>, k: CharClass)
    ensures
        drop_leading(s, k).len() > 0 ==> !in_class(k, drop_leading(s, k)[0]),
    decreases s.len(),
{
    if s.len() > 0 && in_class(k, s[0]) {
        lemma_drop_leading_first(s.drop_first(), k);
    }
}

proof fn lemma_drop_trailing_prefix(s: Seq<char>, k: CharClass)
    ensures
        drop_trailing(s, k).len() <= s.len(),
        forall|i: int| 0 <= i < drop_trailing(s, k).len() ==> #[trigger] drop_trailing(s, k)[i] == s[i],
        drop_trailing(s, k).len() > 0 ==> !in_class(k, drop_trailing(s, k).last()),
    decreases s.len(),
{
    if s.len() > 0 && in_class(k, s.last()) {
        lemma_drop_trailing_prefix(s.drop_last(), k);
        assert forall|i: int| 0 <= i < drop_trailing(s, k).len() implies #[trigger] drop_trailing(s, k)[i] == s[i] by {
            assert(drop_trailing(s, k)[i] == s.drop_last()[i]);
        }
    }
}

/// Trimming twice trims nothing more.
pub proof fn lemma_trim_idempotent(s: Seq<char>, k: CharClass)
    ensures
        trim_by(trim_by(s, k), k) == trim_by(s, k),
{
    let t = drop_leading(s, k);
    let u = drop_trailing(t, k);
    lemma_drop_leading_first(s, k);
    lemma_drop_trailing_prefix(t, k);
    if u.len() > 0 {
        assert(u[0] == t[0]);
        assert(drop_leading(u, k) == u);
        assert(drop_trailing(u, k) == u);
    } else {
        assert(drop_leading(u, k) == u);
        assert(drop_trailing(u, k) == u);
    }
}

/// Dropping leading characters twice drops nothing more.
pub proof fn lemma_drop_leading_idempotent(s: Seq<char>, k: CharClass)
    ensures
        drop_leading(drop_leading(s, k), k) == drop_leading(s, k),
    decreases s.len(),
{
    if s.len() > 0 && in_class(k, s[0]) {
        lemma_drop_leading_idempotent(s.drop_first(), k);
    }
}

// ---------------------------------------------------------------------------
// Conversions between `str`/`String` and `Vec<char>`.
// ---------------------------------------------------------------------------
/// The characters of `s`, in order.
pub fn chars_of(s: &str) -> (r: Vec<char>)
    ensures
        r@ == s@,
{
    let mut out: Vec<char> = Vec::new();
    for c in it: s.chars()
        invariant
            out@ == it.seq().take(it.index() as int),
            it.seq() == s@,
    {
        out.push(c);
    }
    out
}

/// Trusted: `String::from_iter` over the characters of `v` builds the string
/// made of exactly those characters, in order.
#[verifier::external_body]
pub(crate) fn string_of(v: &Vec<char>) -> (r: String)
    ensures
        r@ == v@,
{
    String::from_iter(v.iter())
}

/// A copy of `s[lo..hi]`.
pub fn copy_range(s: &Vec<char>, lo: usize, hi: usize) -> (r: Vec<char>)
    requires
        lo <= hi <= s@.len(),
    ensures
        r@ == s@.subrange(lo as int, hi as int),
{
    slice_to_vec(slice_subrange(s.as_slice(), lo, hi))
}

/// A copy of `s`.
pub fn copy_chars(s: &Vec<char>) -> (r: Vec<char>)
    ensures
        r@ == s@,
{
    let r = copy_range(s, 0, s.len());
    assert(s@.subrange(0, s@.len() as int) =~= s@);
    r
}

/// Appends `src` to `out`.
pub fn push_all(out: &mut Vec<char>, src: &Vec<char>)
    ensures
        final(out)@ == old(out)@ + src@,
{
    let mut i: usize = 0;
    while i < src.len()
        invariant
            i <= src@.len(),
            out@ == old(out)@ + src@.take(i as int),
        decreases src@.len() - i,
    {
        out.push(src[i]);
        i = i + 1;
        assert(src@.take(i as int) == src@.take((i - 1) as int).push(src@[i - 1]));
    }
    assert(src@.take(i as int) == src@);
}

/// Appends the line `l` to `out`.
pub fn push_line(out: &mut Vec<Vec<char>>, l: Vec<char>)
    ensures
        final(out).deep_view() == old(out).deep_view().push(l@),
{
    let ghost v = l@;
    out.push(l);
    assert(out@[out@.len() - 1].deep_view() =~= v);
    assert(out.deep_view() =~= old(out).deep_view().push(v));
}

// ---------------------------------------------------------------------------
// Character classes.
// ---------------------------------------------------------------------------
pub fn is_ws_char(c: char) -> (b: bool)
    ensures
        b == is_ws(c),
{
    let u: u32 = c as u32;
    (0x09 <= u && u <= 0x0D) || u == 0x20 || u == 0x85 || u == 0xA0 || u == 0x1680 || (0x2000
        <= u && u <= 0x200A) || u == 0x2028 || u == 0x2029 || u == 0x202F || u == 0x205F || u
        == 0x3000
}

pub fn in_class_char(k: CharClass, c: char) -> (b: bool)
    ensures
        b == in_class(k, c),
{
    match k {
        CharClass::Whitespace => is_ws_char(c),
        CharClass::Pipe => c == '|',
    }
}

// ---------------------------------------------------------------------------
// Trimming.
// ---------------------------------------------------------------------------
pub proof fn lemma_drop_leading_skip(s: Seq<char>, k: CharClass, i: int)
    requires
        0 <= i <= s.len(),
        forall|j: int| 0 <= j < i ==> in_class(k, #[trigger] s[j]),
    ensures
        drop_leading(s, k) == drop_leading(s.skip(i), k),
    decreases i,
{
    if i > 0 {
        assert(in_class(k, s[0]));
        assert forall|j: int| 0 <= j < i - 1 implies in_class(k, #[trigger] s.drop_first()[j]) by {
            assert(s.drop_first()[j] == s[j + 1]);
        }
        lemma_drop_leading_skip(s.drop_first(), k, i - 1);
        assert(s.drop_first().skip(i - 1) =~= s.skip(i));
    } else {
        assert(s.skip(0) =~= s);
    }
}

pub proof fn lemma_drop_trailing_take(s: Seq<char>, k: CharClass, j: int)
    requires
        0 <= j <= s.len(),
        forall|m: int| j <= m < s.len() ==> in_class(k, #[trigger] s[m]),
    ensures
        drop_trailing(s, k) == drop_trailing(s.take(j), k),
    decreases s.len() - j,
{
    if j < s.len() {
        assert(in_class(k, s.last()));
        assert forall|m: int| j <= m < s.drop_last().len() implies in_class(
            k,
            #[trigger] s.drop_last()[m],
        ) by {
            assert(s.drop_last()[m] == s[m]);
        }
        lemma_drop_trailing_take(s.drop_last(), k, j);
        assert(s.drop_last().take(j) =~= s.take(j));
    } else {
        assert(s.take(j) =~= s);
    }
}

/// Index of the first character of `s` outside class `k` (or `s.len()`).
fn leading_end(s: &Vec<char>, k: CharClass) -> (i: usize)
    ensures
        i <= s@.len(),
        s@.skip(i as int) == drop_leading(s@, k),
{
    let mut i: usize = 0;
    while i < s.len() && in_class_char(k, s[i])
        invariant
            i <= s@.len(),
            forall|j: int| 0 <= j < i ==> in_class(k, #[trigger] s@[j]),
        decreases s@.len() - i,
    {
        i = i + 1;
    }
    proof {
        lemma_drop_leading_skip(s@, k, i as int);
        if i < s@.len() {
            assert(s@.skip(i as int)[0] == s@[i as int]);
        }
    }
    i
}

/// The bounds of `trim_by(s, k)` inside `s`.
pub fn trim_bounds(s: &Vec<char>, k: CharClass) -> (r: (usize, usize))
    ensures
        r.0 <= r.1 <= s@.len(),
        s@.subrange(r.0 as int, r.1 as int) == trim_by(s@, k),
        s@.skip(r.0 as int) == drop_leading(s@, k),
{
    let lo: usize = leading_end(s, k);
    let mut hi: usize = s.len();
    let ghost t = s@.skip(lo as int);
    while hi > lo && in_class_char(k, s[hi - 1])
        invariant
            lo <= hi <= s@.len(),
            t == s@.skip(lo as int),
            forall|m: int| hi <= m < s@.len() ==> in_class(k, #[trigger] s@[m]),
        decreases hi,
    {
        hi = hi - 1;
    }
    proof {
        assert forall|m: int| hi - lo <= m < t.len() implies in_class(k, #[trigger] t[m]) by {
            assert(t[m] == s@[m + lo]);
        }
        lemma_drop_trailing_take(t, k, hi - lo);
        let u = t.take(hi - lo);
        assert(u =~= s@.subrange(lo as int, hi as int));
        if hi > lo {
            assert(u.last() == s@[hi - 1]);
        }
    }
    (lo, hi)
}

/// `trim_by(s, k)` as a new vector.
pub fn trim_chars(s: &Vec<char>, k: CharClass) -> (r: Vec<char>)
    ensures
        r@ == trim_by(s@, k),
{
    let (lo, hi): (usize, usize) = trim_bounds(s, k);
    copy_range(s, lo, hi)
}

/// `trim_start(s)` as a new vector.
pub fn trim_start_chars(s: &Vec<char>) -> (r: Vec<char>)
    ensures
        r@ == trim_start(s@),
{
    let lo: usize = leading_end(s, CharClass::Whitespace);
    copy_range(s, lo, s.len())
}

/// Whether `s` is blank: it holds only whitespace.
pub fn trims_to_empty(s: &Vec<char>) -> (b: bool)
    ensures
        b == (trim(s@).len() == 0),
{
    let (lo, hi): (usize, usize) = trim_bounds(s, CharClass::Whitespace);
    lo == hi
}

// ---------------------------------------------------------------------------
// Prefixes.
// ---------------------------------------------------------------------------
pub fn starts_with_chars(s: &Vec<char>, p: &Vec<char>) -> (b: bool)
    ensures
        b == starts_with(s@, p@),
{
    if p.len() > s.len() {
        return false;
    }
    let mut i: usize = 0;
    while i < p.len()
        invariant
            i <= p@.len() <= s@.len(),
            forall|j: int| 0 <= j < i ==> s@[j] == p@[j],
        decreases p@.len() - i,
    {
        if s[i] != p[i] {
            assert(s@.take(p@.len() as int)[i as int] != p@[i as int]);
            return false;
        }
        i = i + 1;
    }
    assert(s@.take(p@.len() as int) =~= p@);
    true
}

pub fn strip_prefix_chars(s: &Vec<char>, p: &Vec<char>) -> (r: Option<Vec<char>>)
    ensures
        r matches Some(v) ==> strip_prefix(s@, p@) == Some(v@),
        r is None ==> strip_prefix(s@, p@) is None,
{
    if starts_with_chars(s, p) {
        Some(copy_range(s, p.len(), s.len()))
    } else {
        None
    }
}

// ---------------------------------------------------------------------------
// Lines and joining.
// ---------------------------------------------------------------------------
/// `str::lines` on a character vector.
pub fn lines_of(s: &Vec<char>) -> (r: Vec<Vec<char>>)
    ensures
        r.deep_view() == lines(s@),
{
    let mut done: Vec<Vec<char>> = Vec::new();
    let mut cur: Vec<char> = Vec::new();
    let mut i: usize = 0;
    proof {
        assert(s@.take(0) =~= Seq::<char>::empty());
    }
    while i < s.len()
        invariant
            i <= s@.len(),
            split_on(s@.take(i as int), '\n').len() >= 1,
            ended_lines(split_on(s@.take(i as int), '\n')) =~= done.deep_view(),
            split_on(s@.take(i as int), '\n').last() == cur@,
        decreases s@.len() - i,
    {
        let c = s[i];
        let ghost prev = split_on(s@.take(i as int), '\n');
        let ghost old_cur = cur@;
        let ghost old_done = done.deep_view();
        proof {
            let t = s@.take(i + 1);
            assert(t.drop_last() =~= s@.take(i as int));
            assert(t.last() == c);
        }
        if c == '\n' {
            if cur.len() > 0 && cur[cur.len() - 1] == '\r' {
                cur.pop();
            }
            assert(cur@ =~= strip_cr(old_cur));
            done.push(cur);
            cur = Vec::new();
            proof {
                assert(done@[done@.len() - 1].deep_view() =~= strip_cr(old_cur));
                assert(done.deep_view() =~= old_done.push(strip_cr(old_cur)));
                let now = prev.push(Seq::<char>::empty());
                assert(split_on(s@.take(i + 1), '\n') == now);
                assert(ended_lines(now) =~= ended_lines(prev).push(strip_cr(prev.last())));
            }
        } else {
            cur.push(c);
            proof {
                let now = prev.update(prev.len() - 1, prev.last().push(c));
                assert(split_on(s@.take(i + 1), '\n') == now);
                assert(ended_lines(now) =~= ended_lines(prev));
                assert(now.last() == cur@);
            }
        }
        i = i + 1;
    }
    assert(s@.take(s@.len() as int) =~= s@);
    let ghost before = done.deep_view();
    if cur.len() > 0 {
        let ghost last = cur@;
        done.push(cur);
        assert(done@[done@.len() - 1].deep_view() =~= last);
        assert(done.deep_view() =~= before.push(split_on(s@, '\n').last()));
    }
    done
}

/// `join("\n")` of a list of character vectors.
pub fn join_chars(ls: &Vec<Vec<char>>) -> (r: Vec<char>)
    ensures
        r@ == join_lines(ls.deep_view()),
{
    let mut out: Vec<char> = Vec::new();
    let mut i: usize = 0;
    while i < ls.len()
        invariant
            i <= ls@.len(),
            out@ == join_lines(ls.deep_view().take(i as int)),
        decreases ls@.len() - i,
    {
        let ghost before = out@;
        if i > 0 {
            out.push('\n');
        }
        push_all(&mut out, &ls[i]);
        i = i + 1;
        proof {
            let t = ls.deep_view().take(i as int);
            assert(t.drop_last() =~= ls.deep_view().take(i - 1));
            assert(t.last() == ls@[i - 1]@);
            if i == 1 {
                assert(out@ =~= t[0]);
            } else {
                assert(out@ =~= join_lines(t.drop_last()) + seq!['\n'] + t.last());
            }
        }
    }
    assert(ls.deep_view().take(ls@.len() as int) =~= ls.deep_view());
    out
}

} // verus!
