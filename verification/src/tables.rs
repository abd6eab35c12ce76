//! Pipe tables: recognising table lines, splitting them into cells, and
//! cutting a section's text into markdown blocks and table blocks.
//!
//! A table starts at a line holding a `|` whose next line is a separator (every
//! cell made of `-`, `:` and spaces) and that has at least two cells; its rows
//! are the lines after the separator for as long as they hold a `|`.
use vstd::prelude::*;
use crate::text::{
    chars_of, copy_chars, join_chars, join_lines, lemma_split_on_len, lines, lines_of, push_line,
    split_on, string_of, trim, trim_by, trim_chars, CharClass, lacks, lemma_lines_lack_newline,
    lemma_split_join, lemma_trim_idempotent,
};

verus! {

/// The cells of a table line: the line trimmed, stripped of its outer pipes,
/// split at each `|`, each piece trimmed.
pub open spec fn parse_row(line: Seq<char>) -> Seq<Seq<char>> {
    let pieces = split_on(trim_by(trim(line), CharClass::Pipe), '|');
    Seq::new(pieces.len(), |i: int| trim(pieces[i]))
}

/// A line that holds a `|`.
pub open spec fn is_row(line: Seq<char>) -> bool {
    trim(line).contains('|') && trim(line).len() > 0
}

/// A separator cell: not blank, and made of `-`, `:` and spaces only.
pub open spec fn is_separator_cell(cell: Seq<char>) -> bool {
    let t = trim(cell);
    t.len() > 0 && forall|i: int| 0 <= i < t.len() ==> (t[i] == '-' || t[i] == ':' || t[i] == ' ')
}

/// A separator line: it has cells, and every one is a separator cell.
pub open spec fn is_separator(line: Seq<char>) -> bool {
    let cells = parse_row(line);
    cells.len() > 0 && forall|k: int| 0 <= k < cells.len() ==> is_separator_cell(#[trigger] cells[k])
}

/// Law: every line splits into at least one cell.
pub proof fn law_rows_have_a_cell(line: Seq<char>)
    ensures
        parse_row(line).len() >= 1,
{
    lemma_split_on_len(trim_by(trim(line), CharClass::Pipe), '|');
}

/// Law: the cells of a line do not depend on the whitespace around it.
pub proof fn law_row_cells_ignore_surrounding_whitespace(line: Seq<char>)
    ensures
        parse_row(line) == parse_row(trim(line)),
        is_row(line) == is_row(trim(line)),
        is_separator(line) == is_separator(trim(line)),
{
    lemma_trim_idempotent(line, CharClass::Whitespace);
}

/// The pieces of `s` between occurrences of `sep`.
pub fn split_chars(s: &Vec<char>, sep: char) -> (r: Vec<Vec<char>>)
    ensures
        r.deep_view() == split_on(s@, sep),
{
    let mut done: Vec<Vec<char>> = Vec::new();
    let mut cur: Vec<char> = Vec::new();
    let mut i: usize = 0;
    assert(s@.take(0) =~= Seq::<char>::empty());
    while i < s.len()
        invariant
            i <= s@.len(),
            split_on(s@.take(i as int), sep) =~= done.deep_view().push(cur@),
        decreases s@.len() - i,
    {
        let c = s[i];
        let ghost prev = split_on(s@.take(i as int), sep);
        proof {
            let t = s@.take(i + 1);
            assert(t.drop_last() =~= s@.take(i as int));
            assert(t.last() == c);
        }
        if c == sep {
            push_line(&mut done, cur);
            cur = Vec::new();
            assert(split_on(s@.take(i + 1), sep) =~= done.deep_view().push(cur@));
        } else {
            cur.push(c);
            assert(split_on(s@.take(i + 1), sep) =~= done.deep_view().push(cur@));
        }
        i = i + 1;
    }
    assert(s@.take(s@.len() as int) =~= s@);
    push_line(&mut done, cur);
    done
}

/// The cells of a table line, as character vectors.
pub fn row_cells(line: &Vec<char>) -> (r: Vec<Vec<char>>)
    ensures
        r.deep_view() == parse_row(line@),
{
    let trimmed = trim_chars(line, CharClass::Whitespace);
    let inner = trim_chars(&trimmed, CharClass::Pipe);
    let pieces = split_chars(&inner, '|');
    let mut cells: Vec<Vec<char>> = Vec::new();
    let mut i: usize = 0;
    while i < pieces.len()
        invariant
            i <= pieces@.len(),
            pieces.deep_view() == split_on(trim_by(trim(line@), CharClass::Pipe), '|'),
            cells.deep_view() =~= Seq::new(i as nat, |k: int| trim(pieces.deep_view()[k])),
        decreases pieces@.len() - i,
    {
        let cell = trim_chars(&pieces[i], CharClass::Whitespace);
        assert(pieces@[i as int].deep_view() =~= pieces@[i as int]@);
        push_line(&mut cells, cell);
        i = i + 1;
        assert(cells.deep_view() =~= Seq::new(i as nat, |k: int| trim(pieces.deep_view()[k])));
    }
    cells
}

fn strings_of(cells: &Vec<Vec<char>>) -> (r: Vec<String>)
    ensures
        r.deep_view() == cells.deep_view(),
{
    let mut out: Vec<String> = Vec::new();
    let mut i: usize = 0;
    while i < cells.len()
        invariant
            i <= cells@.len(),
            out.deep_view() =~= cells.deep_view().take(i as int),
        decreases cells@.len() - i,
    {
        let ghost before = out.deep_view();
        let st = string_of(&cells[i]);
        let ghost sv = st@;
        out.push(st);
        assert(cells@[i as int].deep_view() =~= cells@[i as int]@);
        assert(out.deep_view() =~= before.push(sv));
        i = i + 1;
        assert(out.deep_view() =~= cells.deep_view().take(i as int));
    }
    assert(cells.deep_view().take(cells@.len() as int) =~= cells.deep_view());
    out
}

/// Splits a table line into its trimmed cells (outer pipes dropped).
pub fn parse_table_row(line: &str) -> (r: Vec<String>)
    ensures
        r.deep_view() == parse_row(line@),
{
    let chars = chars_of(line);
    let cells = row_cells(&chars);
    strings_of(&cells)
}

/// Whether a line of characters holds a `|`.
pub fn is_row_chars(line: &Vec<char>) -> (b: bool)
    ensures
        b == is_row(line@),
{
    let trimmed = trim_chars(line, CharClass::Whitespace);
    let mut i: usize = 0;
    while i < trimmed.len()
        invariant
            i <= trimmed@.len(),
            trimmed@ == trim(line@),
            forall|j: int| 0 <= j < i ==> trimmed@[j] != '|',
        decreases trimmed@.len() - i,
    {
        if trimmed[i] == '|' {
            assert(trimmed@.contains('|')) by {
                assert(trimmed@[i as int] == '|');
            }
            return true;
        }
        i = i + 1;
    }
    false
}

/// Whether `line` (trimmed) holds a `|` and so may be a table line.
pub fn is_table_row(line: &str) -> (b: bool)
    ensures
        b == is_row(line@),
{
    let chars = chars_of(line);
    is_row_chars(&chars)
}

fn is_separator_cell_chars(cell: &Vec<char>) -> (b: bool)
    ensures
        b == is_separator_cell(cell@),
{
    let t = trim_chars(cell, CharClass::Whitespace);
    if t.len() == 0 {
        return false;
    }
    let mut i: usize = 0;
    while i < t.len()
        invariant
            i <= t@.len(),
            t@ == trim(cell@),
            forall|j: int| 0 <= j < i ==> (t@[j] == '-' || t@[j] == ':' || t@[j] == ' '),
        decreases t@.len() - i,
    {
        let ch = t[i];
        if !(ch == '-' || ch == ':' || ch == ' ') {
            return false;
        }
        i = i + 1;
    }
    true
}

/// Whether a line of characters is a table separator line.
pub fn is_separator_chars(line: &Vec<char>) -> (b: bool)
    ensures
        b == is_separator(line@),
{
    let cells = row_cells(line);
    if cells.len() == 0 {
        return false;
    }
    let mut k: usize = 0;
    while k < cells.len()
        invariant
            k <= cells@.len(),
            cells.deep_view() == parse_row(line@),
            forall|j: int| 0 <= j < k ==> is_separator_cell(#[trigger] parse_row(line@)[j]),
        decreases cells@.len() - k,
    {
        if !is_separator_cell_chars(&cells[k]) {
            assert(parse_row(line@)[k as int] == cells@[k as int]@);
            return false;
        }
        assert(parse_row(line@)[k as int] == cells@[k as int]@);
        k = k + 1;
    }
    true
}

/// Whether `line` separates a table's header from its rows, such as
/// `| --- | :-: |`.
pub fn is_table_separator(line: &str) -> (b: bool)
    ensures
        b == is_separator(line@),
{
    let chars = chars_of(line);
    is_separator_chars(&chars)
}

/// A piece of a section: markdown text, or a table with its header cells and
/// the cells of each row.
pub enum MarkdownBlock {
    Markdown(String),
    Table { headers: Vec<String>, rows: Vec<Vec<String>> },
}

/// What a `MarkdownBlock` holds, as character sequences.
pub enum BlockView {
    Markdown(Seq<char>),
    Table { headers: Seq<Seq<char>>, rows: Seq<Seq<Seq<char>>> },
}

impl DeepView for MarkdownBlock {
    type V = BlockView;

    open spec fn deep_view(&self) -> BlockView {
        match self {
            MarkdownBlock::Markdown(text) => BlockView::Markdown(text@),
            MarkdownBlock::Table { headers, rows } => BlockView::Table {
                headers: headers.deep_view(),
                rows: rows.deep_view(),
            },
        }
    }
}

/// A table starts at line `i`: it holds a `|`, the next line is a separator,
/// and it has at least two cells.
pub open spec fn table_starts_at(ls: Seq<Seq<char>>, i: int) -> bool {
    &&& 0 <= i
    &&& i + 1 < ls.len()
    &&& is_row(ls[i])
    &&& is_separator(ls[i + 1])
    &&& parse_row(ls[i]).len() >= 2
}

/// The first line at or after `j` that does not hold a `|` (or the end).
pub open spec fn rows_end(ls: Seq<Seq<char>>, j: int) -> int
    decreases ls.len() - j,
{
    if 0 <= j < ls.len() && is_row(ls[j]) {
        rows_end(ls, j + 1)
    } else {
        j
    }
}

pub proof fn lemma_rows_end(ls: Seq<Seq<char>>, j: int)
    requires
        0 <= j <= ls.len(),
    ensures
        j <= rows_end(ls, j) <= ls.len(),
        forall|m: int| j <= m < rows_end(ls, j) ==> is_row(#[trigger] ls[m]),
        rows_end(ls, j) < ls.len() ==> !is_row(ls[rows_end(ls, j)]),
    decreases ls.len() - j,
{
    if j < ls.len() && is_row(ls[j]) {
        lemma_rows_end(ls, j + 1);
    }
}

/// The pending markdown lines as a block, if there are any.
pub open spec fn flush(buf: Seq<Seq<char>>) -> Seq<BlockView> {
    if buf.len() > 0 {
        seq![BlockView::Markdown(join_lines(buf))]
    } else {
        Seq::empty()
    }
}

/// The table that starts at line `i` and whose rows end before line `e`.
pub open spec fn table_at(ls: Seq<Seq<char>>, i: int, e: int) -> BlockView {
    BlockView::Table {
        headers: parse_row(ls[i]),
        rows: Seq::new((e - (i + 2)) as nat, |k: int| parse_row(ls[i + 2 + k])),
    }
}

/// The blocks of `ls` from line `i` on, with the markdown lines `buf` pending.
pub open spec fn blocks_from(ls: Seq<Seq<char>>, i: int, buf: Seq<Seq<char>>) -> Seq<BlockView>
    decreases ls.len() - i,
{
    if i < 0 || i >= ls.len() {
        flush(buf)
    } else if table_starts_at(ls, i) {
        let e = rows_end(ls, i + 2);
        proof {
            lemma_rows_end(ls, i + 2);
        }
        flush(buf) + seq![table_at(ls, i, e)] + blocks_from(ls, e, Seq::empty())
    } else {
        blocks_from(ls, i + 1, buf.push(ls[i]))
    }
}

/// What `split_markdown_blocks` returns for `markdown`.
pub open spec fn markdown_blocks(markdown: Seq<char>) -> Seq<BlockView> {
    blocks_from(lines(markdown), 0, Seq::empty())
}

fn push_block(blocks: &mut Vec<MarkdownBlock>, b: MarkdownBlock)
    ensures
        final(blocks).deep_view() == old(blocks).deep_view().push(b.deep_view()),
{
    let ghost v = b.deep_view();
    blocks.push(b);
    assert(blocks.deep_view() =~= old(blocks).deep_view().push(v));
}

/// Cuts `markdown` into markdown blocks and table blocks (see the module
/// documentation), keeping their order.
pub fn split_markdown_blocks(markdown: &str) -> (r: Vec<MarkdownBlock>)
    ensures
        r.deep_view() == markdown_blocks(markdown@),
{
    let text = chars_of(markdown);
    let ls = lines_of(&text);
    let ghost lv = ls.deep_view();
    let mut i: usize = 0;
    let mut md_buf: Vec<Vec<char>> = Vec::new();
    let mut blocks: Vec<MarkdownBlock> = Vec::new();
    assert(blocks.deep_view() + blocks_from(lv, 0, md_buf.deep_view()) =~= blocks_from(
        lv,
        0,
        Seq::empty(),
    )) by {
        assert(blocks.deep_view() =~= Seq::<BlockView>::empty());
        assert(md_buf.deep_view() =~= Seq::<Seq<char>>::empty());
    }
    while i < ls.len()
        invariant
            i <= ls@.len(),
            lv == ls.deep_view(),
            blocks.deep_view() + blocks_from(lv, i as int, md_buf.deep_view()) == blocks_from(
                lv,
                0,
                Seq::empty(),
            ),
        decreases ls@.len() - i,
    {
        assert(lv[i as int] == ls@[i as int]@) by {
            assert(ls@[i as int].deep_view() =~= ls@[i as int]@);
        }
        let starts = i + 1 < ls.len() && is_row_chars(&ls[i]) && is_separator_chars(&ls[i + 1])
            && row_cells(&ls[i]).len() >= 2;
        if starts {
            assert(lv[i + 1] == ls@[i + 1]@) by {
                assert(ls@[i + 1].deep_view() =~= ls@[i + 1]@);
            }
            assert(table_starts_at(lv, i as int));
            let ghost rest = blocks_from(lv, i as int, md_buf.deep_view());
            let ghost e = rows_end(lv, i + 2);
            proof {
                lemma_rows_end(lv, i + 2);
            }
            let ghost i0 = i as int;
            let ghost before = blocks.deep_view();
            let ghost buf = md_buf.deep_view();
            if md_buf.len() > 0 {
                let joined = join_chars(&md_buf);
                push_block(&mut blocks, MarkdownBlock::Markdown(string_of(&joined)));
                md_buf = Vec::new();
            }
            assert(blocks.deep_view() == before + flush(buf));
            let headers = strings_of(&row_cells(&ls[i]));
            i = i + 2;
            let ghost start = i as int;
            let mut rows: Vec<Vec<String>> = Vec::new();
            while i < ls.len() && is_row_chars(&ls[i])
                invariant
                    start <= i <= ls@.len(),
                    lv == ls.deep_view(),
                    rows_end(lv, i as int) == e,
                    rows.deep_view() =~= Seq::new(
                        (i - start) as nat,
                        |k: int| parse_row(lv[start + k]),
                    ),
                decreases ls@.len() - i,
            {
                assert(lv[i as int] == ls@[i as int]@) by {
                    assert(ls@[i as int].deep_view() =~= ls@[i as int]@);
                }
                let cells = strings_of(&row_cells(&ls[i]));
                let ghost cv = cells.deep_view();
                let ghost rb = rows.deep_view();
                rows.push(cells);
                assert(rows.deep_view() =~= rb.push(cv));
                i = i + 1;
            }
            proof {
                if i < ls@.len() {
                    assert(lv[i as int] == ls@[i as int]@) by {
                        assert(ls@[i as int].deep_view() =~= ls@[i as int]@);
                    }
                }
                assert(i == e);
            }
            let ghost hv = headers.deep_view();
            let ghost rv = rows.deep_view();
            push_block(&mut blocks, MarkdownBlock::Table { headers, rows });
            proof {
                assert(hv == parse_row(lv[i0]));
                assert(BlockView::Table { headers: hv, rows: rv } == table_at(lv, i0, e));
                assert(md_buf.deep_view() =~= Seq::<Seq<char>>::empty());
                assert(blocks.deep_view() =~= before + flush(buf) + seq![table_at(lv, i0, e)]);
            }
            continue;
        }
        proof {
            if i + 1 < ls@.len() {
                assert(lv[i + 1] == ls@[i + 1]@) by {
                    assert(ls@[i + 1].deep_view() =~= ls@[i + 1]@);
                }
            }
            assert(!table_starts_at(lv, i as int));
        }
        let copy = copy_chars(&ls[i]);
        push_line(&mut md_buf, copy);
        i = i + 1;
    }
    let ghost before = blocks.deep_view();
    let ghost buf = md_buf.deep_view();
    if md_buf.len() > 0 {
        let joined = join_chars(&md_buf);
        push_block(&mut blocks, MarkdownBlock::Markdown(string_of(&joined)));
    }
    assert(blocks.deep_view() =~= before + flush(buf));
    blocks
}

proof fn lemma_blocks_tables_wide(ls: Seq<Seq<char>>, i: int, buf: Seq<Seq<char>>)
    requires
        0 <= i,
    ensures
        forall|k: int|
            0 <= k < blocks_from(ls, i, buf).len() ==> (#[trigger] blocks_from(ls, i, buf)[k] matches BlockView::Table { headers, .. } ==> headers.len() >= 2),
    decreases ls.len() - i,
{
    if i < ls.len() {
        if table_starts_at(ls, i) {
            let e = rows_end(ls, i + 2);
            lemma_rows_end(ls, i + 2);
            lemma_blocks_tables_wide(ls, e, Seq::empty());
            let head = flush(buf) + seq![table_at(ls, i, e)];
            let tail = blocks_from(ls, e, Seq::empty());
            assert forall|k: int| 0 <= k < blocks_from(ls, i, buf).len() implies (#[trigger] blocks_from(ls, i, buf)[k] matches BlockView::Table { headers, .. } ==> headers.len() >= 2) by {
                if k >= head.len() {
                    assert(blocks_from(ls, i, buf)[k] == tail[k - head.len()]);
                }
            }
        } else {
            lemma_blocks_tables_wide(ls, i + 1, buf.push(ls[i]));
        }
    }
}

/// Law: every table block has at least two header cells.
pub proof fn law_tables_have_two_headers(markdown: Seq<char>)
    ensures
        forall|k: int|
            0 <= k < markdown_blocks(markdown).len() ==> (#[trigger] markdown_blocks(markdown)[k] matches BlockView::Table { headers, .. } ==> headers.len() >= 2),
{
    lemma_blocks_tables_wide(lines(markdown), 0, Seq::empty());
}

proof fn lemma_blocks_without_rows(ls: Seq<Seq<char>>, i: int, buf: Seq<Seq<char>>)
    requires
        0 <= i <= ls.len(),
        forall|m: int| 0 <= m < ls.len() ==> !is_row(#[trigger] ls[m]),
    ensures
        blocks_from(ls, i, buf) == flush(buf + ls.skip(i)),
    decreases ls.len() - i,
{
    if i < ls.len() {
        assert(!is_row(ls[i]));
        lemma_blocks_without_rows(ls, i + 1, buf.push(ls[i]));
        assert(buf.push(ls[i]) + ls.skip(i + 1) =~= buf + ls.skip(i));
    } else {
        assert(buf + ls.skip(i) =~= buf);
    }
}

/// Law: text in which no line holds a `|` has no table: it is one markdown
/// block holding its lines joined with `\n` (or no block, when it has no lines).
pub proof fn law_text_without_pipes_is_one_block(markdown: Seq<char>)
    requires
        forall|m: int| 0 <= m < lines(markdown).len() ==> !is_row(#[trigger] lines(markdown)[m]),
    ensures
        markdown_blocks(markdown) == flush(lines(markdown)),
{
    let ls = lines(markdown);
    lemma_blocks_without_rows(ls, 0, Seq::empty());
    assert(Seq::<Seq<char>>::empty() + ls.skip(0) =~= ls);
}

/// The first line of a block's text.
pub open spec fn first_line(t: Seq<char>) -> Seq<char> {
    split_on(t, '\n')[0]
}

/// Neighbouring blocks alternate: a markdown block is followed by a table,
/// and a table by a markdown block whose first line holds no `|` (the rows of
/// a table run as far as they can).
pub open spec fn blocks_alternate(bs: Seq<BlockView>) -> bool {
    forall|k: int|
        0 <= k < bs.len() - 1 ==> {
            &&& (#[trigger] bs[k] is Markdown ==> bs[k + 1] is Table)
            &&& (bs[k] is Table ==> bs[k + 1] is Markdown && !is_row(
                first_line(bs[k + 1]->Markdown_0),
            ))
        }
}

proof fn lemma_flush_first_line(buf: Seq<Seq<char>>)
    requires
        buf.len() > 0,
        forall|j: int| 0 <= j < buf.len() ==> lacks(#[trigger] buf[j], '\n'),
    ensures
        flush(buf)[0] == BlockView::Markdown(join_lines(buf)),
        first_line(join_lines(buf)) == buf[0],
{
    lemma_split_join(buf);
}

proof fn lemma_blocks_alternate(ls: Seq<Seq<char>>, i: int, buf: Seq<Seq<char>>)
    requires
        0 <= i,
        forall|j: int| 0 <= j < ls.len() ==> lacks(#[trigger] ls[j], '\n'),
        forall|j: int| 0 <= j < buf.len() ==> lacks(#[trigger] buf[j], '\n'),
    ensures
        blocks_alternate(blocks_from(ls, i, buf)),
        buf.len() > 0 ==> blocks_from(ls, i, buf).len() > 0 && blocks_from(ls, i, buf)[0] is Markdown
            && first_line(blocks_from(ls, i, buf)[0]->Markdown_0) == buf[0],
        buf.len() == 0 && i < ls.len() && !is_row(ls[i]) ==> blocks_from(ls, i, buf).len() > 0
            && blocks_from(ls, i, buf)[0] is Markdown && first_line(
            blocks_from(ls, i, buf)[0]->Markdown_0,
        ) == ls[i],
    decreases ls.len() - i,
{
    let r = blocks_from(ls, i, buf);
    if i >= ls.len() {
        if buf.len() > 0 {
            lemma_flush_first_line(buf);
        }
    } else if table_starts_at(ls, i) {
        let e = rows_end(ls, i + 2);
        lemma_rows_end(ls, i + 2);
        let rest = blocks_from(ls, e, Seq::empty());
        lemma_blocks_alternate(ls, e, Seq::empty());
        let head = flush(buf) + seq![table_at(ls, i, e)];
        if buf.len() > 0 {
            lemma_flush_first_line(buf);
        }
        assert(r == head + rest);
        if rest.len() > 0 {
            assert(e < ls.len());
            assert(!is_row(ls[e]));
        }
        assert forall|k: int| 0 <= k < r.len() - 1 implies {
            &&& (#[trigger] r[k] is Markdown ==> r[k + 1] is Table)
            &&& (r[k] is Table ==> r[k + 1] is Markdown && !is_row(
                first_line(r[k + 1]->Markdown_0),
            ))
        } by {
            if k < head.len() - 1 {
                assert(r[k] == head[k] && r[k + 1] == head[k + 1]);
            } else if k == head.len() - 1 {
                assert(r[k] == table_at(ls, i, e));
                assert(r[k + 1] == rest[0]);
            } else {
                assert(r[k] == rest[k - head.len()]);
                assert(r[k + 1] == rest[k + 1 - head.len()]);
            }
        }
        if buf.len() > 0 {
            assert(r[0] == head[0]);
        }
    } else {
        let nb = buf.push(ls[i]);
        assert forall|j: int| 0 <= j < nb.len() implies lacks(#[trigger] nb[j], '\n') by {
            if j < buf.len() {
                assert(nb[j] == buf[j]);
            } else {
                assert(nb[j] == ls[i]);
            }
        }
        lemma_blocks_alternate(ls, i + 1, nb);
    }
}

/// Law: the blocks of a text alternate between markdown and tables, and the
/// markdown block after a table starts with a line that holds no `|`.
pub proof fn law_blocks_alternate(markdown: Seq<char>)
    ensures
        blocks_alternate(markdown_blocks(markdown)),
{
    lemma_lines_lack_newline(markdown);
    lemma_blocks_alternate(lines(markdown), 0, Seq::empty());
}

} // verus!
