//! What the viewer draws for a section: its non-blank markdown blocks and its
//! tables, numbered from 1, each shown with all of its cells.
use vstd::prelude::*;
use crate::tables::{markdown_blocks, split_markdown_blocks, BlockView, MarkdownBlock};
use crate::sections::Section;
use crate::text::{chars_of, trim, trims_to_empty};

verus! {

/// One thing to draw for a section.
pub enum RenderItem {
    /// Markdown text that is not blank.
    Markdown(String),
    /// The `ordinal`-th table of the section (counting from 1).
    Table { ordinal: usize, headers: Vec<String>, rows: Vec<Vec<String>> },
}

pub enum RenderItemView {
    Markdown(Seq<char>),
    Table { ordinal: nat, headers: Seq<Seq<char>>, rows: Seq<Seq<Seq<char>>> },
}

impl DeepView for RenderItem {
    type V = RenderItemView;

    open spec fn deep_view(&self) -> RenderItemView {
        match self {
            RenderItem::Markdown(text) => RenderItemView::Markdown(text@),
            RenderItem::Table { ordinal, headers, rows } => RenderItemView::Table {
                ordinal: *ordinal as nat,
                headers: headers.deep_view(),
                rows: rows.deep_view(),
            },
        }
    }
}

/// The number of table blocks in `blocks`.
pub open spec fn table_count(blocks: Seq<BlockView>) -> nat
    decreases blocks.len(),
{
    if blocks.len() == 0 {
        0
    } else {
        table_count(blocks.drop_last()) + if blocks.last() is Table {
            1nat
        } else {
            0nat
        }
    }
}

/// The items drawn for `blocks`: blank markdown blocks are skipped, and each
/// table carries its position among the tables.
pub open spec fn render_items(blocks: Seq<BlockView>) -> Seq<RenderItemView>
    decreases blocks.len(),
{
    if blocks.len() == 0 {
        Seq::empty()
    } else {
        let prev = render_items(blocks.drop_last());
        match blocks.last() {
            BlockView::Markdown(text) => if trim(text).len() == 0 {
                prev
            } else {
                prev.push(RenderItemView::Markdown(text))
            },
            BlockView::Table { headers, rows } => prev.push(
                RenderItemView::Table { ordinal: table_count(blocks), headers, rows },
            ),
        }
    }
}

proof fn lemma_table_count_bound(blocks: Seq<BlockView>)
    ensures
        table_count(blocks) <= blocks.len(),
    decreases blocks.len(),
{
    if blocks.len() > 0 {
        lemma_table_count_bound(blocks.drop_last());
    }
}

/// Law: no markdown item drawn is blank, and the tables drawn are numbered
/// 1, 2, ... in order.
pub proof fn law_render_items_shape(blocks: Seq<BlockView>)
    ensures
        forall|k: int|
            0 <= k < render_items(blocks).len() ==> (#[trigger] render_items(blocks)[k] matches RenderItemView::Markdown(t) ==> trim(t).len() > 0),
        forall|k: int|
            0 <= k < render_items(blocks).len() ==> (#[trigger] render_items(blocks)[k] matches RenderItemView::Table { ordinal, .. } ==> ordinal == table_items(render_items(blocks).take(k + 1))),
        table_items(render_items(blocks)) == table_count(blocks),
    decreases blocks.len(),
{
    if blocks.len() > 0 {
        let prev = blocks.drop_last();
        law_render_items_shape(prev);
        let p = render_items(prev);
        let r = render_items(blocks);
        assert forall|k: int| 0 <= k < p.len() implies #[trigger] r.take(k + 1) == p.take(k + 1) by {
            assert(r.take(k + 1) =~= p.take(k + 1));
        }
        if r.len() > p.len() {
            assert(r.take(r.len() as int) =~= r);
            assert(r.drop_last() =~= p);
            assert(p.take(p.len() as int) =~= p);
        }
    }
}

/// The number of table items in `items`.
pub open spec fn table_items(items: Seq<RenderItemView>) -> nat
    decreases items.len(),
{
    if items.len() == 0 {
        0
    } else {
        table_items(items.drop_last()) + if items.last() is Table {
            1nat
        } else {
            0nat
        }
    }
}

/// The non-blank markdown texts among `blocks`, in order.
pub open spec fn nonblank_texts(blocks: Seq<BlockView>) -> Seq<Seq<char>>
    decreases blocks.len(),
{
    if blocks.len() == 0 {
        Seq::empty()
    } else {
        nonblank_texts(blocks.drop_last()) + match blocks.last() {
            BlockView::Markdown(t) => if trim(t).len() > 0 {
                seq![t]
            } else {
                Seq::empty()
            },
            BlockView::Table { .. } => Seq::empty(),
        }
    }
}

/// The texts of the markdown items among `items`, in order.
pub open spec fn item_texts(items: Seq<RenderItemView>) -> Seq<Seq<char>>
    decreases items.len(),
{
    if items.len() == 0 {
        Seq::empty()
    } else {
        item_texts(items.drop_last()) + match items.last() {
            RenderItemView::Markdown(t) => seq![t],
            RenderItemView::Table { .. } => Seq::empty(),
        }
    }
}

/// The tables among `blocks`, in order.
pub open spec fn block_tables(blocks: Seq<BlockView>) -> Seq<(Seq<Seq<char>>, Seq<Seq<Seq<char>>>)>
    decreases blocks.len(),
{
    if blocks.len() == 0 {
        Seq::empty()
    } else {
        block_tables(blocks.drop_last()) + match blocks.last() {
            BlockView::Table { headers, rows } => seq![(headers, rows)],
            BlockView::Markdown(_) => Seq::empty(),
        }
    }
}

/// The tables among `items`, in order.
pub open spec fn item_tables(items: Seq<RenderItemView>) -> Seq<
    (Seq<Seq<char>>, Seq<Seq<Seq<char>>>),
>
    decreases items.len(),
{
    if items.len() == 0 {
        Seq::empty()
    } else {
        item_tables(items.drop_last()) + match items.last() {
            RenderItemView::Table { headers, rows, .. } => seq![(headers, rows)],
            RenderItemView::Markdown(_) => Seq::empty(),
        }
    }
}

/// Law: everything a section holds is drawn except blank text: the markdown
/// items are exactly the non-blank markdown blocks, in order, whatever tables
/// stand among them, and the table items are exactly the tables, in order.
pub proof fn law_render_items_keep_all_content(blocks: Seq<BlockView>)
    ensures
        item_texts(render_items(blocks)) == nonblank_texts(blocks),
        item_tables(render_items(blocks)) == block_tables(blocks),
        render_items(blocks).len() == nonblank_texts(blocks).len() + block_tables(blocks).len(),
    decreases blocks.len(),
{
    if blocks.len() > 0 {
        let prev = blocks.drop_last();
        law_render_items_keep_all_content(prev);
        let p = render_items(prev);
        let r = render_items(blocks);
        if r.len() > p.len() {
            assert(r.drop_last() =~= p);
            assert(item_texts(r) =~= nonblank_texts(blocks));
            assert(item_tables(r) =~= block_tables(blocks));
        } else {
            assert(item_texts(r) =~= nonblank_texts(blocks));
            assert(item_tables(r) =~= block_tables(blocks));
        }
    }
}

/// The items to draw for a section's text.
pub fn section_render_items(content: &str) -> (r: Vec<RenderItem>)
    ensures
        r.deep_view() == render_items(markdown_blocks(content@)),
{
    let blocks = split_markdown_blocks(content);
    let ghost bv = blocks.deep_view();
    let ghost bs = blocks@;
    let nb: usize = blocks.len();
    let mut items: Vec<RenderItem> = Vec::new();
    let mut table_idx: usize = 0;
    assert(bv.take(0) =~= Seq::<BlockView>::empty());
    for b in it: blocks
        invariant
            it.seq() == bs,
            bv.len() == bs.len(),
            bs.len() == nb,
            forall|k: int| 0 <= k < bs.len() ==> #[trigger] bv[k] == bs[k].deep_view(),
            table_idx == table_count(bv.take(it.index() as int)),
            table_idx <= it.index(),
            items.deep_view() == render_items(bv.take(it.index() as int)),
    {
        let ghost i = it.index() as int;
        proof {
            assert(bv.take(i + 1).drop_last() =~= bv.take(i));
            assert(bv.take(i + 1).last() == bv[i]);
            assert(b == bs[i]);
            lemma_table_count_bound(bv.take(i));
            assert(i < nb);
        }
        let ghost items0 = items.deep_view();
        match b {
            MarkdownBlock::Markdown(text) => {
                let chars = chars_of(text.as_str());
                if !trims_to_empty(&chars) {
                    let ghost tv = text@;
                    items.push(RenderItem::Markdown(text));
                    assert(items.deep_view() =~= items0.push(RenderItemView::Markdown(tv)));
                }
            },
            MarkdownBlock::Table { headers, rows } => {
                table_idx = table_idx + 1;
                let ghost hv = headers.deep_view();
                let ghost rv = rows.deep_view();
                items.push(RenderItem::Table { ordinal: table_idx, headers, rows });
                assert(items.deep_view() =~= items0.push(
                    RenderItemView::Table { ordinal: table_idx as nat, headers: hv, rows: rv },
                ));
            },
        }
    }
    let ghost n = bv.len();
    assert(bv.take(n as int) =~= bv);
    items
}

/// The items to draw for each section, in order: one list per section, the
/// items of its text (see `section_render_items`).
pub fn sections_render_items(sections: &Vec<Section>) -> (r: Vec<Vec<RenderItem>>)
    ensures
        r@.len() == sections@.len(),
        forall|i: int|
            0 <= i < sections@.len() ==> #[trigger] r@[i].deep_view() == render_items(
                markdown_blocks(sections@[i].content@),
            ),
{
    let mut out: Vec<Vec<RenderItem>> = Vec::new();
    let mut i: usize = 0;
    while i < sections.len()
        invariant
            i <= sections@.len(),
            out@.len() == i,
            forall|m: int|
                0 <= m < i ==> #[trigger] out@[m].deep_view() == render_items(
                    markdown_blocks(sections@[m].content@),
                ),
        decreases sections@.len() - i,
    {
        out.push(section_render_items(sections[i].content.as_str()));
        i = i + 1;
    }
    out
}

/// A table as the viewer shows it: every header cell, and every row with as
/// many cells as there are headers (or more, when the row has more).
pub struct TableView {
    pub headers: Vec<String>,
    pub rows: Vec<Vec<String>>,
}

pub struct TableViewView {
    pub headers: Seq<Seq<char>>,
    pub rows: Seq<Seq<Seq<char>>>,
}

impl DeepView for TableView {
    type V = TableViewView;

    open spec fn deep_view(&self) -> TableViewView {
        TableViewView { headers: self.headers.deep_view(), rows: self.rows.deep_view() }
    }
}

/// `cells` followed by empty cells up to `n` cells; a longer row is kept whole.
pub open spec fn pad(cells: Seq<Seq<char>>, n: int) -> Seq<Seq<char>> {
    if cells.len() >= n {
        cells
    } else {
        cells + Seq::new((n - cells.len()) as nat, |i: int| Seq::<char>::empty())
    }
}

/// What `table_view` returns: nothing for a table without headers; otherwise
/// all header cells in order and each row, in order, padded with empty cells
/// to the number of headers.
pub open spec fn shown_table(headers: Seq<Seq<char>>, rows: Seq<Seq<Seq<char>>>) -> Option<
    TableViewView,
> {
    if headers.len() == 0 {
        None
    } else {
        Some(
            TableViewView {
                headers,
                rows: Seq::new(rows.len(), |k: int| pad(rows[k], headers.len() as int)),
            },
        )
    }
}

fn copy_strings(cells: &Vec<String>) -> (r: Vec<String>)
    ensures
        r.deep_view() == cells.deep_view(),
{
    let mut out: Vec<String> = Vec::new();
    let mut i: usize = 0;
    while i < cells.len()
        invariant
            i <= cells@.len(),
            out.deep_view() =~= cells.deep_view().take(i as int),
        decreases cells@.len() - i,
    {
        let ghost before = out.deep_view();
        out.push(cells[i].clone());
        assert(out.deep_view() =~= before.push(cells@[i as int]@));
        i = i + 1;
    }
    assert(cells.deep_view().take(cells@.len() as int) =~= cells.deep_view());
    out
}

/// A copy of `cells` padded with empty cells to `n` cells.
fn padded_row(cells: &Vec<String>, n: usize) -> (r: Vec<String>)
    ensures
        r.deep_view() == pad(cells.deep_view(), n as int),
{
    let mut out = copy_strings(cells);
    if cells.len() >= n {
        return out;
    }
    let ghost start = out.deep_view();
    let mut i: usize = cells.len();
    assert(out.deep_view() =~= start + Seq::new(0, |j: int| Seq::<char>::empty()));
    while i < n
        invariant
            cells@.len() <= i <= n,
            start == cells.deep_view(),
            out.deep_view() =~= start + Seq::new(
                (i - cells@.len()) as nat,
                |j: int| Seq::<char>::empty(),
            ),
        decreases n - i,
    {
        let ghost before = out.deep_view();
        let e = String::new();
        let ghost ev = e@;
        out.push(e);
        assert(out.deep_view() =~= before.push(ev));
        i = i + 1;
        assert(out.deep_view() =~= start + Seq::new(
            (i - cells@.len()) as nat,
            |j: int| Seq::<char>::empty(),
        ));
    }
    out
}

/// The table that the viewer shows (see `shown_table`): no cell is dropped.
pub fn table_view(headers: &Vec<String>, rows: &Vec<Vec<String>>) -> (r: Option<TableView>)
    ensures
        r is None <==> headers@.len() == 0,
        r matches Some(t) ==> shown_table(headers.deep_view(), rows.deep_view()) == Some(
            t.deep_view(),
        ),
{
    if headers.len() == 0 {
        return None;
    }
    let n = headers.len();
    let mut out: Vec<Vec<String>> = Vec::new();
    let mut k: usize = 0;
    while k < rows.len()
        invariant
            k <= rows@.len(),
            n == headers@.len(),
            out.deep_view() =~= Seq::new(
                k as nat,
                |m: int| pad(rows.deep_view()[m], n as int),
            ),
        decreases rows@.len() - k,
    {
        let row = padded_row(&rows[k], n);
        let ghost before = out.deep_view();
        let ghost rv = row.deep_view();
        out.push(row);
        assert(out.deep_view() =~= before.push(rv));
        k = k + 1;
    }
    let t = TableView { headers: copy_strings(headers), rows: out };
    assert(t.deep_view() == shown_table(headers.deep_view(), rows.deep_view())->Some_0);
    Some(t)
}

} // verus!
