use md_viewer_rs::render::{section_render_items, sections_render_items, table_view, RenderItem};
use md_viewer_rs::sections::split_markdown_sections;
use md_viewer_rs::tables::{
    is_table_row, is_table_separator, parse_table_row, split_markdown_blocks, MarkdownBlock,
};

fn strs(v: &[&str]) -> Vec<String> {
    v.iter().map(|s| s.to_string()).collect()
}

#[test]
fn table_row_cells() {
    assert_eq!(parse_table_row("| a | b |"), strs(&["a", "b"]));
    assert_eq!(parse_table_row("a|b"), strs(&["a", "b"]));
    assert_eq!(parse_table_row("||x||"), strs(&["x"]));
    assert_eq!(parse_table_row("| a || b |"), strs(&["a", "", "b"]));
    assert_eq!(parse_table_row(""), strs(&[""]));
}

#[test]
fn table_row_needs_a_pipe() {
    assert!(!is_table_row("no pipes"));
    assert!(is_table_row("a | b"));
    assert!(!is_table_row("   "));
}

#[test]
fn table_separator_lines() {
    assert!(is_table_separator("|---|:-:|"));
    assert!(is_table_separator("- | -"));
    assert!(!is_table_separator("| --- | abc |"));
    assert!(!is_table_separator("|  |"));
}

#[test]
fn blocks_with_a_table_between_text() {
    let b = split_markdown_blocks("intro\n| h1 | h2 |\n|---|---|\n| a | b |\n| c | d |\nafter");
    assert_eq!(b.len(), 3);
    match &b[0] {
        MarkdownBlock::Markdown(t) => assert_eq!(t, "intro"),
        _ => panic!("expected markdown"),
    }
    match &b[1] {
        MarkdownBlock::Table { headers, rows } => {
            assert_eq!(headers, &strs(&["h1", "h2"]));
            assert_eq!(rows, &vec![strs(&["a", "b"]), strs(&["c", "d"])]);
        }
        _ => panic!("expected table"),
    }
    match &b[2] {
        MarkdownBlock::Markdown(t) => assert_eq!(t, "after"),
        _ => panic!("expected markdown"),
    }
}

#[test]
fn one_column_table_stays_markdown() {
    let b = split_markdown_blocks("| h |\n|---|\n| a |");
    assert_eq!(b.len(), 1);
    match &b[0] {
        MarkdownBlock::Markdown(t) => assert_eq!(t, "| h |\n|---|\n| a |"),
        _ => panic!("expected markdown"),
    }
}

#[test]
fn table_without_rows_at_the_end() {
    let b = split_markdown_blocks("| a | b |\n| - | - |");
    assert_eq!(b.len(), 1);
    match &b[0] {
        MarkdownBlock::Table { headers, rows } => {
            assert_eq!(headers, &strs(&["a", "b"]));
            assert!(rows.is_empty());
        }
        _ => panic!("expected table"),
    }
}

#[test]
fn blocks_of_empty_text() {
    assert!(split_markdown_blocks("").is_empty());
}

#[test]
fn render_items_skip_blank_text_and_number_tables() {
    let items = section_render_items("text\n\n| a | b |\n|--|--|\n| 1 | 2 |\n   \n| c | d |\n|-|-|");
    assert_eq!(items.len(), 3);
    match &items[0] {
        RenderItem::Markdown(t) => assert_eq!(t, "text\n"),
        _ => panic!("expected markdown"),
    }
    match &items[1] {
        RenderItem::Table { ordinal, headers, rows } => {
            assert_eq!(*ordinal, 1);
            assert_eq!(headers, &strs(&["a", "b"]));
            assert_eq!(rows, &vec![strs(&["1", "2"])]);
        }
        _ => panic!("expected table"),
    }
    match &items[2] {
        RenderItem::Table { ordinal, headers, rows } => {
            assert_eq!(*ordinal, 2);
            assert_eq!(headers, &strs(&["c", "d"]));
            assert!(rows.is_empty());
        }
        _ => panic!("expected table"),
    }
}

#[test]
fn table_view_keeps_every_cell() {
    assert!(table_view(&vec![], &vec![strs(&["x"])]).is_none());
    let t = table_view(&strs(&["h1", "h2"]), &vec![strs(&["x"]), strs(&["y", "z", "w"])]).unwrap();
    assert_eq!(t.headers, strs(&["h1", "h2"]));
    assert_eq!(t.rows, vec![strs(&["x", ""]), strs(&["y", "z", "w"])]);
}

#[test]
fn table_view_three_columns() {
    let b = split_markdown_blocks("| a | b | c |\n|---|---|---|\n| 1 | 2 | 3 |\n| 4 |");
    match &b[0] {
        MarkdownBlock::Table { headers, rows } => {
            let t = table_view(headers, rows).unwrap();
            assert_eq!(t.headers, strs(&["a", "b", "c"]));
            assert_eq!(t.rows, vec![strs(&["1", "2", "3"]), strs(&["4", "", ""])]);
        }
        _ => panic!("expected table"),
    }
}

#[test]
fn text_without_pipes_is_one_block() {
    let b = split_markdown_blocks("a\n\nb - c\r\n");
    assert_eq!(b.len(), 1);
    match &b[0] {
        MarkdownBlock::Markdown(t) => assert_eq!(t, "a\n\nb - c"),
        _ => panic!("expected markdown"),
    }
}

#[test]
fn render_items_per_section() {
    let sections = split_markdown_sections("# A\n\n# B\n| x | y |\n|-|-|");
    let plans = sections_render_items(&sections);
    assert_eq!(plans.len(), 2);
    assert_eq!(plans[0].len(), 1);
    match &plans[1][1] {
        RenderItem::Table { ordinal, headers, .. } => {
            assert_eq!(*ordinal, 1);
            assert_eq!(headers, &strs(&["x", "y"]));
        }
        _ => panic!("expected table"),
    }
}

#[test]
fn blocks_alternate_and_row_runs_are_maximal() {
    let b = split_markdown_blocks("| a | b |\n|-|-|\n| 1 | 2 |\nplain\n| c | d |\n|-|-|");
    assert_eq!(b.len(), 3);
    assert!(matches!(b[0], MarkdownBlock::Table { .. }));
    match &b[1] {
        MarkdownBlock::Markdown(t) => {
            assert_eq!(t, "plain");
            assert!(!is_table_row(t.split('\n').next().unwrap()));
        }
        _ => panic!("expected markdown"),
    }
    assert!(matches!(b[2], MarkdownBlock::Table { .. }));
}
