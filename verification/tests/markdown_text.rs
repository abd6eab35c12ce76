use md_viewer_rs::normalize::normalize_markdown_for_viewer;
use md_viewer_rs::sections::split_markdown_sections;

#[test]
fn normalize_keeps_plain_text() {
    assert_eq!(normalize_markdown_for_viewer("Hello\nWorld"), "Hello\nWorld");
}

#[test]
fn normalize_drops_line_endings() {
    assert_eq!(normalize_markdown_for_viewer("a\r\nb\n"), "a\nb");
    assert_eq!(normalize_markdown_for_viewer("a\r"), "a\r");
    assert_eq!(normalize_markdown_for_viewer(""), "");
    assert_eq!(normalize_markdown_for_viewer("\n"), "");
}

#[test]
fn normalize_pads_and_indents_plain_fences() {
    assert_eq!(
        normalize_markdown_for_viewer("```rust\nlet x = 1;\n```"),
        "```rust\n\n  let x = 1;\n\n```"
    );
}

#[test]
fn normalize_unindents_shifted_fences() {
    assert_eq!(
        normalize_markdown_for_viewer("- item\n  ```\n  code\n  ```\nafter"),
        "- item\n```\ncode\n```\nafter"
    );
}

#[test]
fn normalize_closes_shifted_fence_at_any_fence_line() {
    assert_eq!(normalize_markdown_for_viewer("  ```\n    x\n```\ny"), "```\n  x\n```\ny");
}

#[test]
fn normalize_unclosed_fence_indents_to_the_end() {
    assert_eq!(normalize_markdown_for_viewer("```\na\nb"), "```\n\n  a\n  b");
}

#[test]
fn sections_split_at_headings() {
    let s = split_markdown_sections("Intro\n# One\ntext\n## Two\nmore");
    assert_eq!(s.len(), 3);
    assert_eq!((s[0].title.as_str(), s[0].content.as_str(), s[0].level), ("Document", "Intro", 1));
    assert_eq!((s[1].title.as_str(), s[1].content.as_str(), s[1].level), ("One", "# One\ntext", 1));
    assert_eq!((s[2].title.as_str(), s[2].content.as_str(), s[2].level), ("Two", "## Two\nmore", 2));
}

#[test]
fn sections_title_is_trimmed_heading_text() {
    let s = split_markdown_sections("# Title  \nbody");
    assert_eq!(s.len(), 1);
    assert_eq!(s[0].title, "Title");
    assert_eq!(s[0].content, "# Title  \nbody");
    assert_eq!(s[0].level, 1);
}

#[test]
fn sections_of_empty_text() {
    let s = split_markdown_sections("");
    assert_eq!(s.len(), 1);
    assert_eq!((s[0].title.as_str(), s[0].content.as_str(), s[0].level), ("Document", "", 1));
}

#[test]
fn sections_ignore_non_headings() {
    let s = split_markdown_sections("#NoSpace\n##### Five");
    assert_eq!(s.len(), 1);
    assert_eq!(s[0].title, "Document");
    assert_eq!(s[0].content, "#NoSpace\n##### Five");
}

#[test]
fn sections_indented_heading_levels() {
    let s = split_markdown_sections("   ### Indented\n#### Deep\nx");
    assert_eq!(s.len(), 2);
    assert_eq!((s[0].title.as_str(), s[0].level), ("Indented", 3));
    assert_eq!(s[0].content, "   ### Indented");
    assert_eq!((s[1].title.as_str(), s[1].level), ("Deep", 4));
    assert_eq!(s[1].content, "#### Deep\nx");
}

#[test]
fn sections_keep_the_text() {
    let text = "a\n# b\nc\n## d\n\ne";
    let s = split_markdown_sections(text);
    let joined: Vec<&str> = s.iter().map(|x| x.content.as_str()).collect();
    assert_eq!(joined.join("\n"), text);
}

#[test]
fn sections_trim_unicode_whitespace() {
    let s = split_markdown_sections("\u{a0}# Wide\u{2003}\nbody");
    assert_eq!(s.len(), 1);
    assert_eq!((s[0].title.as_str(), s[0].level), ("Wide", 1));
    assert_eq!(s[0].content, "\u{a0}# Wide\u{2003}\nbody");
}

#[test]
fn normalize_changes_only_indentation_and_blank_lines() {
    let input = "# T\n- item\n  ```\n  code\n  ```\n```\nx\n```\r\nend";
    let out = normalize_markdown_for_viewer(input);
    let visible = |lines: Vec<&str>| -> Vec<String> {
        lines
            .into_iter()
            .map(|l| l.trim_start().to_string())
            .filter(|l| !l.is_empty())
            .collect()
    };
    assert_eq!(visible(out.split('\n').collect()), visible(input.lines().collect()));
}
