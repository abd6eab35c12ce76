//! Splitting a document into the sections listed in the table of contents.
//!
//! A line whose text (after leading whitespace) starts with `# `, `## `,
//! `### ` or `#### ` is a heading of level 1 to 4. Every heading starts a new
//! section; lines before the first heading form a section titled `Document`.
use vstd::prelude::*;
use crate::text::{
    chars_of, copy_chars, join_chars, lacks, lemma_lines_lack_newline, lemma_split_join, split_on, join_lines, lemma_join_concat, lemma_join_lines_of_plain_text, lines, lines_of, push_line, starts_with, string_of,
    strip_prefix, strip_prefix_chars, trim, trim_chars, trim_start, trim_start_chars, CharClass,
};

verus! {

/// A section of a document: its title, its text, and its heading level.
pub struct Section {
    pub title: String,
    pub content: String,
    pub level: u8,
}

/// What a `Section` holds, as character sequences.
pub struct SectionView {
    pub title: Seq<char>,
    pub content: Seq<char>,
    pub level: u8,
}

impl DeepView for Section {
    type V = SectionView;

    open spec fn deep_view(&self) -> SectionView {
        SectionView { title: self.title@, content: self.content@, level: self.level }
    }
}

/// The title of the section before the first heading.
pub open spec fn document_title() -> Seq<char> {
    seq!['D', 'o', 'c', 'u', 'm', 'e', 'n', 't']
}

/// `level` number signs followed by a space.
pub open spec fn heading_marker(level: u8) -> Seq<char> {
    Seq::new(level as nat, |i: int| '#').push(' ')
}

/// The level and the text after the marker, where `line` is a heading.
pub open spec fn heading_of(line: Seq<char>) -> Option<(u8, Seq<char>)> {
    let t = trim_start(line);
    if starts_with(t, heading_marker(1)) {
        Some((1u8, t.skip(2)))
    } else if starts_with(t, heading_marker(2)) {
        Some((2u8, t.skip(3)))
    } else if starts_with(t, heading_marker(3)) {
        Some((3u8, t.skip(4)))
    } else if starts_with(t, heading_marker(4)) {
        Some((4u8, t.skip(5)))
    } else {
        None
    }
}

/// The lines of one section, with its title and level.
pub struct LineGroup {
    pub title: Seq<char>,
    pub level: u8,
    pub lines: Seq<Seq<char>>,
}

/// The sections of `ls` as groups of consecutive lines: each heading starts
/// a group titled by its trimmed text; a first group without a heading is
/// titled `Document` at level 1.
pub open spec fn section_groups(ls: Seq<Seq<char>>) -> Seq<LineGroup>
    decreases ls.len(),
{
    if ls.len() == 0 {
        Seq::empty()
    } else {
        let prev = section_groups(ls.drop_last());
        let l = ls.last();
        match heading_of(l) {
            Some((level, rest)) => prev.push(LineGroup { title: trim(rest), level, lines: seq![l] }),
            None => if prev.len() == 0 {
                seq![LineGroup { title: document_title(), level: 1, lines: seq![l] }]
            } else {
                let g = prev.last();
                prev.update(
                    prev.len() - 1,
                    LineGroup { title: g.title, level: g.level, lines: g.lines.push(l) },
                )
            },
        }
    }
}

pub open spec fn group_section(g: LineGroup) -> SectionView {
    SectionView { title: g.title, content: join_lines(g.lines), level: g.level }
}

/// What `split_markdown_sections` returns for `markdown`: one section per
/// line group, or, for text without lines, one `Document` section holding it.
pub open spec fn split_sections(markdown: Seq<char>) -> Seq<SectionView> {
    let g = section_groups(lines(markdown));
    if g.len() == 0 {
        seq![SectionView { title: document_title(), content: markdown, level: 1 }]
    } else {
        Seq::new(g.len(), |k: int| group_section(g[k]))
    }
}

fn heading_marker_chars(level: u8) -> (r: Vec<char>)
    requires
        1 <= level <= 4,
    ensures
        r@ == heading_marker(level),
{
    let mut r: Vec<char> = Vec::new();
    let mut i: u8 = 0;
    while i < level
        invariant
            i <= level,
            r@ == Seq::new(i as nat, |j: int| '#'),
        decreases level - i,
    {
        r.push('#');
        i = i + 1;
        assert(r@ =~= Seq::new(i as nat, |j: int| '#'));
    }
    r.push(' ');
    r
}

/// The heading level and text of `line`, where it is a heading.
fn heading_chars(line: &Vec<char>) -> (r: Option<(u8, Vec<char>)>)
    ensures
        r matches Some((level, rest)) ==> heading_of(line@) == Some((level, rest@)),
        r is None ==> heading_of(line@) is None,
{
    let trimmed = trim_start_chars(line);
    let mut level: u8 = 1;
    while level <= 4
        invariant
            1 <= level <= 5,
            trimmed@ == trim_start(line@),
            forall|k: u8| 1 <= k < level ==> !starts_with(trimmed@, #[trigger] heading_marker(k)),
        decreases 5 - level,
    {
        let marker = heading_marker_chars(level);
        match strip_prefix_chars(&trimmed, &marker) {
            Some(rest) => {
                assert(marker@.len() == level + 1);
                return Some((level, rest));
            },
            None => {},
        }
        level = level + 1;
    }
    assert(!starts_with(trimmed@, heading_marker(1)));
    assert(!starts_with(trimmed@, heading_marker(2)));
    assert(!starts_with(trimmed@, heading_marker(3)));
    assert(!starts_with(trimmed@, heading_marker(4)));
    None
}

fn document_title_chars() -> (r: Vec<char>)
    ensures
        r@ == document_title(),
{
    let r: Vec<char> = vec!['D', 'o', 'c', 'u', 'm', 'e', 'n', 't'];
    r
}

/// Splits `markdown` into sections at its heading lines (see the module
/// documentation). The result is never empty.
pub fn split_markdown_sections(markdown: &str) -> (r: Vec<Section>)
    ensures
        r.deep_view() == split_sections(markdown@),
        r@.len() >= 1,
{
    let text = chars_of(markdown);
    let ls = lines_of(&text);
    let mut sections: Vec<Section> = Vec::new();
    let mut current_title = document_title_chars();
    let mut current_level: u8 = 1;
    let mut current: Vec<Vec<char>> = Vec::new();
    let mut i: usize = 0;
    while i < ls.len()
        invariant
            i <= ls@.len(),
            ({
                let g = section_groups(ls.deep_view().take(i as int));
                &&& i == 0 ==> g.len() == 0 && sections@.len() == 0 && current@.len() == 0
                    && current_title@ == document_title() && current_level == 1
                &&& i > 0 ==> {
                    &&& current@.len() > 0
                    &&& g.len() == sections@.len() + 1
                    &&& forall|k: int|
                        0 <= k < sections@.len() ==> #[trigger] sections@[k].deep_view()
                            == group_section(g[k])
                    &&& g.last() == LineGroup {
                        title: current_title@,
                        level: current_level,
                        lines: current.deep_view(),
                    }
                }
            }),
        decreases ls@.len() - i,
    {
        let line = &ls[i];
        let ghost prev = section_groups(ls.deep_view().take(i as int));
        proof {
            let t = ls.deep_view().take(i + 1);
            assert(t.drop_last() =~= ls.deep_view().take(i as int));
            assert(t.last() =~= line@);
        }
        match heading_chars(line) {
            Some((level, rest)) => {
                if current.len() > 0 {
                    let content = join_chars(&current);
                    let ghost before = sections@;
                    sections.push(
                        Section {
                            title: string_of(&current_title),
                            content: string_of(&content),
                            level: current_level,
                        },
                    );
                    assert(sections@ == before.push(sections@.last()));
                    current = Vec::new();
                }
                assert(current.deep_view().len() == 0);
                current_title = trim_chars(&rest, CharClass::Whitespace);
                current_level = level;
            },
            None => {},
        }
        let copy = copy_chars(line);
        let ghost cur_before = current.deep_view();
        push_line(&mut current, copy);
        proof {
            if cur_before.len() == 0 {
                assert(current.deep_view() =~= seq![line@]);
            }
        }
        i = i + 1;
        proof {
            let g = section_groups(ls.deep_view().take(i as int));
            assert(current.deep_view().len() >= 1);
            if prev.len() > 0 {
                assert forall|k: int| 0 <= k < sections@.len() implies #[trigger] sections@[
                    k
                ].deep_view() == group_section(g[k]) by {
                    assert(g[k] == prev[k]);
                }
            }
            assert(g.last() == LineGroup {
                title: current_title@,
                level: current_level,
                lines: current.deep_view(),
            });
        }
    }
    assert(ls.deep_view().take(ls@.len() as int) =~= ls.deep_view());
    let ghost before = sections@;
    if current.len() > 0 {
        let content = join_chars(&current);
        sections.push(
            Section {
                title: string_of(&current_title),
                content: string_of(&content),
                level: current_level,
            },
        );
    }
    if sections.len() == 0 {
        sections.push(
            Section {
                title: string_of(&document_title_chars()),
                content: string_of(&text),
                level: 1,
            },
        );
    }
    proof {
        let g = section_groups(lines(markdown@));
        if g.len() > 0 {
            assert(ls@.len() > 0);
            assert forall|k: int| 0 <= k < g.len() implies #[trigger] sections.deep_view()[k]
                == group_section(g[k]) by {
                if k < before.len() {
                    assert(sections@[k] == before[k]);
                }
            }
            assert(sections.deep_view() =~= split_sections(markdown@));
        } else {
            law_sections_partition_lines(ls.deep_view());
            assert(before.len() == 0);
            assert(sections.deep_view() =~= split_sections(markdown@));
        }
    }
    sections
}

/// The lines of the groups `g`, in order.
pub open spec fn concat_group_lines(g: Seq<LineGroup>) -> Seq<Seq<char>>
    decreases g.len(),
{
    if g.len() == 0 {
        Seq::empty()
    } else {
        concat_group_lines(g.drop_last()) + g.last().lines
    }
}

/// A group is well formed: it has lines, only its first line may be a
/// heading, and its title and level are that heading's; a group that does not
/// start with a heading is the first one, titled `Document` at level 1.
pub open spec fn group_well_formed(g: Seq<LineGroup>, k: int) -> bool {
    let grp = g[k];
    &&& grp.lines.len() >= 1
    &&& forall|j: int| 1 <= j < grp.lines.len() ==> heading_of(#[trigger] grp.lines[j]) is None
    &&& match heading_of(grp.lines[0]) {
        Some((level, rest)) => grp.title == trim(rest) && grp.level == level,
        None => k == 0 && grp.title == document_title() && grp.level == 1,
    }
}

proof fn lemma_concat_update_last(g: Seq<LineGroup>, grp: LineGroup, l: Seq<char>)
    requires
        g.len() >= 1,
        grp.lines == g.last().lines.push(l),
    ensures
        concat_group_lines(g.update(g.len() - 1, grp)) == concat_group_lines(g).push(l),
{
    let u = g.update(g.len() - 1, grp);
    assert(u.drop_last() =~= g.drop_last());
    assert(concat_group_lines(u) =~= concat_group_lines(g).push(l));
}

/// Law: the sections of a text are consecutive runs of its lines that together
/// hold every line once and in order; each starts at a heading, except a first
/// run before any heading, which is titled `Document` at level 1; no other line
/// of a run is a heading; the title is the heading's text, trimmed.
pub proof fn law_sections_partition_lines(ls: Seq<Seq<char>>)
    ensures
        concat_group_lines(section_groups(ls)) == ls,
        forall|k: int|
            0 <= k < section_groups(ls).len() ==> group_well_formed(section_groups(ls), k),
        ls.len() > 0 ==> section_groups(ls).len() > 0,
    decreases ls.len(),
{
    if ls.len() > 0 {
        let prev = section_groups(ls.drop_last());
        law_sections_partition_lines(ls.drop_last());
        let l = ls.last();
        let g = section_groups(ls);
        assert(ls.drop_last().push(l) =~= ls);
        match heading_of(l) {
            Some((level, rest)) => {
                assert(g.drop_last() =~= prev);
                assert forall|k: int| 0 <= k < g.len() implies group_well_formed(g, k) by {
                    if k < prev.len() {
                        assert(g[k] == prev[k]);
                        assert(group_well_formed(prev, k));
                    }
                }
            },
            None => {
                if prev.len() == 0 {
                    assert(ls.drop_last() =~= Seq::<Seq<char>>::empty());
                    assert(concat_group_lines(g) =~= concat_group_lines(g.drop_last()) + g.last().lines);
                    assert(g.drop_last() =~= Seq::<LineGroup>::empty());
                    assert(concat_group_lines(g) =~= ls);
                } else {
                    let last = prev.last();
                    let grp = LineGroup { title: last.title, level: last.level, lines: last.lines.push(l) };
                    lemma_concat_update_last(prev, grp, l);
                    assert forall|k: int| 0 <= k < g.len() implies group_well_formed(g, k) by {
                        assert(group_well_formed(prev, k));
                        if k == prev.len() - 1 {
                            assert(g[k].lines[0] == prev[k].lines[0]);
                            assert forall|j: int| 1 <= j < g[k].lines.len() implies heading_of(
                                #[trigger] g[k].lines[j],
                            ) is None by {
                                if j < prev[k].lines.len() {
                                    assert(g[k].lines[j] == prev[k].lines[j]);
                                }
                            }
                        } else {
                            assert(g[k] == prev[k]);
                        }
                    }
                }
            },
        }
    }
}

proof fn lemma_groups_lack_newline(ls: Seq<Seq<char>>)
    requires
        forall|i: int| 0 <= i < ls.len() ==> lacks(#[trigger] ls[i], '\n'),
    ensures
        forall|k: int, j: int|
            0 <= k < section_groups(ls).len() && 0 <= j < section_groups(ls)[k].lines.len()
                ==> lacks(#[trigger] section_groups(ls)[k].lines[j], '\n'),
    decreases ls.len(),
{
    if ls.len() > 0 {
        let init = ls.drop_last();
        assert forall|i: int| 0 <= i < init.len() implies lacks(#[trigger] init[i], '\n') by {
            assert(init[i] == ls[i]);
        }
        lemma_groups_lack_newline(init);
        let prev = section_groups(init);
        let g = section_groups(ls);
        let l = ls.last();
        assert(lacks(ls[ls.len() - 1], '\n'));
        assert forall|k: int, j: int|
            0 <= k < g.len() && 0 <= j < g[k].lines.len() implies lacks(
                #[trigger] g[k].lines[j],
                '\n',
            ) by {
            if k < prev.len() && j < prev[k].lines.len() {
                assert(lacks(prev[k].lines[j], '\n'));
                if heading_of(l) is Some || k < prev.len() - 1 {
                    assert(g[k] == prev[k]);
                } else {
                    assert(g[k].lines[j] == prev[k].lines[j]);
                }
            } else {
                assert(g[k].lines[j] == l);
            }
        }
    }
}

/// Section `k` of `secs` starts where it should: the first line of its text
/// is its heading, with the section's title and level, or else it is the
/// first section, titled `Document` at level 1; no other line of its text is a
/// heading.
pub open spec fn section_starts_right(secs: Seq<SectionView>, k: int) -> bool {
    let sec = secs[k];
    let ls = split_on(sec.content, '\n');
    &&& forall|j: int| 1 <= j < ls.len() ==> heading_of(#[trigger] ls[j]) is None
    &&& match heading_of(ls[0]) {
        Some((level, rest)) => sec.title == trim(rest) && sec.level == level,
        None => k == 0 && sec.title == document_title() && sec.level == 1,
    }
}

/// Law: every section starts at its heading (see `section_starts_right`),
/// the lines of a section's text being its text split at `\n`.
pub proof fn law_sections_start_at_their_headings(markdown: Seq<char>)
    ensures
        forall|k: int|
            0 <= k < split_sections(markdown).len() ==> section_starts_right(
                split_sections(markdown),
                k,
            ),
{
    let ls = lines(markdown);
    let g = section_groups(ls);
    let secs = split_sections(markdown);
    law_sections_partition_lines(ls);
    if g.len() == 0 {
        crate::text::lemma_no_lines_only_for_empty_text(markdown);
        let e = Seq::<char>::empty();
        assert(markdown =~= e);
        assert(split_on(e, '\n') == seq![e]);
        assert(trim_start(e) =~= e);
        assert(heading_marker(1).len() == 2);
        assert(heading_marker(2).len() == 3);
        assert(heading_marker(3).len() == 4);
        assert(heading_marker(4).len() == 5);
        assert(heading_of(e) is None);
        assert(section_starts_right(secs, 0));
    } else {
        lemma_lines_lack_newline(markdown);
        lemma_groups_lack_newline(ls);
        assert forall|k: int| 0 <= k < secs.len() implies section_starts_right(secs, k) by {
            assert(group_well_formed(g, k));
            assert forall|j: int| 0 <= j < g[k].lines.len() implies lacks(
                #[trigger] g[k].lines[j],
                '\n',
            ) by {}
            lemma_split_join(g[k].lines);
            assert(secs[k] == group_section(g[k]));
        }
    }
}

/// The texts of the sections of `g`.
pub open spec fn section_texts(g: Seq<LineGroup>) -> Seq<Seq<char>> {
    Seq::new(g.len(), |k: int| join_lines(g[k].lines))
}

proof fn lemma_join_groups(g: Seq<LineGroup>)
    requires
        forall|k: int| 0 <= k < g.len() ==> (#[trigger] g[k]).lines.len() >= 1,
    ensures
        join_lines(section_texts(g)) == join_lines(concat_group_lines(g)),
        g.len() > 0 ==> concat_group_lines(g).len() > 0,
    decreases g.len(),
{
    if g.len() > 0 {
        let prev = g.drop_last();
        assert forall|k: int| 0 <= k < prev.len() implies (#[trigger] prev[k]).lines.len() >= 1 by {
            assert(prev[k] == g[k]);
        }
        lemma_join_groups(prev);
        assert(g[g.len() - 1].lines.len() >= 1);
        let t = section_texts(g);
        assert(t.drop_last() =~= section_texts(prev));
        if prev.len() == 0 {
            assert(concat_group_lines(g) =~= g.last().lines);
            assert(t =~= seq![join_lines(g.last().lines)]);
        } else {
            lemma_join_concat(concat_group_lines(prev), g.last().lines);
        }
    }
}

/// Law: the sections keep all the text: their texts joined with `\n` are the
/// document's lines joined with `\n`; for text with no `'\r'` and no final
/// line ending, that is the text itself.
pub proof fn law_sections_keep_the_text(markdown: Seq<char>)
    ensures
        join_lines(Seq::new(
            split_sections(markdown).len(),
            |k: int| split_sections(markdown)[k].content,
        )) == join_lines(lines(markdown)),
        (forall|i: int| 0 <= i < markdown.len() ==> markdown[i] != '\r') && (markdown.len() == 0
            || markdown.last() != '\n') ==> join_lines(Seq::new(
            split_sections(markdown).len(),
            |k: int| split_sections(markdown)[k].content,
        )) == markdown,
{
    let ls = lines(markdown);
    let g = section_groups(ls);
    let secs = split_sections(markdown);
    let texts = Seq::new(secs.len(), |k: int| secs[k].content);
    law_sections_partition_lines(ls);
    if g.len() == 0 {
        assert(ls.len() == 0);
        assert(texts =~= seq![markdown]);
        crate::text::lemma_no_lines_only_for_empty_text(markdown);
        assert(markdown =~= Seq::<char>::empty());
    } else {
        assert forall|k: int| 0 <= k < g.len() implies (#[trigger] g[k]).lines.len() >= 1 by {
            assert(group_well_formed(g, k));
        }
        lemma_join_groups(g);
        assert(texts =~= section_texts(g));
    }
    if (forall|i: int| 0 <= i < markdown.len() ==> markdown[i] != '\r') && (markdown.len() == 0
        || markdown.last() != '\n') {
        lemma_join_lines_of_plain_text(markdown);
    }
}

} // verus!
