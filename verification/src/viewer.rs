//! The viewer's state and the decisions it takes on user and file events.
//!
//! The window code reads files, shows dialogs and draws; it hands each event
//! to `Viewer::handle`, which updates the state and answers with the action
//! to perform. Sizes, zoom and widths are floating-point and stay with the
//! window code.
use vstd::prelude::*;
use crate::fonts::{choose_font, chosen_font};
use crate::normalize::{normalize_markdown, normalize_markdown_for_viewer};
use crate::sections::{split_markdown_sections, split_sections, Section};
use crate::text::{chars_of, push_all, string_of};

verus! {

/// The colour scheme.
#[derive(Clone, Copy, Debug, PartialEq, Eq, Structural)]
pub enum ThemeMode {
    Light,
    Dark,
    Dracula,
}

pub open spec fn theme_label(mode: ThemeMode) -> Seq<char> {
    match mode {
        ThemeMode::Light => seq!['L', 'i', 'g', 'h', 't'],
        ThemeMode::Dark => seq!['D', 'a', 'r', 'k'],
        ThemeMode::Dracula => seq!['D', 'r', 'a', 'c', 'u', 'l', 'a'],
    }
}

impl ThemeMode {
    /// The name shown in the theme menu.
    pub fn label(&self) -> (r: &'static str)
        ensures
            r@ == theme_label(*self),
    {
        proof {
            reveal_strlit("Light");
            reveal_strlit("Dark");
            reveal_strlit("Dracula");
        }
        match self {
            ThemeMode::Light => "Light",
            ThemeMode::Dark => "Dark",
            ThemeMode::Dracula => "Dracula",
        }
    }
}

/// The text shown before any file is opened.
pub open spec fn welcome_text() -> Seq<char> {
    seq![
        '#', ' ', 'M', 'a', 'r', 'k', 'd', 'o', 'w', 'n', ' ', 'V', 'i', 'e', 'w', 'e', 'r',
        '\n', '\n', 'O', 'p', 'e', 'n', ' ', 'a', ' ', '`', '.', 'm', 'd', '`', ' ', 'f', 'i', 'l',
        'e', ' ', 't', 'o', ' ', 'b', 'e', 'g', 'i', 'n', '.'
    ]
}

/// The words put before the reason a file could not be read.
pub open spec fn open_error_prefix() -> Seq<char> {
    seq![
        'F', 'a', 'i', 'l', 'e', 'd', ' ', 't', 'o', ' ', 'o', 'p', 'e', 'n', ' ', 'f', 'i', 'l',
        'e', ':', ' '
    ]
}

/// The default body and code families.
pub open spec fn preferred_body_font() -> Seq<char> {
    seq!['A', 'd', 'w', 'a', 'i', 't', 'a', ' ', 'S', 'a', 'n', 's']
}

pub open spec fn preferred_mono_font() -> Seq<char> {
    seq!['S', 'o', 'u', 'r', 'c', 'e', ' ', 'C', 'o', 'd', 'e', ' ', 'P', 'r', 'o']
}

/// A text as read and as drawn.
struct Document {
    markdown_raw: String,
    markdown_rendered: String,
}

impl Document {
    /// The drawn text is always the normalized form of the text read.
    #[verifier::type_invariant]
    spec fn rendered_follows_raw(self) -> bool {
        self.markdown_rendered@ == normalize_markdown(self.markdown_raw@)
    }

    fn from_text(raw: String) -> (r: Document)
        ensures
            r.markdown_raw@ == raw@,
            r.markdown_rendered@ == normalize_markdown(raw@),
    {
        let rendered = normalize_markdown_for_viewer(raw.as_str());
        Document { markdown_raw: raw, markdown_rendered: rendered }
    }
}

/// The state of the viewer. `P` is the caller's type of file paths.
pub struct Viewer<P> {
    document: Document,
    current_path: Option<P>,
    load_error: Option<String>,
    theme: ThemeMode,
    body_font: String,
    mono_font: String,
    toc_open: bool,
    scroll_to_section: Option<usize>,
}

/// What a `Viewer` holds.
pub struct ViewerView<P> {
    /// The text of the file as read.
    pub raw: Seq<char>,
    /// The text that is drawn.
    pub rendered: Seq<char>,
    pub path: Option<P>,
    pub error: Option<Seq<char>>,
    pub theme: ThemeMode,
    pub body_font: Seq<char>,
    pub mono_font: Seq<char>,
    /// Whether the sections panel is shown.
    pub toc_open: bool,
    /// The section to scroll to on the next frame.
    pub scroll_to_section: Option<usize>,
}

impl<P> View for Viewer<P> {
    type V = ViewerView<P>;

    closed spec fn view(&self) -> ViewerView<P> {
        ViewerView {
            raw: self.document.markdown_raw@,
            rendered: self.document.markdown_rendered@,
            path: self.current_path,
            error: match self.load_error {
                Some(e) => Some(e@),
                None => None,
            },
            theme: self.theme,
            body_font: self.body_font@,
            mono_font: self.mono_font@,
            toc_open: self.toc_open,
            scroll_to_section: self.scroll_to_section,
        }
    }
}

/// An event the window reports to the viewer.
pub enum ViewerEvent<P> {
    /// The file at `path` was read and holds `content`.
    FileRead { path: P, content: String },
    /// A file could not be read, for the given reason.
    FileReadFailed { reason: String },
    /// The user asked to read the current file again.
    ReloadRequested,
    /// The user showed or hid the sections panel.
    ToggleToc,
    /// The user picked a theme in the menu.
    ThemeChosen(ThemeMode),
    /// The user picked a family for body text.
    BodyFontChosen(String),
    /// The user picked a family for code.
    MonoFontChosen(String),
    /// The user clicked a section in the sections panel.
    SectionChosen(usize),
}

pub enum ViewerEventView<P> {
    FileRead { path: P, content: Seq<char> },
    FileReadFailed { reason: Seq<char> },
    ReloadRequested,
    ToggleToc,
    ThemeChosen(ThemeMode),
    BodyFontChosen(Seq<char>),
    MonoFontChosen(Seq<char>),
    SectionChosen(usize),
}

impl<P> View for ViewerEvent<P> {
    type V = ViewerEventView<P>;

    open spec fn view(&self) -> ViewerEventView<P> {
        match self {
            ViewerEvent::FileRead { path, content } => ViewerEventView::FileRead {
                path: *path,
                content: content@,
            },
            ViewerEvent::FileReadFailed { reason } => ViewerEventView::FileReadFailed {
                reason: reason@,
            },
            ViewerEvent::ReloadRequested => ViewerEventView::ReloadRequested,
            ViewerEvent::ToggleToc => ViewerEventView::ToggleToc,
            ViewerEvent::ThemeChosen(t) => ViewerEventView::ThemeChosen(*t),
            ViewerEvent::BodyFontChosen(f) => ViewerEventView::BodyFontChosen(f@),
            ViewerEvent::MonoFontChosen(f) => ViewerEventView::MonoFontChosen(f@),
            ViewerEvent::SectionChosen(k) => ViewerEventView::SectionChosen(*k),
        }
    }
}

/// What the window must do after an event.
#[derive(Debug, PartialEq, Eq, Structural)]
pub enum ViewerAction {
    Nothing,
    /// Read the current file again and report it.
    ReadCurrentFile,
    /// Install the colours of the current theme.
    ApplyTheme,
    /// Install the current body and code fonts.
    ApplyFonts,
}

/// The state the viewer starts in, given the installed families.
pub open spec fn initial_view<P>(fonts: Seq<Seq<char>>) -> ViewerView<P> {
    ViewerView {
        raw: welcome_text(),
        rendered: normalize_markdown(welcome_text()),
        path: None,
        error: None,
        theme: ThemeMode::Dracula,
        body_font: chosen_font(fonts, preferred_body_font()),
        mono_font: chosen_font(fonts, preferred_mono_font()),
        toc_open: true,
        scroll_to_section: None,
    }
}

/// The state after event `e`, and the action asked of the window.
pub open spec fn step<P>(v: ViewerView<P>, e: ViewerEventView<P>) -> (ViewerView<P>, ViewerAction) {
    match e {
        ViewerEventView::FileRead { path, content } => (
            ViewerView {
                raw: content,
                rendered: normalize_markdown(content),
                path: Some(path),
                error: None,
                ..v
            },
            ViewerAction::Nothing,
        ),
        ViewerEventView::FileReadFailed { reason } => (
            ViewerView { error: Some(open_error_prefix() + reason), ..v },
            ViewerAction::Nothing,
        ),
        ViewerEventView::ReloadRequested => (
            v,
            if v.path is Some {
                ViewerAction::ReadCurrentFile
            } else {
                ViewerAction::Nothing
            },
        ),
        ViewerEventView::ToggleToc => (
            ViewerView { toc_open: !v.toc_open, ..v },
            ViewerAction::Nothing,
        ),
        ViewerEventView::ThemeChosen(t) => if t == v.theme {
            (v, ViewerAction::Nothing)
        } else {
            (ViewerView { theme: t, ..v }, ViewerAction::ApplyTheme)
        },
        ViewerEventView::BodyFontChosen(f) => if f == v.body_font {
            (v, ViewerAction::Nothing)
        } else {
            (ViewerView { body_font: f, ..v }, ViewerAction::ApplyFonts)
        },
        ViewerEventView::MonoFontChosen(f) => if f == v.mono_font {
            (v, ViewerAction::Nothing)
        } else {
            (ViewerView { mono_font: f, ..v }, ViewerAction::ApplyFonts)
        },
        ViewerEventView::SectionChosen(k) => (
            ViewerView { scroll_to_section: Some(k), ..v },
            ViewerAction::Nothing,
        ),
    }
}

/// Whether the section at position `idx` is to be scrolled to now, and the
/// state after answering (a request is served once).
pub open spec fn scroll_step<P>(v: ViewerView<P>, idx: usize) -> (ViewerView<P>, bool) {
    if v.scroll_to_section == Some(idx) {
        (ViewerView { scroll_to_section: None, ..v }, true)
    } else {
        (v, false)
    }
}

impl<P> Viewer<P> {
    /// The viewer as it starts, given the installed families: the welcome
    /// text, the Dracula theme, the sections panel shown, and the default
    /// body and code families (see `choose_font`).
    pub fn new(system_fonts: &[String]) -> (r: Self)
        ensures
            r@ == initial_view::<P>(system_fonts.deep_view()),
    {
        let raw = "# Markdown Viewer\n\nOpen a `.md` file to begin.".to_owned();
        proof {
            reveal_strlit("# Markdown Viewer\n\nOpen a `.md` file to begin.");
            reveal_strlit("Adwaita Sans");
            reveal_strlit("Source Code Pro");
        }
        assert(raw@ =~= welcome_text());
        let document = Document::from_text(raw);
        let body_font = choose_font(system_fonts, "Adwaita Sans");
        let mono_font = choose_font(system_fonts, "Source Code Pro");
        assert("Adwaita Sans"@ =~= preferred_body_font());
        assert("Source Code Pro"@ =~= preferred_mono_font());
        let v = Viewer {
            document,
            current_path: None,
            load_error: None,
            theme: ThemeMode::Dracula,
            body_font,
            mono_font,
            toc_open: true,
            scroll_to_section: None,
        };
        v
    }

    /// Updates the state for event `e` and answers with the action the window
    /// must perform (see `step`).
    pub fn handle(&mut self, e: ViewerEvent<P>) -> (a: ViewerAction)
        ensures
            (final(self)@, a) == step(old(self)@, e@),
    {
        match e {
            ViewerEvent::FileRead { path, content } => {
                self.document = Document::from_text(content);
                self.current_path = Some(path);
                self.load_error = None;
                ViewerAction::Nothing
            },
            ViewerEvent::FileReadFailed { reason } => {
                let mut msg = chars_of("Failed to open file: ");
                proof {
                    reveal_strlit("Failed to open file: ");
                }
                assert(msg@ =~= open_error_prefix());
                let r = chars_of(reason.as_str());
                push_all(&mut msg, &r);
                self.load_error = Some(string_of(&msg));
                ViewerAction::Nothing
            },
            ViewerEvent::ReloadRequested => {
                if self.current_path.is_some() {
                    ViewerAction::ReadCurrentFile
                } else {
                    ViewerAction::Nothing
                }
            },
            ViewerEvent::ToggleToc => {
                self.toc_open = !self.toc_open;
                ViewerAction::Nothing
            },
            ViewerEvent::ThemeChosen(t) => {
                if t == self.theme {
                    ViewerAction::Nothing
                } else {
                    self.theme = t;
                    ViewerAction::ApplyTheme
                }
            },
            ViewerEvent::BodyFontChosen(f) => {
                if f == self.body_font {
                    ViewerAction::Nothing
                } else {
                    self.body_font = f;
                    ViewerAction::ApplyFonts
                }
            },
            ViewerEvent::MonoFontChosen(f) => {
                if f == self.mono_font {
                    ViewerAction::Nothing
                } else {
                    self.mono_font = f;
                    ViewerAction::ApplyFonts
                }
            },
            ViewerEvent::SectionChosen(k) => {
                self.scroll_to_section = Some(k);
                ViewerAction::Nothing
            },
        }
    }

    /// Called while drawing section `idx`: whether to scroll to it now; a
    /// pending request for it is cleared (see `scroll_step`).
    pub fn take_scroll_request(&mut self, idx: usize) -> (r: bool)
        ensures
            (final(self)@, r) == scroll_step(old(self)@, idx),
    {
        if self.scroll_to_section == Some(idx) {
            self.scroll_to_section = None;
            true
        } else {
            false
        }
    }

    /// The sections of the drawn text.
    pub fn sections(&self) -> (r: Vec<Section>)
        ensures
            r.deep_view() == split_sections(self@.rendered),
    {
        split_markdown_sections(self.document.markdown_rendered.as_str())
    }

    /// The text that is drawn.
    pub fn rendered(&self) -> (r: &String)
        ensures
            r@ == self@.rendered,
    {
        &self.document.markdown_rendered
    }

    /// The text of the file as read.
    pub fn raw(&self) -> (r: &String)
        ensures
            r@ == self@.raw,
    {
        &self.document.markdown_raw
    }

    /// The file shown, if one was read.
    pub fn current_path(&self) -> (r: Option<&P>)
        ensures
            r == match self@.path {
                Some(p) => Some(&p),
                None => None::<&P>,
            },
    {
        match &self.current_path {
            Some(p) => Some(p),
            None => None,
        }
    }

    /// The message of the last failed read, if the last read failed.
    pub fn load_error(&self) -> (r: Option<&String>)
        ensures
            match r {
                Some(e) => self@.error == Some(e@),
                None => self@.error is None,
            },
    {
        match &self.load_error {
            Some(e) => Some(e),
            None => None,
        }
    }

    pub fn theme(&self) -> (r: ThemeMode)
        ensures
            r == self@.theme,
    {
        self.theme
    }

    pub fn body_font(&self) -> (r: &String)
        ensures
            r@ == self@.body_font,
    {
        &self.body_font
    }

    pub fn mono_font(&self) -> (r: &String)
        ensures
            r@ == self@.mono_font,
    {
        &self.mono_font
    }

    pub fn toc_open(&self) -> (r: bool)
        ensures
            r == self@.toc_open,
    {
        self.toc_open
    }

}

/// Law: in the state the viewer starts in, and after any event, the drawn
/// text is the normalized form of the text read.
pub proof fn law_rendered_follows_raw<P>(fonts: Seq<Seq<char>>, v: ViewerView<P>, e: ViewerEventView<P>)
    ensures
        initial_view::<P>(fonts).rendered == normalize_markdown(initial_view::<P>(fonts).raw),
        v.rendered == normalize_markdown(v.raw) ==> step(v, e).0.rendered == normalize_markdown(
            step(v, e).0.raw,
        ),
{
}

/// Law: the viewer is read-only: only a successful read changes the text
/// shown (a failed read keeps the document and its path, and reports why).
pub proof fn law_only_reads_change_the_document<P>(v: ViewerView<P>, e: ViewerEventView<P>)
    ensures
        !(e is FileRead) ==> step(v, e).0.raw == v.raw && step(v, e).0.rendered == v.rendered
            && step(v, e).0.path == v.path,
        e matches ViewerEventView::FileReadFailed { reason } ==> step(v, e).0.error == Some(
            open_error_prefix() + reason,
        ),
{
}

/// Law: a successful read replaces the text, records its path and clears the
/// last error.
pub proof fn law_read_shows_the_file<P>(v: ViewerView<P>, path: P, content: Seq<char>)
    ensures
        ({
            let w = step(v, ViewerEventView::FileRead { path, content }).0;
            &&& w.raw == content
            &&& w.rendered == normalize_markdown(content)
            &&& w.path == Some(path)
            &&& w.error is None
        }),
{
}

/// Law: reloading asks for the current file to be read, and does nothing when
/// no file is open; it changes no state.
pub proof fn law_reload_reads_the_current_file<P>(v: ViewerView<P>)
    ensures
        step(v, ViewerEventView::ReloadRequested).0 == v,
        step(v, ViewerEventView::ReloadRequested).1 == (if v.path is Some {
            ViewerAction::ReadCurrentFile
        } else {
            ViewerAction::Nothing
        }),
{
}

/// Law: toggling the sections panel twice restores the state.
pub proof fn law_toggle_toc_twice<P>(v: ViewerView<P>)
    ensures
        step(v, ViewerEventView::ToggleToc).0.toc_open != v.toc_open,
        step(step(v, ViewerEventView::ToggleToc).0, ViewerEventView::ToggleToc).0 == v,
{
}

/// Law: a theme or family picked becomes the current one.
pub proof fn law_choice_becomes_current<P>(v: ViewerView<P>, t: ThemeMode, f: Seq<char>)
    ensures
        step(v, ViewerEventView::ThemeChosen(t)).0.theme == t,
        step(v, ViewerEventView::BodyFontChosen(f)).0.body_font == f,
        step(v, ViewerEventView::MonoFontChosen(f)).0.mono_font == f,
{
}

/// Law: the viewer starts with no file open and no error, with the sections
/// panel shown, in the Dracula theme, and with body and code families that are
/// installed ones whenever any family is installed.
pub proof fn law_initial_state<P>(fonts: Seq<Seq<char>>)
    ensures
        ({
            let v = initial_view::<P>(fonts);
            &&& v.path is None
            &&& v.error is None
            &&& v.toc_open
            &&& v.scroll_to_section is None
            &&& v.theme == ThemeMode::Dracula
            &&& fonts.len() > 0 ==> fonts.contains(v.body_font) && fonts.contains(v.mono_font)
        }),
{
    crate::fonts::law_chosen_font_is_installed(fonts, preferred_body_font());
    crate::fonts::law_chosen_font_is_installed(fonts, preferred_mono_font());
}

/// Law: picking the theme, body family or code family that is already
/// selected changes nothing and asks for nothing; picking another one asks to
/// install it.
pub proof fn law_choosing_again_changes_nothing<P>(v: ViewerView<P>, e: ViewerEventView<P>)
    ensures
        ({
            let w = step(v, e).0;
            (e is ThemeChosen || e is BodyFontChosen || e is MonoFontChosen) ==> step(w, e) == (
                w,
                ViewerAction::Nothing,
            )
        }),
        e matches ViewerEventView::ThemeChosen(t) ==> (step(v, e).1 == ViewerAction::ApplyTheme
            <==> t != v.theme),
        e matches ViewerEventView::BodyFontChosen(f) ==> (step(v, e).1 == ViewerAction::ApplyFonts
            <==> f != v.body_font),
        e matches ViewerEventView::MonoFontChosen(f) ==> (step(v, e).1 == ViewerAction::ApplyFonts
            <==> f != v.mono_font),
{
}

/// One drawing pass over sections `0..n`: the state after asking
/// `scroll_step` for each section in order, and the answers given.
pub open spec fn scroll_pass<P>(v: ViewerView<P>, n: usize) -> (ViewerView<P>, Seq<bool>)
    decreases n,
{
    if n == 0 {
        (v, Seq::empty())
    } else {
        let prev = scroll_pass(v, (n - 1) as usize);
        let last = scroll_step(prev.0, (n - 1) as usize);
        (last.0, prev.1.push(last.1))
    }
}

/// Law: in a drawing pass over `n` sections, a pending request for section
/// `k < n` is answered at section `k` only and is cleared; any other request
/// (none, or past the last section) gets no answer and is left as it was.
pub proof fn law_scroll_pass<P>(v: ViewerView<P>, n: usize)
    ensures
        scroll_pass(v, n).1.len() == n,
        v.scroll_to_section is Some && v.scroll_to_section->Some_0 < n ==> {
            &&& forall|j: int|
                0 <= j < n ==> #[trigger] scroll_pass(v, n).1[j] == (j
                    == v.scroll_to_section->Some_0)
            &&& scroll_pass(v, n).0 == (ViewerView { scroll_to_section: None, ..v })
        },
        !(v.scroll_to_section is Some && v.scroll_to_section->Some_0 < n) ==> {
            &&& forall|j: int| 0 <= j < n ==> !#[trigger] scroll_pass(v, n).1[j]
            &&& scroll_pass(v, n).0 == v
        },
    decreases n,
{
    if n > 0 {
        let m = (n - 1) as usize;
        law_scroll_pass(v, m);
        let prev = scroll_pass(v, m);
        let r = scroll_pass(v, n);
        assert forall|j: int| 0 <= j < m implies r.1[j] == prev.1[j] by {}
        if v.scroll_to_section is Some && v.scroll_to_section->Some_0 < n {
            let k = v.scroll_to_section->Some_0;
            if k < m {
                assert(r.1[m as int] == false);
            } else {
                assert(k == m);
                assert(prev.0 == v);
                assert forall|j: int| 0 <= j < n implies #[trigger] r.1[j] == (j == k) by {
                    if j < m {
                        assert(!prev.1[j]);
                    }
                }
            }
        }
    }
}

/// Law: after a section is chosen, the viewer scrolls to it once: the first
/// time that section is drawn, and not again.
pub proof fn law_scroll_request_served_once<P>(v: ViewerView<P>, k: usize)
    ensures
        ({
            let w = step(v, ViewerEventView::SectionChosen(k)).0;
            &&& scroll_step(w, k).1
            &&& !scroll_step(scroll_step(w, k).0, k).1
        }),
{
}

} // verus!
