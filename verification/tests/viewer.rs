use md_viewer_rs::viewer::{ThemeMode, Viewer, ViewerAction, ViewerEvent};

const WELCOME: &str = "# Markdown Viewer\n\nOpen a `.md` file to begin.";

fn viewer() -> Viewer<String> {
    Viewer::new(&["Noto Sans".to_string()])
}

#[test]
fn viewer_starts_with_welcome_text() {
    let v = viewer();
    assert_eq!(v.raw(), WELCOME);
    assert_eq!(v.rendered(), WELCOME);
    assert!(v.current_path().is_none());
    assert!(v.load_error().is_none());
    assert_eq!(v.theme(), ThemeMode::Dracula);
    assert_eq!(v.body_font(), "Noto Sans");
    assert_eq!(v.mono_font(), "Noto Sans");
    assert!(v.toc_open());
    let s = v.sections();
    assert_eq!(s.len(), 1);
    assert_eq!(s[0].title, "Markdown Viewer");
    assert_eq!(s[0].content, WELCOME);
}

#[test]
fn viewer_default_fonts_without_families() {
    let v: Viewer<String> = Viewer::new(&[]);
    assert_eq!(v.body_font(), "Adwaita Sans");
    assert_eq!(v.mono_font(), "Source Code Pro");
}

#[test]
fn viewer_shows_file_read() {
    let mut v = viewer();
    let a = v.handle(ViewerEvent::FileRead {
        path: "notes.md".to_string(),
        content: "```\nx\n```\n".to_string(),
    });
    assert_eq!(a, ViewerAction::Nothing);
    assert_eq!(v.raw(), "```\nx\n```\n");
    assert_eq!(v.rendered(), "```\n\n  x\n\n```");
    assert_eq!(v.current_path(), Some(&"notes.md".to_string()));
}

#[test]
fn viewer_reports_failed_read_and_keeps_document() {
    let mut v = viewer();
    let a = v.handle(ViewerEvent::FileReadFailed { reason: "No such file".to_string() });
    assert_eq!(a, ViewerAction::Nothing);
    assert_eq!(v.load_error().map(|s| s.as_str()), Some("Failed to open file: No such file"));
    assert_eq!(v.rendered(), WELCOME);
    let a = v.handle(ViewerEvent::FileRead { path: "a.md".to_string(), content: "hi".to_string() });
    assert_eq!(a, ViewerAction::Nothing);
    assert!(v.load_error().is_none());
}

#[test]
fn viewer_reload_reads_current_file_only_when_open() {
    let mut v = viewer();
    assert_eq!(v.handle(ViewerEvent::ReloadRequested), ViewerAction::Nothing);
    v.handle(ViewerEvent::FileRead { path: "a.md".to_string(), content: "x".to_string() });
    assert_eq!(v.handle(ViewerEvent::ReloadRequested), ViewerAction::ReadCurrentFile);
}

#[test]
fn viewer_theme_and_font_choices() {
    let mut v = viewer();
    assert_eq!(v.handle(ViewerEvent::ThemeChosen(ThemeMode::Dracula)), ViewerAction::Nothing);
    assert_eq!(v.handle(ViewerEvent::ThemeChosen(ThemeMode::Light)), ViewerAction::ApplyTheme);
    assert_eq!(v.theme(), ThemeMode::Light);
    assert_eq!(v.handle(ViewerEvent::BodyFontChosen("Noto Sans".to_string())), ViewerAction::Nothing);
    assert_eq!(v.handle(ViewerEvent::MonoFontChosen("Mono".to_string())), ViewerAction::ApplyFonts);
    assert_eq!(v.mono_font(), "Mono");
    assert_eq!(v.handle(ViewerEvent::BodyFontChosen("Serif".to_string())), ViewerAction::ApplyFonts);
    assert_eq!(v.body_font(), "Serif");
}

#[test]
fn viewer_toggle_toc_twice() {
    let mut v = viewer();
    v.handle(ViewerEvent::ToggleToc);
    assert!(!v.toc_open());
    v.handle(ViewerEvent::ToggleToc);
    assert!(v.toc_open());
}

#[test]
fn viewer_scrolls_to_chosen_section_once() {
    let mut v = viewer();
    assert!(!v.take_scroll_request(0));
    v.handle(ViewerEvent::SectionChosen(2));
    assert!(!v.take_scroll_request(1));
    assert!(v.take_scroll_request(2));
    assert!(!v.take_scroll_request(2));
}

#[test]
fn theme_labels() {
    assert_eq!(ThemeMode::Light.label(), "Light");
    assert_eq!(ThemeMode::Dark.label(), "Dark");
    assert_eq!(ThemeMode::Dracula.label(), "Dracula");
}

#[test]
fn viewer_scroll_pass_over_all_sections() {
    let mut v = viewer();
    v.handle(ViewerEvent::SectionChosen(1));
    let answers: Vec<bool> = (0..3).map(|i| v.take_scroll_request(i)).collect();
    assert_eq!(answers, vec![false, true, false]);
    v.handle(ViewerEvent::SectionChosen(5));
    let answers: Vec<bool> = (0..3).map(|i| v.take_scroll_request(i)).collect();
    assert_eq!(answers, vec![false, false, false]);
    assert!(v.take_scroll_request(5));
}
