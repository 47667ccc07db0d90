use termleaf::action::Action;
use termleaf::config::{path_under, Settings};
use termleaf::reader::{Direction, Mode};
use termleaf::shell::{focus, settle, Focus, OpenBook, Screen, Shell, ShellEffect, StartupOptions};
use termleaf::theme::ThemeName;

fn reader_shell() -> Shell {
    Shell::new(Some(OpenBook::new("book.txt")), ThemeName::Paper)
}

#[test]
fn help_returns_to_its_invoking_view_and_focus() {
    let mut shell = reader_shell();
    assert_eq!(focus(&shell.view), Focus::ReadingAnchor);
    assert_eq!(shell.update(Action::ShowHelp, 3, Some(0)), ShellEffect::Nothing);
    assert_eq!(focus(&shell.view), Focus::Help);
    assert_eq!(shell.update(Action::NextLine, 3, Some(0)), ShellEffect::Nothing, "help never moves the anchor");
    shell.update(Action::Back, 3, Some(0));
    assert_eq!(shell.view, Screen::Reader { book: OpenBook::new("book.txt") });
}

#[test]
fn quit_stops_the_state_loop() {
    let mut shell = Shell::new(None, ThemeName::Dark);
    assert!(shell.running);
    assert_eq!(shell.view, Screen::RecentBooks);
    shell.update(Action::Quit, 0, None);
    assert!(!shell.running);
}

#[test]
fn reader_actions_become_reader_effects_only_in_the_reader() {
    let mut shell = reader_shell();
    assert_eq!(shell.update(Action::NextLine, 3, None), ShellEffect::Line(Direction::TowardEnd));
    assert_eq!(shell.update(Action::PreviousPage, 3, None), ShellEffect::Page(Direction::TowardStart));
    assert_eq!(shell.update(Action::DocumentEnd, 3, None), ShellEffect::DocumentEnd);
    assert_eq!(shell.update(Action::SectionStart, 3, None), ShellEffect::Section(Direction::TowardStart));
    assert_eq!(shell.update(Action::SetModeContinuous, 3, None), ShellEffect::SetMode(Mode::Continuous));
    let mut home = Shell::new(None, ThemeName::Paper);
    assert_eq!(home.update(Action::NextLine, 3, None), ShellEffect::Nothing);
    assert_eq!(home.update(Action::ShowToc, 3, None), ShellEffect::Nothing);
    assert_eq!(home.view, Screen::RecentBooks);
}

#[test]
fn theme_list_wraps_applies_and_returns() {
    let mut shell = reader_shell();
    shell.update(Action::ShowThemes, 0, None);
    assert_eq!(focus(&shell.view), Focus::ThemeOption);
    assert_eq!(shell.theme_cursor, 4);
    shell.update(Action::NextLine, 0, None);
    assert_eq!(shell.theme_cursor, 0);
    shell.update(Action::PreviousLine, 0, None);
    shell.update(Action::PreviousLine, 0, None);
    assert_eq!(shell.theme_cursor, 3);
    assert_eq!(shell.update(Action::Confirm, 0, None), ShellEffect::ThemeApplied(ThemeName::Monochrome));
    assert_eq!(shell.theme, ThemeName::Monochrome);
    assert_eq!(focus(&shell.view), Focus::ReadingAnchor);
}

#[test]
fn contents_cursor_stays_in_range_and_confirm_jumps() {
    let mut shell = reader_shell();
    shell.update(Action::ShowToc, 3, Some(7));
    assert_eq!(focus(&shell.view), Focus::TableOfContentsItem);
    assert_eq!(shell.toc_cursor, 2);
    shell.update(Action::NextLine, 3, None);
    assert_eq!(shell.toc_cursor, 2);
    shell.update(Action::PreviousLine, 3, None);
    assert_eq!(shell.toc_cursor, 1);
    shell.update(Action::ShowHelp, 3, None);
    shell.update(Action::Back, 3, None);
    assert_eq!(focus(&shell.view), Focus::TableOfContentsItem, "help returns to the list");
    assert_eq!(shell.update(Action::Confirm, 3, None), ShellEffect::JumpTo(1));
    assert_eq!(focus(&shell.view), Focus::ReadingAnchor);
    shell.update(Action::ShowToc, 3, None);
    shell.update(Action::Quit, 3, None);
    assert!(shell.running, "quit closes the overlay instead");
}

#[test]
fn settings_default_to_no_theme_and_paths_join_once() {
    assert_eq!(Settings::default().theme, None);
    assert_eq!(Settings::from_parsed(Some(Some("dark".to_owned()))).theme.as_deref(), Some("dark"));
    assert_eq!(Settings::from_parsed(None), Settings::default());
    assert_eq!(path_under("/home/me/.config"), "/home/me/.config/termleaf/config.toml");
    assert_eq!(path_under("/cfg/"), "/cfg/termleaf/config.toml");
    assert_eq!(path_under(""), "termleaf/config.toml");
    let options = StartupOptions::default();
    assert_eq!(options.theme, ThemeName::Paper);
    assert!(options.book.is_none());
}

#[test]
fn settled_effects_select_points_switch_modes_and_leave_notes() {
    let start = settle(ShellEffect::DocumentStart, Mode::Paged, 3, None);
    assert_eq!(start.navigation, Some(Some(0)));
    assert_eq!(start.note, None);
    let end = settle(ShellEffect::DocumentEnd, Mode::Paged, 3, None);
    assert_eq!(end.navigation, Some(Some(2)));
    assert_eq!(settle(ShellEffect::DocumentEnd, Mode::Paged, 0, None).navigation, Some(None));

    let same = settle(ShellEffect::SetMode(Mode::Paged), Mode::Paged, 0, None);
    assert_eq!((same.mode, same.note), (None, None));
    let switched = settle(ShellEffect::SetMode(Mode::Continuous), Mode::Paged, 0, None);
    assert_eq!(switched.mode, Some(Mode::Continuous));
    assert_eq!(switched.note.as_deref(), Some("Continuous mode"));

    assert_eq!(settle(ShellEffect::JumpTo(1), Mode::Paged, 2, Some("Two")).note.as_deref(), Some("Jumped: Two"));
    assert_eq!(
        settle(ShellEffect::JumpTo(1), Mode::Paged, 2, None).note.as_deref(),
        Some("Jumped: Untitled section")
    );
    assert_eq!(
        settle(ShellEffect::ThemeApplied(ThemeName::Paper), Mode::Paged, 0, None).note.as_deref(),
        Some("Theme: paper")
    );
}
