//! The application's view state machine: which surface is shown, which
//! focus it owns, and how each keyboard action moves between views or asks
//! the reader to move. Overlays remember the view that invoked them and
//! restore it exactly.
use vstd::prelude::*;

use crate::action::Action;
use crate::reader::{Direction, Mode};
use crate::strings::owned;
use crate::terminal_image::ImageBackend;
use crate::theme::ThemeName;

verus! {

/// A book opened from the command line, by its display path.
#[derive(Clone, Debug, PartialEq, Eq)]
pub struct OpenBook {
    path: String,
}

impl OpenBook {
    /// A book at this display path.
    pub fn new(path: &str) -> (b: OpenBook)
        ensures
            b.spec_path() == path@,
    {
        OpenBook { path: owned(path) }
    }

    pub closed spec fn spec_path(&self) -> Seq<char> {
        self.path@
    }

    /// The book's display path.
    pub fn path(&self) -> (p: &str)
        ensures
            p@ == self.spec_path(),
    {
        self.path.as_str()
    }
}

/// Reader launch choices after configuration precedence is applied.
#[derive(Clone, Debug, PartialEq, Eq)]
pub struct StartupOptions {
    /// Local book path supplied on the command line, when any.
    pub book: Option<String>,
    /// Resolved startup theme for the session.
    pub theme: ThemeName,
    /// Preselected image path; capability probing applies separately.
    pub image_backend: Option<ImageBackend>,
}

impl Default for StartupOptions {
    fn default() -> (o: Self)
        ensures
            o.book is None,
            o.theme == ThemeName::Paper,
            o.image_backend is None,
    {
        StartupOptions { book: None, theme: ThemeName::Paper, image_backend: None }
    }
}

/// The surfaces of the application; overlays carry the view they return
/// to.
#[derive(Debug, PartialEq, Eq)]
pub enum Screen {
    RecentBooks,
    OpenPath,
    Reader { book: OpenBook },
    LinkFocus,
    TextSelection,
    SearchEntry,
    SearchHistory,
    SearchResults,
    TableOfContents { return_to: Box<Screen> },
    AnnotationList,
    BookmarkDialog,
    HighlightDialog,
    NoteEditor,
    ThemeSelection { return_to: Box<Screen> },
    LinkConfirmation,
    Help { return_to: Box<Screen> },
    RecoverableError,
    TooSmall,
}

/// The one kind of focus each view owns.
#[derive(Clone, Copy, Debug, PartialEq, Eq, Structural)]
pub enum Focus {
    RecentBooks,
    PathField,
    ReadingAnchor,
    Link,
    SelectionEndpoint,
    SearchField,
    SearchHistoryItem,
    SearchResult,
    TableOfContentsItem,
    AnnotationItem,
    BookmarkNameField,
    HighlightColor,
    NoteField,
    ThemeOption,
    ConfirmationAction,
    Help,
    RecoveryAction,
    SuspendedView,
}

/// The focus a view owns.
pub open spec fn focus_of(v: Screen) -> Focus {
    match v {
        Screen::RecentBooks => Focus::RecentBooks,
        Screen::OpenPath => Focus::PathField,
        Screen::Reader { .. } => Focus::ReadingAnchor,
        Screen::LinkFocus => Focus::Link,
        Screen::TextSelection => Focus::SelectionEndpoint,
        Screen::SearchEntry => Focus::SearchField,
        Screen::SearchHistory => Focus::SearchHistoryItem,
        Screen::SearchResults => Focus::SearchResult,
        Screen::TableOfContents { .. } => Focus::TableOfContentsItem,
        Screen::AnnotationList => Focus::AnnotationItem,
        Screen::BookmarkDialog => Focus::BookmarkNameField,
        Screen::HighlightDialog => Focus::HighlightColor,
        Screen::NoteEditor => Focus::NoteField,
        Screen::ThemeSelection { .. } => Focus::ThemeOption,
        Screen::LinkConfirmation => Focus::ConfirmationAction,
        Screen::Help { .. } => Focus::Help,
        Screen::RecoverableError => Focus::RecoveryAction,
        Screen::TooSmall => Focus::SuspendedView,
    }
}

/// The focus a view owns.
pub fn focus(v: &Screen) -> (f: Focus)
    ensures
        f == focus_of(*v),
{
    match v {
        Screen::RecentBooks => Focus::RecentBooks,
        Screen::OpenPath => Focus::PathField,
        Screen::Reader { .. } => Focus::ReadingAnchor,
        Screen::LinkFocus => Focus::Link,
        Screen::TextSelection => Focus::SelectionEndpoint,
        Screen::SearchEntry => Focus::SearchField,
        Screen::SearchHistory => Focus::SearchHistoryItem,
        Screen::SearchResults => Focus::SearchResult,
        Screen::TableOfContents { .. } => Focus::TableOfContentsItem,
        Screen::AnnotationList => Focus::AnnotationItem,
        Screen::BookmarkDialog => Focus::BookmarkNameField,
        Screen::HighlightDialog => Focus::HighlightColor,
        Screen::NoteEditor => Focus::NoteField,
        Screen::ThemeSelection { .. } => Focus::ThemeOption,
        Screen::LinkConfirmation => Focus::ConfirmationAction,
        Screen::Help { .. } => Focus::Help,
        Screen::RecoverableError => Focus::RecoveryAction,
        Screen::TooSmall => Focus::SuspendedView,
    }
}

/// Views of different kinds own different focuses, so each view owns
/// exactly one focus kind.
pub proof fn lemma_focus_identifies_view_kind(a: Screen, b: Screen)
    requires
        focus_of(a) == focus_of(b),
    ensures
        (a is RecentBooks) == (b is RecentBooks),
        (a is OpenPath) == (b is OpenPath),
        (a is Reader) == (b is Reader),
        (a is LinkFocus) == (b is LinkFocus),
        (a is TextSelection) == (b is TextSelection),
        (a is SearchEntry) == (b is SearchEntry),
        (a is SearchHistory) == (b is SearchHistory),
        (a is SearchResults) == (b is SearchResults),
        (a is TableOfContents) == (b is TableOfContents),
        (a is AnnotationList) == (b is AnnotationList),
        (a is BookmarkDialog) == (b is BookmarkDialog),
        (a is HighlightDialog) == (b is HighlightDialog),
        (a is NoteEditor) == (b is NoteEditor),
        (a is ThemeSelection) == (b is ThemeSelection),
        (a is LinkConfirmation) == (b is LinkConfirmation),
        (a is Help) == (b is Help),
        (a is RecoverableError) == (b is RecoverableError),
        (a is TooSmall) == (b is TooSmall),
{
}

/// The themes in list order.
pub open spec fn theme_at(i: int) -> ThemeName {
    if i == 0 {
        ThemeName::Dark
    } else if i == 1 {
        ThemeName::Light
    } else if i == 2 {
        ThemeName::HighContrast
    } else if i == 3 {
        ThemeName::Monochrome
    } else {
        ThemeName::Paper
    }
}

/// The position of a theme in the list.
pub open spec fn theme_index(t: ThemeName) -> usize {
    match t {
        ThemeName::Dark => 0,
        ThemeName::Light => 1,
        ThemeName::HighContrast => 2,
        ThemeName::Monochrome => 3,
        ThemeName::Paper => 4,
    }
}

/// The number of themes in the list.
pub const THEME_COUNT: usize = 5;

fn theme_of_index(i: usize) -> (t: ThemeName)
    ensures
        t == theme_at(i as int),
{
    if i == 0 {
        ThemeName::Dark
    } else if i == 1 {
        ThemeName::Light
    } else if i == 2 {
        ThemeName::HighContrast
    } else if i == 3 {
        ThemeName::Monochrome
    } else {
        ThemeName::Paper
    }
}

fn index_of_theme(t: ThemeName) -> (i: usize)
    ensures
        i == theme_index(t),
{
    match t {
        ThemeName::Dark => 0,
        ThemeName::Light => 1,
        ThemeName::HighContrast => 2,
        ThemeName::Monochrome => 3,
        ThemeName::Paper => 4,
    }
}

/// What the reader or the host must do after an action.
#[derive(Clone, Copy, Debug, PartialEq, Eq, Structural)]
pub enum ShellEffect {
    /// Nothing beyond the view change.
    Nothing,
    /// Move the reading anchor one visual row.
    Line(Direction),
    /// Move the reading anchor one viewport.
    Page(Direction),
    /// Jump to the start of the book.
    DocumentStart,
    /// Jump to the end of the book.
    DocumentEnd,
    /// Move to the previous or next section start.
    Section(Direction),
    /// Switch the reading mode.
    SetMode(Mode),
    /// Jump to the start of this navigation point.
    JumpTo(usize),
    /// The theme was chosen.
    ThemeApplied(ThemeName),
}

/// The view part of the application state.
#[derive(Debug, PartialEq, Eq)]
pub struct Shell {
    pub view: Screen,
    pub running: bool,
    pub theme: ThemeName,
    pub theme_cursor: usize,
    pub toc_cursor: usize,
}

/// The view an overlay returns to.
pub open spec fn return_view(v: Screen) -> Screen {
    match v {
        Screen::ThemeSelection { return_to } => *return_to,
        Screen::TableOfContents { return_to } => *return_to,
        _ => Screen::RecentBooks,
    }
}

/// One action inside the theme list: the cursor wraps, Confirm applies
/// the highlighted theme and returns, and help stays reachable.
pub open spec fn theme_step(s: Shell, action: Action) -> (Shell, ShellEffect) {
    let back = return_view(s.view);
    match action {
        Action::NextLine => (Shell { theme_cursor: ((s.theme_cursor + 1) % 5) as usize, ..s }, ShellEffect::Nothing),
        Action::PreviousLine => (
            Shell { theme_cursor: ((s.theme_cursor + 4) % 5) as usize, ..s },
            ShellEffect::Nothing,
        ),
        Action::Confirm => {
            let chosen = theme_at(s.theme_cursor as int);
            (Shell { theme: chosen, view: back, ..s }, ShellEffect::ThemeApplied(chosen))
        },
        Action::Quit | Action::Back | Action::ShowThemes => (Shell { view: back, ..s }, ShellEffect::Nothing),
        Action::ShowHelp => (
            Shell {
                view: Screen::Help { return_to: Box::new(Screen::ThemeSelection { return_to: Box::new(back) }) },
                ..s
            },
            ShellEffect::Nothing,
        ),
        _ => (s, ShellEffect::Nothing),
    }
}

/// One action inside the table of contents: the cursor stays within the
/// sections, Confirm jumps to the highlighted section and returns, and
/// reader navigation stays inert.
pub open spec fn toc_step(s: Shell, action: Action, sections: usize) -> (Shell, ShellEffect) {
    let back = return_view(s.view);
    match action {
        Action::NextLine => if sections > 0 {
            (
                Shell {
                    toc_cursor: if s.toc_cursor + 1 < sections { (s.toc_cursor + 1) as usize } else { (sections - 1) as usize },
                    ..s
                },
                ShellEffect::Nothing,
            )
        } else {
            (s, ShellEffect::Nothing)
        },
        Action::PreviousLine => (
            Shell { toc_cursor: if s.toc_cursor > 0 { (s.toc_cursor - 1) as usize } else { 0 }, ..s },
            ShellEffect::Nothing,
        ),
        Action::Confirm => if sections > 0 {
            let target = if s.toc_cursor < sections { s.toc_cursor } else { (sections - 1) as usize };
            (Shell { view: back, ..s }, ShellEffect::JumpTo(target))
        } else {
            (s, ShellEffect::Nothing)
        },
        Action::Quit | Action::Back | Action::ShowToc | Action::ShowThemes => (
            Shell { view: back, ..s },
            ShellEffect::Nothing,
        ),
        Action::ShowHelp => (
            Shell {
                view: Screen::Help { return_to: Box::new(Screen::TableOfContents { return_to: Box::new(back) }) },
                ..s
            },
            ShellEffect::Nothing,
        ),
        _ => (s, ShellEffect::Nothing),
    }
}

/// One action outside the theme list and the table of contents, given the
/// number of navigation points and the current one. Reader actions act
/// only in the reader view; elsewhere they are inert.
pub open spec fn main_step(s: Shell, action: Action, sections: usize, current: Option<usize>) -> (Shell, ShellEffect) {
    let reading = s.view is Reader;
    match action {
        Action::Quit => (Shell { running: false, ..s }, ShellEffect::Nothing),
        Action::ShowHelp => if !(s.view is Help) {
            (Shell { view: Screen::Help { return_to: Box::new(s.view) }, ..s }, ShellEffect::Nothing)
        } else {
            (s, ShellEffect::Nothing)
        },
        Action::Back => match s.view {
            Screen::Help { return_to } => (Shell { view: *return_to, ..s }, ShellEffect::Nothing),
            _ => (s, ShellEffect::Nothing),
        },
        Action::ShowThemes => (
            Shell {
                theme_cursor: theme_index(s.theme),
                view: Screen::ThemeSelection { return_to: Box::new(s.view) },
                ..s
            },
            ShellEffect::Nothing,
        ),
        Action::ShowToc => if reading {
            let wanted = match current {
                Some(i) => i,
                None => 0,
            };
            let last = if sections > 0 { (sections - 1) as usize } else { 0 };
            (
                Shell {
                    toc_cursor: if wanted < last { wanted } else { last },
                    view: Screen::TableOfContents { return_to: Box::new(s.view) },
                    ..s
                },
                ShellEffect::Nothing,
            )
        } else {
            (s, ShellEffect::Nothing)
        },
        Action::NextLine => (s, if reading { ShellEffect::Line(Direction::TowardEnd) } else { ShellEffect::Nothing }),
        Action::PreviousLine => (
            s,
            if reading { ShellEffect::Line(Direction::TowardStart) } else { ShellEffect::Nothing },
        ),
        Action::NextPage => (s, if reading { ShellEffect::Page(Direction::TowardEnd) } else { ShellEffect::Nothing }),
        Action::PreviousPage => (
            s,
            if reading { ShellEffect::Page(Direction::TowardStart) } else { ShellEffect::Nothing },
        ),
        Action::DocumentStart => (s, if reading { ShellEffect::DocumentStart } else { ShellEffect::Nothing }),
        Action::DocumentEnd => (s, if reading { ShellEffect::DocumentEnd } else { ShellEffect::Nothing }),
        Action::SectionStart => (
            s,
            if reading { ShellEffect::Section(Direction::TowardStart) } else { ShellEffect::Nothing },
        ),
        Action::SectionEnd => (
            s,
            if reading { ShellEffect::Section(Direction::TowardEnd) } else { ShellEffect::Nothing },
        ),
        Action::SetModePaged => (s, if reading { ShellEffect::SetMode(Mode::Paged) } else { ShellEffect::Nothing }),
        Action::SetModeContinuous => (
            s,
            if reading { ShellEffect::SetMode(Mode::Continuous) } else { ShellEffect::Nothing },
        ),
        Action::Confirm => (s, ShellEffect::Nothing),
    }
}

/// One action in any view.
pub open spec fn spec_update(s: Shell, action: Action, sections: usize, current: Option<usize>) -> (Shell, ShellEffect) {
    if s.view is ThemeSelection {
        theme_step(s, action)
    } else if s.view is TableOfContents {
        toc_step(s, action, sections)
    } else {
        main_step(s, action, sections, current)
    }
}

impl Shell {
    /// The state at launch: the reader for a book, else the recent books.
    pub fn new(book: Option<OpenBook>, theme: ThemeName) -> (s: Shell)
        ensures
            s.view == match book {
                Some(b) => Screen::Reader { book: b },
                None => Screen::RecentBooks,
            },
            s.running,
            s.theme == theme,
            s.theme_cursor == theme_index(theme),
            s.toc_cursor == 0,
    {
        let view = match book {
            Some(b) => Screen::Reader { book: b },
            None => Screen::RecentBooks,
        };
        Shell { view, running: true, theme, theme_cursor: index_of_theme(theme), toc_cursor: 0 }
    }

    /// Applies one action, given the book's navigation point count and the
    /// current navigation point.
    pub fn update(&mut self, action: Action, sections: usize, current: Option<usize>) -> (e: ShellEffect)
        ensures
            (*final(self), e) == spec_update(*old(self), action, sections, current),
    {
        let mut view = Screen::RecentBooks;
        std::mem::swap(&mut view, &mut self.view);
        match view {
            Screen::ThemeSelection { return_to } => self.theme_update(action, return_to),
            Screen::TableOfContents { return_to } => self.toc_update(action, return_to, sections),
            other => self.main_update(action, other, sections, current),
        }
    }

    fn theme_update(&mut self, action: Action, return_to: Box<Screen>) -> (e: ShellEffect)
        ensures
            (*final(self), e) == theme_step(
                Shell { view: Screen::ThemeSelection { return_to }, ..*old(self) },
                action,
            ),
    {
        match action {
            Action::NextLine => {
                let c = self.theme_cursor % 5;
                assert((c + 1) % 5 == (old(self).theme_cursor + 1) % 5);
                self.theme_cursor = (c + 1) % 5;
                self.view = Screen::ThemeSelection { return_to };
                ShellEffect::Nothing
            },
            Action::PreviousLine => {
                let c = self.theme_cursor % 5;
                assert((c + 4) % 5 == (old(self).theme_cursor + 4) % 5);
                self.theme_cursor = (c + 4) % 5;
                self.view = Screen::ThemeSelection { return_to };
                ShellEffect::Nothing
            },
            Action::Confirm => {
                let chosen = theme_of_index(self.theme_cursor);
                self.theme = chosen;
                self.view = *return_to;
                ShellEffect::ThemeApplied(chosen)
            },
            Action::Quit | Action::Back | Action::ShowThemes => {
                self.view = *return_to;
                ShellEffect::Nothing
            },
            Action::ShowHelp => {
                self.view = Screen::Help { return_to: Box::new(Screen::ThemeSelection { return_to }) };
                ShellEffect::Nothing
            },
            _ => {
                self.view = Screen::ThemeSelection { return_to };
                ShellEffect::Nothing
            },
        }
    }

    fn toc_update(&mut self, action: Action, return_to: Box<Screen>, sections: usize) -> (e: ShellEffect)
        ensures
            (*final(self), e) == toc_step(Shell { view: Screen::TableOfContents { return_to }, ..*old(self) }, action, sections),
    {
        match action {
            Action::NextLine => {
                if sections > 0 {
                    self.toc_cursor = if self.toc_cursor < sections - 1 {
                        self.toc_cursor + 1
                    } else {
                        sections - 1
                    };
                }
                self.view = Screen::TableOfContents { return_to };
                ShellEffect::Nothing
            },
            Action::PreviousLine => {
                if self.toc_cursor > 0 {
                    self.toc_cursor = self.toc_cursor - 1;
                }
                self.view = Screen::TableOfContents { return_to };
                ShellEffect::Nothing
            },
            Action::Confirm => {
                if sections > 0 {
                    let target = if self.toc_cursor < sections {
                        self.toc_cursor
                    } else {
                        sections - 1
                    };
                    self.view = *return_to;
                    ShellEffect::JumpTo(target)
                } else {
                    self.view = Screen::TableOfContents { return_to };
                    ShellEffect::Nothing
                }
            },
            Action::Quit | Action::Back | Action::ShowToc | Action::ShowThemes => {
                self.view = *return_to;
                ShellEffect::Nothing
            },
            Action::ShowHelp => {
                self.view = Screen::Help { return_to: Box::new(Screen::TableOfContents { return_to }) };
                ShellEffect::Nothing
            },
            _ => {
                self.view = Screen::TableOfContents { return_to };
                ShellEffect::Nothing
            },
        }
    }

    fn main_update(&mut self, action: Action, view: Screen, sections: usize, current: Option<usize>) -> (e: ShellEffect)
        requires
            !(view is ThemeSelection),
            !(view is TableOfContents),
        ensures
            (*final(self), e) == main_step(Shell { view, ..*old(self) }, action, sections, current),
    {
        let reading = matches!(view, Screen::Reader { .. });
        match action {
            Action::Quit => {
                self.view = view;
                self.running = false;
                ShellEffect::Nothing
            },
            Action::ShowHelp => {
                if matches!(view, Screen::Help { .. }) {
                    self.view = view;
                } else {
                    self.view = Screen::Help { return_to: Box::new(view) };
                }
                ShellEffect::Nothing
            },
            Action::Back => {
                match view {
                    Screen::Help { return_to } => self.view = *return_to,
                    other => self.view = other,
                }
                ShellEffect::Nothing
            },
            Action::ShowThemes => {
                self.theme_cursor = index_of_theme(self.theme);
                self.view = Screen::ThemeSelection { return_to: Box::new(view) };
                ShellEffect::Nothing
            },
            Action::ShowToc => {
                if reading {
                    let wanted = match current {
                        Some(i) => i,
                        None => 0,
                    };
                    let last = if sections > 0 {
                        sections - 1
                    } else {
                        0
                    };
                    self.toc_cursor = if wanted < last {
                        wanted
                    } else {
                        last
                    };
                    self.view = Screen::TableOfContents { return_to: Box::new(view) };
                } else {
                    self.view = view;
                }
                ShellEffect::Nothing
            },
            _ => {
                self.view = view;
                if !reading {
                    return ShellEffect::Nothing;
                }
                match action {
                    Action::NextLine => ShellEffect::Line(Direction::TowardEnd),
                    Action::PreviousLine => ShellEffect::Line(Direction::TowardStart),
                    Action::NextPage => ShellEffect::Page(Direction::TowardEnd),
                    Action::PreviousPage => ShellEffect::Page(Direction::TowardStart),
                    Action::DocumentStart => ShellEffect::DocumentStart,
                    Action::DocumentEnd => ShellEffect::DocumentEnd,
                    Action::SectionStart => ShellEffect::Section(Direction::TowardStart),
                    Action::SectionEnd => ShellEffect::Section(Direction::TowardEnd),
                    Action::SetModePaged => ShellEffect::SetMode(Mode::Paged),
                    Action::SetModeContinuous => ShellEffect::SetMode(Mode::Continuous),
                    _ => ShellEffect::Nothing,
                }
            },
        }
    }
}

/// Help restores exactly the view that invoked it: opening help and going
/// back leaves every view, overlays included, as it was.
pub proof fn lemma_help_then_back_restores(s: Shell, sections: usize, current: Option<usize>)
    requires
        !(s.view is Help),
    ensures
        spec_update(spec_update(s, Action::ShowHelp, sections, current).0, Action::Back, sections, current).0
            == s,
{
}

/// Overlays never move the hidden reading anchor: outside the reader view
/// no action asks the reader to move, except choosing an entry of the
/// table of contents.
pub proof fn lemma_overlays_keep_the_anchor(s: Shell, action: Action, sections: usize, current: Option<usize>)
    requires
        !(s.view is Reader),
    ensures
        match spec_update(s, action, sections, current).1 {
            ShellEffect::Line(_) | ShellEffect::Page(_) | ShellEffect::DocumentStart | ShellEffect::DocumentEnd
            | ShellEffect::Section(_) | ShellEffect::SetMode(_) => false,
            ShellEffect::JumpTo(_) => s.view is TableOfContents && action == Action::Confirm,
            _ => true,
        },
{
}

/// Quit stops the state loop from every view but the theme list and the
/// table of contents, where it closes the overlay instead.
pub proof fn lemma_quit_stops(s: Shell, sections: usize, current: Option<usize>)
    ensures
        !(s.view is ThemeSelection) && !(s.view is TableOfContents) ==> !spec_update(
            s,
            Action::Quit,
            sections,
            current,
        ).0.running,
        (s.view is ThemeSelection || s.view is TableOfContents) ==> spec_update(s, Action::Quit, sections, current).0
            == (Shell { view: return_view(s.view), ..s }),
{
}


/// What the reader keeps once an effect has been carried out: a new
/// navigation selection (when the effect sets one), a new reading mode
/// (when it changes), and a status note.
#[derive(Debug, PartialEq, Eq)]
pub struct Settled {
    pub navigation: Option<Option<usize>>,
    pub mode: Option<Mode>,
    pub note: Option<String>,
}

/// The status note for an effect: the chosen theme, a changed mode, or the
/// section jumped to (its title, or "Untitled section").
pub open spec fn effect_note(effect: ShellEffect, mode: Mode, jumped: Option<Seq<char>>) -> Option<Seq<char>> {
    match effect {
        ShellEffect::ThemeApplied(theme) => Some("Theme: "@ + crate::theme::spec_slug(theme)),
        ShellEffect::SetMode(m) => if m == mode {
            None
        } else {
            Some(
                match m {
                    Mode::Paged => "Paged mode"@,
                    Mode::Continuous => "Continuous mode"@,
                },
            )
        },
        ShellEffect::JumpTo(_) => Some(
            "Jumped: "@ + match jumped {
                Some(t) => t,
                None => "Untitled section"@,
            },
        ),
        _ => None,
    }
}

/// Settles an effect for an open book at `mode` with `points` navigation
/// points: jumping to the start selects the first point (if any), to the
/// end the last one; a mode switch to another mode changes it; the note is
/// `effect_note`. `jumped` is the title of the point a jump reached.
pub fn settle(effect: ShellEffect, mode: Mode, points: usize, jumped: Option<&str>) -> (r: Settled)
    ensures
        r.navigation == match effect {
            ShellEffect::DocumentStart => Some(if points > 0 { Some(0usize) } else { None }),
            ShellEffect::DocumentEnd => Some(if points > 0 { Some((points - 1) as usize) } else { None }),
            _ => None,
        },
        r.mode == match effect {
            ShellEffect::SetMode(m) => if m == mode { None } else { Some(m) },
            _ => None,
        },
        match r.note {
            Some(n) => effect_note(effect, mode, match jumped {
                Some(t) => Some(t@),
                None => None,
            }) == Some(n@),
            None => effect_note(effect, mode, match jumped {
                Some(t) => Some(t@),
                None => None,
            }) is None,
        },
{
    let navigation = match effect {
        ShellEffect::DocumentStart => Some(if points > 0 { Some(0usize) } else { None }),
        ShellEffect::DocumentEnd => Some(if points > 0 { Some(points - 1) } else { None }),
        _ => None,
    };
    let new_mode = match effect {
        ShellEffect::SetMode(m) => if m == mode { None } else { Some(m) },
        _ => None,
    };
    let note = match effect {
        ShellEffect::ThemeApplied(theme) => {
            let mut n = owned("Theme: ");
            crate::strings::push_str(&mut n, theme.slug());
            Some(n)
        },
        ShellEffect::SetMode(m) => if m == mode {
            None
        } else {
            match m {
                Mode::Paged => Some(owned("Paged mode")),
                Mode::Continuous => Some(owned("Continuous mode")),
            }
        },
        ShellEffect::JumpTo(_) => {
            let mut n = owned("Jumped: ");
            match jumped {
                Some(t) => crate::strings::push_str(&mut n, t),
                None => crate::strings::push_str(&mut n, "Untitled section"),
            }
            Some(n)
        },
        _ => None,
    };
    Settled { navigation, mode: new_mode, note }
}
} // verus!
