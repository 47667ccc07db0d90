//! Keyboard actions: one binding registry shared by input handling and
//! help, plus the deterministic `gg` prefix.
use vstd::prelude::*;

verus! {

/// Every application action reachable from the keyboard.
#[derive(Clone, Copy, Debug, PartialEq, Eq, Structural)]
pub enum Action {
    Quit,
    ShowHelp,
    Back,
    Confirm,
    NextLine,
    PreviousLine,
    NextPage,
    PreviousPage,
    DocumentStart,
    DocumentEnd,
    SectionStart,
    SectionEnd,
    SetModePaged,
    SetModeContinuous,
    ShowThemes,
    ShowToc,
}

/// The key a terminal reported.
#[derive(Clone, Copy, Debug, PartialEq, Eq, Structural)]
pub enum KeyCode {
    Char(char),
    F(u8),
    Backspace,
    Enter,
    Left,
    Right,
    Up,
    Down,
    Home,
    End,
    PageUp,
    PageDown,
    Tab,
    BackTab,
    Delete,
    Insert,
    Esc,
    /// Any key no binding can name.
    Other,
}

/// The modifiers held with a key.
#[derive(Clone, Copy, Debug, PartialEq, Eq, Structural)]
pub struct KeyModifiers {
    pub shift: bool,
    pub control: bool,
    pub alt: bool,
    pub super_key: bool,
    pub hyper: bool,
    pub meta: bool,
}

/// No modifier held.
pub open spec fn no_modifiers() -> KeyModifiers {
    KeyModifiers { shift: false, control: false, alt: false, super_key: false, hyper: false, meta: false }
}

/// Control alone.
pub open spec fn control_only() -> KeyModifiers {
    KeyModifiers { control: true, ..no_modifiers() }
}

/// Shift alone.
pub open spec fn shift_only() -> KeyModifiers {
    KeyModifiers { shift: true, ..no_modifiers() }
}

impl KeyModifiers {
    /// No modifier held.
    pub fn none() -> (m: KeyModifiers)
        ensures
            m == no_modifiers(),
    {
        KeyModifiers { shift: false, control: false, alt: false, super_key: false, hyper: false, meta: false }
    }

    /// Control alone.
    pub fn control() -> (m: KeyModifiers)
        ensures
            m == control_only(),
    {
        KeyModifiers { shift: false, control: true, alt: false, super_key: false, hyper: false, meta: false }
    }

    /// Shift alone.
    pub fn shift() -> (m: KeyModifiers)
        ensures
            m == shift_only(),
    {
        KeyModifiers { shift: true, control: false, alt: false, super_key: false, hyper: false, meta: false }
    }
}

/// Whether a key went down, repeated, or came up.
#[derive(Clone, Copy, Debug, PartialEq, Eq, Structural)]
pub enum KeyEventKind {
    Press,
    Repeat,
    Release,
}

/// One key event as the terminal reported it.
#[derive(Clone, Copy, Debug, PartialEq, Eq, Structural)]
pub struct KeyEvent {
    pub code: KeyCode,
    pub modifiers: KeyModifiers,
    pub kind: KeyEventKind,
}

impl KeyEvent {
    /// A key press.
    pub fn new(code: KeyCode, modifiers: KeyModifiers) -> (e: KeyEvent)
        ensures
            e == (KeyEvent { code, modifiers, kind: KeyEventKind::Press }),
    {
        KeyEvent { code, modifiers, kind: KeyEventKind::Press }
    }

    /// A key event of the given kind.
    pub fn new_with_kind(code: KeyCode, modifiers: KeyModifiers, kind: KeyEventKind) -> (e: KeyEvent)
        ensures
            e == (KeyEvent { code, modifiers, kind }),
    {
        KeyEvent { code, modifiers, kind }
    }
}

/// One entry of the binding registry.
#[derive(Clone, Copy, Debug, PartialEq, Eq)]
pub struct Binding {
    pub action: Action,
    pub key: KeyCode,
    pub modifiers: KeyModifiers,
    pub label: &'static str,
    pub description: &'static str,
}

/// The binding registry, in lookup order. Conventional keys and a small
/// Vim-style family reach the same actions; no essential action needs
/// modifiers beyond Control.
pub open spec fn binding_table() -> Seq<Binding> {
    seq![
        Binding { action: Action::Quit, key: KeyCode::Char('q'), modifiers: no_modifiers(), label: "q", description: "Quit" },
        Binding { action: Action::Quit, key: KeyCode::Char('c'), modifiers: control_only(), label: "Ctrl-C", description: "Quit" },
        Binding { action: Action::ShowHelp, key: KeyCode::F(1), modifiers: no_modifiers(), label: "F1", description: "Help" },
        Binding { action: Action::ShowHelp, key: KeyCode::Char('?'), modifiers: no_modifiers(), label: "?", description: "Help" },
        Binding { action: Action::Back, key: KeyCode::Esc, modifiers: no_modifiers(), label: "Esc", description: "Back" },
        Binding { action: Action::NextLine, key: KeyCode::Down, modifiers: no_modifiers(), label: "Down", description: "Next line" },
        Binding { action: Action::NextLine, key: KeyCode::Char('j'), modifiers: no_modifiers(), label: "j", description: "Next line" },
        Binding { action: Action::PreviousLine, key: KeyCode::Up, modifiers: no_modifiers(), label: "Up", description: "Previous line" },
        Binding { action: Action::PreviousLine, key: KeyCode::Char('k'), modifiers: no_modifiers(), label: "k", description: "Previous line" },
        Binding { action: Action::NextPage, key: KeyCode::PageDown, modifiers: no_modifiers(), label: "PgDn", description: "Next page" },
        Binding { action: Action::NextPage, key: KeyCode::Char('f'), modifiers: control_only(), label: "Ctrl-F", description: "Next page" },
        Binding { action: Action::PreviousPage, key: KeyCode::PageUp, modifiers: no_modifiers(), label: "PgUp", description: "Previous page" },
        Binding { action: Action::PreviousPage, key: KeyCode::Char('b'), modifiers: control_only(), label: "Ctrl-B", description: "Previous page" },
        Binding { action: Action::DocumentStart, key: KeyCode::Home, modifiers: no_modifiers(), label: "Home", description: "Book start" },
        Binding { action: Action::DocumentStart, key: KeyCode::Char('g'), modifiers: no_modifiers(), label: "gg", description: "Book start" },
        Binding { action: Action::DocumentEnd, key: KeyCode::End, modifiers: no_modifiers(), label: "End", description: "Book end" },
        Binding { action: Action::DocumentEnd, key: KeyCode::Char('G'), modifiers: no_modifiers(), label: "G", description: "Book end" },
        Binding { action: Action::SectionStart, key: KeyCode::Char('{'), modifiers: no_modifiers(), label: "{", description: "Previous section" },
        Binding { action: Action::SectionEnd, key: KeyCode::Char('}'), modifiers: no_modifiers(), label: "}", description: "Next section" },
        Binding { action: Action::SetModePaged, key: KeyCode::Char('p'), modifiers: no_modifiers(), label: "p", description: "Paged mode" },
        Binding { action: Action::SetModeContinuous, key: KeyCode::Char('c'), modifiers: no_modifiers(), label: "c", description: "Continuous mode" },
        Binding { action: Action::ShowThemes, key: KeyCode::Char('t'), modifiers: no_modifiers(), label: "t", description: "Themes" },
        Binding { action: Action::ShowToc, key: KeyCode::Char('o'), modifiers: no_modifiers(), label: "o", description: "Contents" },
        Binding { action: Action::ShowToc, key: KeyCode::F(2), modifiers: no_modifiers(), label: "F2", description: "Contents" },
        Binding { action: Action::Confirm, key: KeyCode::Enter, modifiers: no_modifiers(), label: "Enter", description: "Apply" },
    ]
}

/// The registry of every key binding, shared by input handling and help.
pub fn bindings() -> (v: Vec<Binding>)
    ensures
        v@ == binding_table(),
{
    let mut v: Vec<Binding> = Vec::new();
    v.push(Binding { action: Action::Quit, key: KeyCode::Char('q'), modifiers: KeyModifiers::none(), label: "q", description: "Quit" });
    v.push(Binding { action: Action::Quit, key: KeyCode::Char('c'), modifiers: KeyModifiers::control(), label: "Ctrl-C", description: "Quit" });
    v.push(Binding { action: Action::ShowHelp, key: KeyCode::F(1), modifiers: KeyModifiers::none(), label: "F1", description: "Help" });
    v.push(Binding { action: Action::ShowHelp, key: KeyCode::Char('?'), modifiers: KeyModifiers::none(), label: "?", description: "Help" });
    v.push(Binding { action: Action::Back, key: KeyCode::Esc, modifiers: KeyModifiers::none(), label: "Esc", description: "Back" });
    v.push(Binding { action: Action::NextLine, key: KeyCode::Down, modifiers: KeyModifiers::none(), label: "Down", description: "Next line" });
    v.push(Binding { action: Action::NextLine, key: KeyCode::Char('j'), modifiers: KeyModifiers::none(), label: "j", description: "Next line" });
    v.push(Binding { action: Action::PreviousLine, key: KeyCode::Up, modifiers: KeyModifiers::none(), label: "Up", description: "Previous line" });
    v.push(Binding { action: Action::PreviousLine, key: KeyCode::Char('k'), modifiers: KeyModifiers::none(), label: "k", description: "Previous line" });
    v.push(Binding { action: Action::NextPage, key: KeyCode::PageDown, modifiers: KeyModifiers::none(), label: "PgDn", description: "Next page" });
    v.push(Binding { action: Action::NextPage, key: KeyCode::Char('f'), modifiers: KeyModifiers::control(), label: "Ctrl-F", description: "Next page" });
    v.push(Binding { action: Action::PreviousPage, key: KeyCode::PageUp, modifiers: KeyModifiers::none(), label: "PgUp", description: "Previous page" });
    v.push(Binding { action: Action::PreviousPage, key: KeyCode::Char('b'), modifiers: KeyModifiers::control(), label: "Ctrl-B", description: "Previous page" });
    v.push(Binding { action: Action::DocumentStart, key: KeyCode::Home, modifiers: KeyModifiers::none(), label: "Home", description: "Book start" });
    v.push(Binding { action: Action::DocumentStart, key: KeyCode::Char('g'), modifiers: KeyModifiers::none(), label: "gg", description: "Book start" });
    v.push(Binding { action: Action::DocumentEnd, key: KeyCode::End, modifiers: KeyModifiers::none(), label: "End", description: "Book end" });
    v.push(Binding { action: Action::DocumentEnd, key: KeyCode::Char('G'), modifiers: KeyModifiers::none(), label: "G", description: "Book end" });
    v.push(Binding { action: Action::SectionStart, key: KeyCode::Char('{'), modifiers: KeyModifiers::none(), label: "{", description: "Previous section" });
    v.push(Binding { action: Action::SectionEnd, key: KeyCode::Char('}'), modifiers: KeyModifiers::none(), label: "}", description: "Next section" });
    v.push(Binding { action: Action::SetModePaged, key: KeyCode::Char('p'), modifiers: KeyModifiers::none(), label: "p", description: "Paged mode" });
    v.push(Binding { action: Action::SetModeContinuous, key: KeyCode::Char('c'), modifiers: KeyModifiers::none(), label: "c", description: "Continuous mode" });
    v.push(Binding { action: Action::ShowThemes, key: KeyCode::Char('t'), modifiers: KeyModifiers::none(), label: "t", description: "Themes" });
    v.push(Binding { action: Action::ShowToc, key: KeyCode::Char('o'), modifiers: KeyModifiers::none(), label: "o", description: "Contents" });
    v.push(Binding { action: Action::ShowToc, key: KeyCode::F(2), modifiers: KeyModifiers::none(), label: "F2", description: "Contents" });
    v.push(Binding { action: Action::Confirm, key: KeyCode::Enter, modifiers: KeyModifiers::none(), label: "Enter", description: "Apply" });
    assert(v@ =~= binding_table());
    v
}

/// The action of the first binding naming this key and these modifiers.
pub open spec fn first_binding(table: Seq<Binding>, code: KeyCode, modifiers: KeyModifiers) -> Option<Action>
    decreases table.len(),
{
    if table.len() == 0 {
        None
    } else if table[0].key == code && table[0].modifiers == modifiers {
        Some(table[0].action)
    } else {
        first_binding(table.drop_first(), code, modifiers)
    }
}

/// A key event with Shift dropped from character keys: terminals report
/// capital letters as the uppercase character carrying Shift, and the
/// registry names characters directly.
pub open spec fn normalized(event: KeyEvent) -> KeyEvent {
    match event.code {
        KeyCode::Char(_) => KeyEvent { modifiers: KeyModifiers { shift: false, ..event.modifiers }, ..event },
        _ => event,
    }
}

/// Whether the event is a plain `g`.
pub open spec fn is_plain_g(event: KeyEvent) -> bool {
    event.code == KeyCode::Char('g') && event.modifiers == no_modifiers()
}

/// The action of one key event given whether a `g` prefix is pending,
/// with whether a prefix is pending afterwards. Releases are ignored and
/// leave the prefix as it was; a lone `g` opens the prefix; a second `g`
/// completes book start; any other key cancels the prefix and maps
/// normally, so no input is lost.
pub open spec fn spec_map(pending: bool, event: KeyEvent) -> (Option<Action>, bool) {
    if event.kind == KeyEventKind::Release {
        (None, pending)
    } else {
        let e = normalized(event);
        if pending {
            if is_plain_g(e) {
                (Some(Action::DocumentStart), false)
            } else {
                (first_binding(binding_table(), e.code, e.modifiers), false)
            }
        } else if is_plain_g(e) {
            (None, true)
        } else {
            (first_binding(binding_table(), e.code, e.modifiers), false)
        }
    }
}

fn map_single(event: KeyEvent) -> (r: Option<Action>)
    ensures
        r == first_binding(binding_table(), event.code, event.modifiers),
{
    let table = bindings();
    let mut i: usize = 0;
    assert(table@.skip(0) =~= table@);
    while i < table.len()
        invariant
            table@ == binding_table(),
            i <= table@.len(),
            first_binding(binding_table(), event.code, event.modifiers) == first_binding(
                table@.skip(i as int),
                event.code,
                event.modifiers,
            ),
        decreases table.len() - i,
    {
        assert(table@.skip(i as int)[0] == table@[i as int]);
        assert(table@.skip(i as int).drop_first() =~= table@.skip(i + 1));
        if table[i].key == event.code && table[i].modifiers == event.modifiers {
            return Some(table[i].action);
        }
        i = i + 1;
    }
    assert(table@.skip(i as int).len() == 0);
    None
}

/// Turns key events into actions, owning the multikey prefix state.
#[derive(Clone, Copy, Debug, PartialEq, Eq, Structural)]
pub struct KeyMapper {
    g_prefix_pending: bool,
}

impl KeyMapper {
    /// Whether a lone `g` is waiting for its second key.
    pub closed spec fn pending(&self) -> bool {
        self.g_prefix_pending
    }

    /// A mapper with no pending prefix.
    pub fn new() -> (m: KeyMapper)
        ensures
            !m.pending(),
    {
        KeyMapper { g_prefix_pending: false }
    }

    /// Maps one key event, updating the pending prefix.
    pub fn map(&mut self, event: KeyEvent) -> (r: Option<Action>)
        ensures
            (r, final(self).pending()) == spec_map(old(self).pending(), event),
    {
        if event.kind == KeyEventKind::Release {
            return None;
        }
        let e = match event.code {
            KeyCode::Char(_) => KeyEvent {
                code: event.code,
                modifiers: KeyModifiers {
                    shift: false,
                    control: event.modifiers.control,
                    alt: event.modifiers.alt,
                    super_key: event.modifiers.super_key,
                    hyper: event.modifiers.hyper,
                    meta: event.modifiers.meta,
                },
                kind: event.kind,
            },
            _ => event,
        };
        let plain_g = e.code == KeyCode::Char('g') && e.modifiers == KeyModifiers::none();
        if self.g_prefix_pending {
            self.g_prefix_pending = false;
            if plain_g {
                return Some(Action::DocumentStart);
            }
            return map_single(e);
        }
        if plain_g {
            self.g_prefix_pending = true;
            return None;
        }
        map_single(e)
    }
}

impl Default for KeyMapper {
    fn default() -> (m: Self)
        ensures
            !m.pending(),
    {
        KeyMapper { g_prefix_pending: false }
    }
}

/// The action of one key event with no prefix pending.
pub fn action_for(event: KeyEvent) -> (r: Option<Action>)
    ensures
        r == spec_map(false, event).0,
{
    let mut mapper = KeyMapper::new();
    mapper.map(event)
}

/// A press of `code` with `modifiers`.
pub open spec fn press(code: KeyCode, modifiers: KeyModifiers) -> KeyEvent {
    KeyEvent { code, modifiers, kind: KeyEventKind::Press }
}

/// Help and input share one registry: a single press of a binding's key
/// with its modifiers performs the binding's action, for every binding
/// but the `gg` entry, which a second `g` completes.
pub proof fn lemma_bindings_reach_their_actions(i: int)
    requires
        0 <= i < binding_table().len(),
        !(binding_table()[i].key == KeyCode::Char('g') && binding_table()[i].modifiers == no_modifiers()),
    ensures
        spec_map(false, press(binding_table()[i].key, binding_table()[i].modifiers)).0 == Some(
            binding_table()[i].action,
        ),
{
    reveal_with_fuel(first_binding, 26);
}

/// Two presses of a plain `g` reach the book start, and the first alone
/// does nothing yet.
pub proof fn lemma_gg_reaches_book_start()
    ensures
        spec_map(false, press(KeyCode::Char('g'), no_modifiers())) == (None::<Action>, true),
        spec_map(true, press(KeyCode::Char('g'), no_modifiers())) == (Some(Action::DocumentStart), false),
{
}

/// A pending prefix never swallows input: any other pressed key maps
/// exactly as it would without the prefix, and the prefix is gone.
pub proof fn lemma_prefix_never_loses_input(event: KeyEvent)
    requires
        event.kind != KeyEventKind::Release,
        !is_plain_g(normalized(event)),
    ensures
        spec_map(true, event) == spec_map(false, event),
        !spec_map(true, event).1,
{
}

} // verus!
