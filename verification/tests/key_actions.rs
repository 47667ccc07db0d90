use termleaf::action::{action_for, bindings, Action, KeyCode, KeyEvent, KeyEventKind, KeyMapper, KeyModifiers};

fn key(code: KeyCode, modifiers: KeyModifiers) -> KeyEvent {
    KeyEvent::new(code, modifiers)
}

#[test]
fn key_004_ignores_key_release_events() {
    let event = KeyEvent::new_with_kind(KeyCode::Char('q'), KeyModifiers::none(), KeyEventKind::Release);
    assert_eq!(action_for(event), None);
}

#[test]
fn app_002_help_and_input_use_the_same_binding_registry() {
    let event = KeyEvent::new(KeyCode::F(1), KeyModifiers::none());
    assert_eq!(action_for(event), Some(Action::ShowHelp));
    assert!(bindings().iter().any(|binding| binding.label == "F1"));
}

#[test]
fn term_003_ctrl_c_requests_a_clean_exit() {
    let event = KeyEvent::new(KeyCode::Char('c'), KeyModifiers::control());
    assert_eq!(action_for(event), Some(Action::Quit));
}

#[test]
fn nav_007_conventional_and_vim_families_reach_the_same_actions() {
    let cases = [
        (key(KeyCode::Down, KeyModifiers::none()), Action::NextLine),
        (key(KeyCode::Char('j'), KeyModifiers::none()), Action::NextLine),
        (key(KeyCode::Up, KeyModifiers::none()), Action::PreviousLine),
        (key(KeyCode::Char('k'), KeyModifiers::none()), Action::PreviousLine),
        (key(KeyCode::PageDown, KeyModifiers::none()), Action::NextPage),
        (key(KeyCode::Char('f'), KeyModifiers::control()), Action::NextPage),
        (key(KeyCode::PageUp, KeyModifiers::none()), Action::PreviousPage),
        (key(KeyCode::Char('b'), KeyModifiers::control()), Action::PreviousPage),
        (key(KeyCode::Home, KeyModifiers::none()), Action::DocumentStart),
        (key(KeyCode::End, KeyModifiers::none()), Action::DocumentEnd),
        (key(KeyCode::Char('G'), KeyModifiers::none()), Action::DocumentEnd),
        (key(KeyCode::Char('G'), KeyModifiers::shift()), Action::DocumentEnd),
        (key(KeyCode::Char('?'), KeyModifiers::shift()), Action::ShowHelp),
        (key(KeyCode::Char('{'), KeyModifiers::none()), Action::SectionStart),
        (key(KeyCode::Char('}'), KeyModifiers::none()), Action::SectionEnd),
        (key(KeyCode::Char('p'), KeyModifiers::none()), Action::SetModePaged),
        (key(KeyCode::Char('c'), KeyModifiers::none()), Action::SetModeContinuous),
        (key(KeyCode::Char('t'), KeyModifiers::none()), Action::ShowThemes),
    ];
    for (event, expected) in cases {
        assert_eq!(action_for(event), Some(expected), "for {event:?}");
    }
}

#[test]
fn key_003_gg_prefix_is_deterministic_and_never_loses_input() {
    let mut mapper = KeyMapper::default();
    assert_eq!(mapper.map(key(KeyCode::Char('g'), KeyModifiers::none())), None);
    assert_eq!(mapper.map(key(KeyCode::Char('g'), KeyModifiers::none())), Some(Action::DocumentStart));

    let mut mapper = KeyMapper::default();
    assert_eq!(mapper.map(key(KeyCode::Char('g'), KeyModifiers::none())), None);
    assert_eq!(
        mapper.map(key(KeyCode::Char('j'), KeyModifiers::none())),
        Some(Action::NextLine),
        "unrelated key after lone g still maps"
    );
    assert_eq!(
        mapper.map(key(KeyCode::Char('g'), KeyModifiers::none())),
        None,
        "prefix was consumed by the cancellation"
    );

    let mut mapper = KeyMapper::default();
    assert_eq!(mapper.map(key(KeyCode::Char('g'), KeyModifiers::none())), None);
    assert_eq!(
        mapper.map(key(KeyCode::Char('g'), KeyModifiers::control())),
        None,
        "control-modified g cancels the prefix without completing it"
    );

    let mut mapper = KeyMapper::default();
    assert_eq!(mapper.map(key(KeyCode::Char('g'), KeyModifiers::none())), None);
    assert_eq!(
        mapper.map(key(KeyCode::Char('G'), KeyModifiers::shift())),
        Some(Action::DocumentEnd),
        "a terminal's shifted G cancels the prefix and then maps normally"
    );
}

#[test]
fn key_002_flow_control_keys_do_not_collide_with_text_keys() {
    assert_ne!(
        action_for(key(KeyCode::Char('b'), KeyModifiers::control())),
        action_for(key(KeyCode::Char('b'), KeyModifiers::none()))
    );
    assert_ne!(
        action_for(key(KeyCode::Char('f'), KeyModifiers::control())),
        action_for(key(KeyCode::Char('f'), KeyModifiers::none()))
    );
}

#[test]
fn every_binding_has_a_unique_label_and_help_entry() {
    let mut labels: Vec<&str> = bindings().iter().map(|b| b.label).collect();
    labels.sort_unstable();
    let count = labels.len();
    labels.dedup();
    assert_eq!(labels.len(), count, "labels are unique for help rendering");
}

#[test]
fn release_events_keep_a_pending_prefix() {
    let mut mapper = KeyMapper::new();
    assert_eq!(mapper.map(key(KeyCode::Char('g'), KeyModifiers::none())), None);
    let release = KeyEvent::new_with_kind(KeyCode::Char('x'), KeyModifiers::none(), KeyEventKind::Release);
    assert_eq!(mapper.map(release), None);
    assert_eq!(mapper.map(key(KeyCode::Char('g'), KeyModifiers::none())), Some(Action::DocumentStart));
}

#[test]
fn unbound_keys_and_extra_modifiers_map_to_nothing() {
    assert_eq!(action_for(key(KeyCode::Other, KeyModifiers::none())), None);
    assert_eq!(action_for(key(KeyCode::Char('q'), KeyModifiers::control())), None);
    let repeat = KeyEvent::new_with_kind(KeyCode::Down, KeyModifiers::none(), KeyEventKind::Repeat);
    assert_eq!(action_for(repeat), Some(Action::NextLine));
    assert_eq!(bindings().len(), 25);
}
