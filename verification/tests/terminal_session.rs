use std::cell::RefCell;
use std::io;
use std::rc::Rc;

use termleaf::terminal::{restore_steps, RestoreStep, SetupStage, TerminalControl, TerminalSession};

#[derive(Debug, Default)]
struct MockState {
    calls: Vec<&'static str>,
    fail_at: Option<&'static str>,
}

#[derive(Clone, Debug)]
struct MockControl(Rc<RefCell<MockState>>);

impl MockControl {
    fn call(&self, name: &'static str) -> io::Result<()> {
        let mut state = self.0.borrow_mut();
        state.calls.push(name);
        if state.fail_at == Some(name) {
            return Err(io::Error::other(name));
        }
        Ok(())
    }
}

impl TerminalControl for MockControl {
    fn enable_raw_mode(&mut self) -> io::Result<()> {
        self.call("enable_raw")
    }
    fn disable_raw_mode(&mut self) -> io::Result<()> {
        self.call("disable_raw")
    }
    fn enter_alternate_screen(&mut self) -> io::Result<()> {
        self.call("enter_screen")
    }
    fn leave_alternate_screen(&mut self) -> io::Result<()> {
        self.call("leave_screen")
    }
    fn hide_cursor(&mut self) -> io::Result<()> {
        self.call("hide_cursor")
    }
    fn show_cursor(&mut self) -> io::Result<()> {
        self.call("show_cursor")
    }
    fn enable_bracketed_paste(&mut self) -> io::Result<()> {
        self.call("enable_paste")
    }
    fn disable_bracketed_paste(&mut self) -> io::Result<()> {
        self.call("disable_paste")
    }
}

fn mock(fail_at: Option<&'static str>) -> (MockControl, Rc<RefCell<MockState>>) {
    let state = Rc::new(RefCell::new(MockState { calls: Vec::new(), fail_at }));
    (MockControl(Rc::clone(&state)), state)
}

#[test]
fn term_001_normal_exit_restores_changed_modes_in_reverse_order() -> io::Result<()> {
    let (control, state) = mock(None);
    let mut session = TerminalSession::start(control)?;
    session.restore()?;
    assert_eq!(
        state.borrow().calls,
        [
            "enable_raw",
            "enter_screen",
            "hide_cursor",
            "enable_paste",
            "disable_paste",
            "show_cursor",
            "leave_screen",
            "disable_raw",
        ]
    );
    Ok(())
}

#[test]
fn term_005_each_setup_failure_rolls_back_completed_steps() {
    let cases: &[(&str, &[&str])] = &[
        ("enable_raw", &["enable_raw"]),
        ("enter_screen", &["enable_raw", "enter_screen", "disable_raw"]),
        ("hide_cursor", &["enable_raw", "enter_screen", "hide_cursor", "leave_screen", "disable_raw"]),
        (
            "enable_paste",
            &["enable_raw", "enter_screen", "hide_cursor", "enable_paste", "show_cursor", "leave_screen", "disable_raw"],
        ),
    ];
    for (failure, expected_calls) in cases {
        let (control, state) = mock(Some(failure));
        assert!(TerminalSession::start(control).is_err());
        assert_eq!(&state.borrow().calls, expected_calls, "failed at {failure}");
    }
}

#[test]
fn app_004_cleanup_attempts_every_step_after_one_restore_failure() -> io::Result<()> {
    let (control, state) = mock(None);
    let mut session = TerminalSession::start(control)?;
    state.borrow_mut().fail_at = Some("show_cursor");
    let error = session.restore().expect_err("show cursor restoration fails");
    let calls = &state.borrow().calls;
    assert!(calls.ends_with(&["disable_paste", "show_cursor", "leave_screen", "disable_raw"]));
    assert_eq!(error.to_string(), "show_cursor");
    Ok(())
}

#[test]
fn a_restored_session_restores_nothing_more() -> io::Result<()> {
    let (control, state) = mock(None);
    let mut session = TerminalSession::start(control)?;
    session.restore()?;
    let before = state.borrow().calls.len();
    session.restore()?;
    assert_eq!(state.borrow().calls.len(), before);
    assert_eq!(session.stage(), SetupStage::Restored);
    Ok(())
}

#[test]
fn restoration_plans_reverse_the_completed_setup() {
    assert_eq!(restore_steps(SetupStage::New), Vec::new());
    assert_eq!(restore_steps(SetupStage::AlternateScreen), vec![RestoreStep::LeaveAlternateScreen, RestoreStep::DisableRawMode]);
    assert_eq!(restore_steps(SetupStage::BracketedPaste).len(), 4);
}

#[test]
fn failed_start_returns_the_restored_session_after_undoing_completed_steps() {
    let (control, state) = mock(Some("hide_cursor"));
    match TerminalSession::start_with_rollback(control) {
        Ok(_) => panic!("setup must fail"),
        Err((_, session)) => assert_eq!(session.stage(), SetupStage::Restored),
    }
    assert_eq!(state.borrow().calls, ["enable_raw", "enter_screen", "hide_cursor", "leave_screen", "disable_raw"]);
}
