//! Terminal mode lifecycle: every mode the session changes is offered back
//! for restoration in reverse order, after a setup failure as after a
//! normal exit, and one failed restoration step never skips the others.
use vstd::prelude::*;

verus! {

/// The mode changes a terminal session makes, one method per step.
pub trait TerminalControl {
    fn enable_raw_mode(&mut self) -> Result<(), std::io::Error>;

    fn disable_raw_mode(&mut self) -> Result<(), std::io::Error>;

    fn enter_alternate_screen(&mut self) -> Result<(), std::io::Error>;

    fn leave_alternate_screen(&mut self) -> Result<(), std::io::Error>;

    fn hide_cursor(&mut self) -> Result<(), std::io::Error>;

    fn show_cursor(&mut self) -> Result<(), std::io::Error>;

    fn enable_bracketed_paste(&mut self) -> Result<(), std::io::Error>;

    fn disable_bracketed_paste(&mut self) -> Result<(), std::io::Error>;
}

/// How far setup got: each stage names the last mode change that succeeded.
#[derive(Clone, Copy, Debug, PartialEq, Eq, Structural)]
pub enum SetupStage {
    New,
    RawMode,
    AlternateScreen,
    CursorHidden,
    BracketedPaste,
    Restored,
}

/// One setup step, in setup order.
#[derive(Clone, Copy, Debug, PartialEq, Eq, Structural)]
pub enum SetupStep {
    EnableRawMode,
    EnterAlternateScreen,
    HideCursor,
    EnableBracketedPaste,
}

/// One restoration step.
#[derive(Clone, Copy, Debug, PartialEq, Eq, Structural)]
pub enum RestoreStep {
    DisableBracketedPaste,
    ShowCursor,
    LeaveAlternateScreen,
    DisableRawMode,
}

/// The setup steps completed by the time a session reaches `stage`.
pub open spec fn completed_steps(stage: SetupStage) -> Seq<SetupStep> {
    match stage {
        SetupStage::New | SetupStage::Restored => Seq::empty(),
        SetupStage::RawMode => seq![SetupStep::EnableRawMode],
        SetupStage::AlternateScreen => seq![SetupStep::EnableRawMode, SetupStep::EnterAlternateScreen],
        SetupStage::CursorHidden => seq![
            SetupStep::EnableRawMode,
            SetupStep::EnterAlternateScreen,
            SetupStep::HideCursor,
        ],
        SetupStage::BracketedPaste => seq![
            SetupStep::EnableRawMode,
            SetupStep::EnterAlternateScreen,
            SetupStep::HideCursor,
            SetupStep::EnableBracketedPaste,
        ],
    }
}

/// The restoration step that undoes a setup step.
pub open spec fn undo(step: SetupStep) -> RestoreStep {
    match step {
        SetupStep::EnableRawMode => RestoreStep::DisableRawMode,
        SetupStep::EnterAlternateScreen => RestoreStep::LeaveAlternateScreen,
        SetupStep::HideCursor => RestoreStep::ShowCursor,
        SetupStep::EnableBracketedPaste => RestoreStep::DisableBracketedPaste,
    }
}

/// The restoration plan for a session at `stage`.
pub open spec fn spec_restore_steps(stage: SetupStage) -> Seq<RestoreStep> {
    match stage {
        SetupStage::New | SetupStage::Restored => Seq::empty(),
        SetupStage::RawMode => seq![RestoreStep::DisableRawMode],
        SetupStage::AlternateScreen => seq![RestoreStep::LeaveAlternateScreen, RestoreStep::DisableRawMode],
        SetupStage::CursorHidden => seq![
            RestoreStep::ShowCursor,
            RestoreStep::LeaveAlternateScreen,
            RestoreStep::DisableRawMode,
        ],
        SetupStage::BracketedPaste => seq![
            RestoreStep::DisableBracketedPaste,
            RestoreStep::ShowCursor,
            RestoreStep::LeaveAlternateScreen,
            RestoreStep::DisableRawMode,
        ],
    }
}

/// Restoration undoes exactly the completed setup steps, in reverse order.
pub proof fn lemma_restore_reverses_setup(stage: SetupStage)
    ensures
        spec_restore_steps(stage) == completed_steps(stage).reverse().map_values(|s: SetupStep| undo(s)),
{
    assert(spec_restore_steps(stage) =~= completed_steps(stage).reverse().map_values(|s: SetupStep| undo(s)));
}

/// The restoration steps for a session at `stage`, in order.
pub fn restore_steps(stage: SetupStage) -> (steps: Vec<RestoreStep>)
    ensures
        steps@ == spec_restore_steps(stage),
{
    let steps = match stage {
        SetupStage::New | SetupStage::Restored => Vec::new(),
        SetupStage::RawMode => vec![RestoreStep::DisableRawMode],
        SetupStage::AlternateScreen => vec![RestoreStep::LeaveAlternateScreen, RestoreStep::DisableRawMode],
        SetupStage::CursorHidden => vec![
            RestoreStep::ShowCursor,
            RestoreStep::LeaveAlternateScreen,
            RestoreStep::DisableRawMode,
        ],
        SetupStage::BracketedPaste => vec![
            RestoreStep::DisableBracketedPaste,
            RestoreStep::ShowCursor,
            RestoreStep::LeaveAlternateScreen,
            RestoreStep::DisableRawMode,
        ],
    };
    assert(steps@ =~= spec_restore_steps(stage));
    steps
}

/// One call the session made on its control, by step.
#[derive(Clone, Copy, Debug, PartialEq, Eq, Structural)]
pub enum ControlCall {
    Setup(SetupStep),
    Restore(RestoreStep),
}

/// One logged call and what it returned.
pub type ControlEntry = (ControlCall, Result<(), std::io::Error>);

/// The setup steps in setup order.
pub open spec fn setup_order() -> Seq<SetupStep> {
    completed_steps(SetupStage::BracketedPaste)
}

/// The stage after the first `k` setup steps succeeded.
pub open spec fn stage_after(k: int) -> SetupStage {
    if k <= 0 {
        SetupStage::New
    } else if k == 1 {
        SetupStage::RawMode
    } else if k == 2 {
        SetupStage::AlternateScreen
    } else if k == 3 {
        SetupStage::CursorHidden
    } else {
        SetupStage::BracketedPaste
    }
}

/// Whether `calls` is a setup attempt returning `r`: the steps in setup
/// order, each after the previous one succeeded, stopping at the first
/// failure, whose error is returned; success means all four succeeded.
pub open spec fn setup_calls(calls: Seq<ControlEntry>, r: Result<(), std::io::Error>) -> bool {
    &&& 1 <= calls.len() <= 4
    &&& forall|i: int| 0 <= i < calls.len() ==> (#[trigger] calls[i]).0 == ControlCall::Setup(setup_order()[i])
    &&& forall|i: int| 0 <= i < calls.len() - 1 ==> (#[trigger] calls[i]).1 is Ok
    &&& (r is Ok <==> calls.len() == 4 && calls[3].1 is Ok)
    &&& (r is Err ==> r == calls.last().1)
}

/// The first failure among `calls`, or success.
pub open spec fn first_failure(calls: Seq<ControlEntry>) -> Result<(), std::io::Error>
    decreases calls.len(),
{
    if calls.len() == 0 {
        Ok(())
    } else if calls[0].1 is Err {
        calls[0].1
    } else {
        first_failure(calls.drop_first())
    }
}

/// Whether `calls` is a restoration of a session at `stage`: every step of
/// its plan attempted in order, whatever the earlier ones returned.
pub open spec fn restore_calls(calls: Seq<ControlEntry>, stage: SetupStage) -> bool {
    &&& calls.len() == spec_restore_steps(stage).len()
    &&& forall|i: int|
        0 <= i < calls.len() ==> (#[trigger] calls[i]).0 == ControlCall::Restore(spec_restore_steps(stage)[i])
}

/// Keeps the first failure of a sequence of attempts.
fn record_error(first_error: &mut Option<std::io::Error>, result: Result<(), std::io::Error>)
    ensures
        old(first_error).is_some() ==> *final(first_error) == *old(first_error),
        old(first_error).is_none() ==> *final(first_error) == match result {
            Ok(_) => None::<std::io::Error>,
            Err(e) => Some(e),
        },
{
    if first_error.is_none() {
        if let Err(error) = result {
            *first_error = Some(error);
        }
    }
}

/// A terminal whose mode changes are tracked for restoration, with the log
/// of every call made on its control and what each returned.
pub struct TerminalSession<C: TerminalControl> {
    control: C,
    stage: SetupStage,
    log: Ghost<Seq<ControlEntry>>,
}

impl<C: TerminalControl> TerminalSession<C> {
    pub closed spec fn spec_stage(&self) -> SetupStage {
        self.stage
    }

    /// Every call made on the control so far, in order, with its result.
    pub closed spec fn spec_log(&self) -> Seq<ControlEntry> {
        self.log@
    }

    /// How far setup got.
    pub fn stage(&self) -> (s: SetupStage)
        ensures
            s == self.spec_stage(),
    {
        self.stage
    }

    /// Enters raw mode, the alternate screen, a hidden cursor and bracketed
    /// paste, in that order. When a step fails, every step that succeeded is
    /// undone, in reverse order, and the failure comes back with the
    /// restored session, whose log shows every call made.
    pub fn start_with_rollback(control: C) -> (r: Result<Self, (std::io::Error, Self)>)
        ensures
            r matches Ok(s) ==> s.spec_stage() == SetupStage::BracketedPaste && s.spec_log().len() == 4 && forall|
                i: int,
            | 0 <= i < 4 ==> (#[trigger] s.spec_log()[i]).0 == ControlCall::Setup(setup_order()[i]) && s.spec_log()[i].1 is Ok,
            r matches Err(failed) ==> failed.1.spec_stage() == SetupStage::Restored && exists|n: int|
                1 <= n <= 4 && n <= failed.1.spec_log().len() && #[trigger] setup_calls(
                    failed.1.spec_log().subrange(0, n),
                    Err::<(), std::io::Error>(failed.0),
                ) && restore_calls(failed.1.spec_log().subrange(n, failed.1.spec_log().len() as int), stage_after(n - 1)),
    {
        let mut session = TerminalSession { control, stage: SetupStage::New, log: Ghost(Seq::empty()) };
        match session.setup() {
            Ok(()) => {
                proof {
                    let calls = session.log@;
                    assert(calls =~= calls.subrange(0, calls.len() as int));
                    assert forall|i: int| 0 <= i < 4 implies (#[trigger] calls[i]).0 == ControlCall::Setup(
                        setup_order()[i],
                    ) && calls[i].1 is Ok by {
                        assert(calls.subrange(0, calls.len() as int)[i] == calls[i]);
                        if i < 3 {
                            assert(calls.subrange(0, calls.len() as int)[i].1 is Ok);
                        }
                    }
                }
                Ok(session)
            },
            Err(error) => {
                let ghost setup_log = session.log@;
                let ghost n = setup_log.len() as int;
                proof {
                    assert(setup_log.subrange(0, n) =~= setup_log);
                }
                let ghost stage = session.stage;
                proof {
                    assert(stage == stage_after(n - 1));
                    assert(1 <= n <= 4);
                }
                let _cleanup = session.restore();
                proof {
                    let log = session.log@;
                    assert(log.subrange(0, n) == setup_log);
                    assert(setup_calls(log.subrange(0, n), Err::<(), std::io::Error>(error)));
                    assert(restore_calls(log.subrange(n, log.len() as int), stage));
                    assert(session.spec_log() == log);
                }
                let ghost final_log = session.log@;
                let failed = (error, session);
                proof {
                    assert(failed.1.spec_log() == final_log);
                    assert(setup_calls(failed.1.spec_log().subrange(0, n), Err::<(), std::io::Error>(failed.0)));
                    assert(restore_calls(failed.1.spec_log().subrange(n, failed.1.spec_log().len() as int), stage_after(n - 1)));
                }
                Err(failed)
            },
        }
    }

    /// Enters raw mode, the alternate screen, a hidden cursor and bracketed
    /// paste, in that order. When a step fails, every step that succeeded is
    /// undone, in reverse order, and the failure is returned (see
    /// `start_with_rollback` for the calls made).
    pub fn start(control: C) -> (r: Result<Self, std::io::Error>)
        ensures
            r matches Ok(s) ==> s.spec_stage() == SetupStage::BracketedPaste && s.spec_log().len() == 4 && forall|
                i: int,
            | 0 <= i < 4 ==> (#[trigger] s.spec_log()[i]).0 == ControlCall::Setup(setup_order()[i]) && s.spec_log()[i].1 is Ok,
    {
        match Self::start_with_rollback(control) {
            Ok(session) => Ok(session),
            Err((error, _restored)) => Err(error),
        }
    }

    fn invoke_setup(&mut self, step: SetupStep) -> (r: Result<(), std::io::Error>)
        ensures
            final(self).spec_log() == old(self).spec_log().push((ControlCall::Setup(step), r)),
            final(self).stage == old(self).stage,
    {
        let r = match step {
            SetupStep::EnableRawMode => self.control.enable_raw_mode(),
            SetupStep::EnterAlternateScreen => self.control.enter_alternate_screen(),
            SetupStep::HideCursor => self.control.hide_cursor(),
            SetupStep::EnableBracketedPaste => self.control.enable_bracketed_paste(),
        };
        self.log = Ghost(self.log@.push((ControlCall::Setup(step), r)));
        r
    }

    /// Runs the setup steps in order, stopping at the first failure; the
    /// stage records how many succeeded.
    fn setup(&mut self) -> (r: Result<(), std::io::Error>)
        requires
            old(self).stage == SetupStage::New,
        ensures
            final(self).spec_log().len() >= old(self).spec_log().len(),
            final(self).spec_log().subrange(0, old(self).spec_log().len() as int) == old(self).spec_log(),
            setup_calls(
                final(self).spec_log().subrange(old(self).spec_log().len() as int, final(self).spec_log().len() as int),
                r,
            ),
            final(self).stage == stage_after(
                if r is Ok {
                    4
                } else {
                    final(self).spec_log().len() - old(self).spec_log().len() - 1
                },
            ),
    {
        let ghost start = self.log@;
        let ghost n0 = start.len() as int;
        let steps = [
            SetupStep::EnableRawMode,
            SetupStep::EnterAlternateScreen,
            SetupStep::HideCursor,
            SetupStep::EnableBracketedPaste,
        ];
        let stages = [
            SetupStage::RawMode,
            SetupStage::AlternateScreen,
            SetupStage::CursorHidden,
            SetupStage::BracketedPaste,
        ];
        assert(steps@ =~= setup_order());
        let mut i: usize = 0;
        while i < 4
            invariant
                i <= 4,
                steps@ == setup_order(),
                stages@ == seq![
                    SetupStage::RawMode,
                    SetupStage::AlternateScreen,
                    SetupStage::CursorHidden,
                    SetupStage::BracketedPaste,
                ],
                start == old(self).log@,
                n0 == start.len(),
                self.log@.len() == n0 + i,
                self.log@.subrange(0, n0) == start,
                forall|k: int| 0 <= k < i ==> (#[trigger] self.log@[n0 + k]).0 == ControlCall::Setup(setup_order()[k]) && self.log@[n0 + k].1 is Ok,
                self.stage == stage_after(i as int),
            decreases 4 - i,
        {
            let ghost before = self.log@;
            let r = self.invoke_setup(steps[i]);
            proof {
                assert(self.log@.subrange(0, n0) =~= before.subrange(0, n0));
                assert forall|k: int| 0 <= k < i implies (#[trigger] self.log@[n0 + k]).0 == ControlCall::Setup(
                    setup_order()[k],
                ) && self.log@[n0 + k].1 is Ok by {
                    assert(self.log@[n0 + k] == before[n0 + k]);
                }
                assert(self.log@[n0 + i] == (ControlCall::Setup(setup_order()[i as int]), r));
            }
            if let Err(e) = r {
                proof {
                    let calls = self.log@.subrange(n0, self.log@.len() as int);
                    assert forall|k: int| 0 <= k < calls.len() implies (#[trigger] calls[k]).0 == ControlCall::Setup(
                        setup_order()[k],
                    ) by {
                        assert(calls[k] == self.log@[n0 + k]);
                    }
                    assert forall|k: int| 0 <= k < calls.len() - 1 implies (#[trigger] calls[k]).1 is Ok by {
                        assert(calls[k] == self.log@[n0 + k]);
                    }
                    assert(calls.last() == self.log@[n0 + i]);
                }
                return Err(e);
            }
            self.stage = stages[i];
            i = i + 1;
        }
        proof {
            let calls = self.log@.subrange(n0, self.log@.len() as int);
            assert forall|k: int| 0 <= k < calls.len() implies (#[trigger] calls[k]).0 == ControlCall::Setup(
                setup_order()[k],
            ) by {
                assert(calls[k] == self.log@[n0 + k]);
            }
            assert forall|k: int| 0 <= k < calls.len() - 1 implies (#[trigger] calls[k]).1 is Ok by {
                assert(calls[k] == self.log@[n0 + k]);
            }
            assert(calls[3] == self.log@[n0 + 3]);
        }
        Ok(())
    }

    /// Performs one restoration step on the control.
    fn perform(&mut self, step: RestoreStep) -> (r: Result<(), std::io::Error>)
        ensures
            final(self).spec_log() == old(self).spec_log().push((ControlCall::Restore(step), r)),
            final(self).stage == old(self).stage,
    {
        let r = match step {
            RestoreStep::DisableBracketedPaste => self.control.disable_bracketed_paste(),
            RestoreStep::ShowCursor => self.control.show_cursor(),
            RestoreStep::LeaveAlternateScreen => self.control.leave_alternate_screen(),
            RestoreStep::DisableRawMode => self.control.disable_raw_mode(),
        };
        self.log = Ghost(self.log@.push((ControlCall::Restore(step), r)));
        r
    }

    /// Undoes every completed mode change in reverse order, attempting each
    /// step even after a failure and returning the first failure. A restored
    /// session restores nothing more.
    pub fn restore(&mut self) -> (r: Result<(), std::io::Error>)
        ensures
            final(self).spec_stage() == SetupStage::Restored,
            old(self).spec_stage() == SetupStage::Restored ==> r is Ok && final(self).spec_log() == old(
                self,
            ).spec_log(),
            old(self).spec_stage() != SetupStage::Restored ==> {
                let calls = final(self).spec_log().subrange(
                    old(self).spec_log().len() as int,
                    final(self).spec_log().len() as int,
                );
                &&& final(self).spec_log().len() >= old(self).spec_log().len()
                &&& final(self).spec_log().subrange(0, old(self).spec_log().len() as int) == old(self).spec_log()
                &&& restore_calls(calls, old(self).spec_stage())
                &&& r == first_failure(calls)
            },
    {
        if self.stage == SetupStage::Restored {
            return Ok(());
        }
        let steps = restore_steps(self.stage);
        let ghost start = self.log@;
        let ghost n0 = start.len() as int;
        let ghost plan = spec_restore_steps(self.stage);
        let mut first_error: Option<std::io::Error> = None;
        let mut i: usize = 0;
        while i < steps.len()
            invariant
                i <= steps@.len(),
                steps@ == plan,
                start == old(self).log@,
                n0 == start.len(),
                plan == spec_restore_steps(old(self).stage),
                self.log@.len() == n0 + i,
                self.log@.subrange(0, n0) == start,
                forall|k: int| 0 <= k < i ==> (#[trigger] self.log@[n0 + k]).0 == ControlCall::Restore(plan[k]),
                match first_error {
                    Some(e) => first_failure(self.log@.subrange(n0, n0 + i)) == Err::<(), std::io::Error>(e),
                    None => first_failure(self.log@.subrange(n0, n0 + i)) == Ok::<(), std::io::Error>(()),
                },
            decreases steps.len() - i,
        {
            let ghost before = self.log@;
            let result = self.perform(steps[i]);
            proof {
                assert(self.log@.subrange(0, n0) =~= before.subrange(0, n0));
                assert forall|k: int| 0 <= k < i + 1 implies (#[trigger] self.log@[n0 + k]).0 == ControlCall::Restore(
                    plan[k],
                ) by {
                    if k < i {
                        assert(self.log@[n0 + k] == before[n0 + k]);
                    }
                }
                lemma_first_failure_push(before.subrange(n0, n0 + i), (ControlCall::Restore(steps@[i as int]), result));
                assert(self.log@.subrange(n0, n0 + i + 1) =~= before.subrange(n0, n0 + i).push(
                    (ControlCall::Restore(steps@[i as int]), result),
                ));
            }
            record_error(&mut first_error, result);
            i = i + 1;
        }
        self.stage = SetupStage::Restored;
        proof {
            let calls = self.log@.subrange(n0, self.log@.len() as int);
            assert forall|k: int| 0 <= k < calls.len() implies (#[trigger] calls[k]).0 == ControlCall::Restore(
                plan[k],
            ) by {
                assert(calls[k] == self.log@[n0 + k]);
            }
        }
        match first_error {
            Some(error) => Err(error),
            None => Ok(()),
        }
    }
}

/// The first failure after one more call: unchanged once there is one,
/// else the new call's result.
proof fn lemma_first_failure_push(calls: Seq<ControlEntry>, e: ControlEntry)
    ensures
        first_failure(calls.push(e)) == if first_failure(calls) is Err {
            first_failure(calls)
        } else if e.1 is Err {
            e.1
        } else {
            Ok::<(), std::io::Error>(())
        },
    decreases calls.len(),
{
    let pushed = calls.push(e);
    if calls.len() > 0 {
        assert(pushed[0] == calls[0]);
        assert(pushed.drop_first() =~= calls.drop_first().push(e));
        lemma_first_failure_push(calls.drop_first(), e);
        if calls[0].1 is Err {
            assert(first_failure(pushed) == calls[0].1);
        } else {
            assert(first_failure(pushed) == first_failure(pushed.drop_first()));
            assert(first_failure(calls) == first_failure(calls.drop_first()));
        }
    } else {
        assert(pushed[0] == e);
        assert(pushed.drop_first() =~= Seq::<ControlEntry>::empty());
        assert(first_failure(pushed.drop_first()) == Ok::<(), std::io::Error>(()));
        assert(first_failure(calls) == Ok::<(), std::io::Error>(()));
    }
}

} // verus!
