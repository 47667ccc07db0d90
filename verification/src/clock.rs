//! Wall-clock formatting for the status line.
//!
//! Time is displayed in UTC with a fixed `HH:MM` shape so the status line is
//! deterministic for a given instant and never depends on host locale.
use vstd::prelude::*;

use crate::strings::{digit_char, push_char};

verus! {

/// Seconds since the Unix epoch now, from `SystemTime::now` in std (0 when
/// the clock reads before the epoch). The reading depends on the moment of
/// the call, so nothing is stated of it.
#[verifier::external_body]
fn epoch_seconds() -> u64 {
    std::time::SystemTime::now().duration_since(std::time::UNIX_EPOCH).map_or(0, |d| d.as_secs())
}

/// The `HH:MM` label of epoch second `seconds`, in UTC.
pub open spec fn spec_clock_label(seconds: nat) -> Seq<char> {
    let minutes_of_day = (seconds / 60) % (24 * 60);
    let hour = minutes_of_day / 60;
    let minute = minutes_of_day % 60;
    seq![
        digit_char((hour / 10) as int),
        digit_char((hour % 10) as int),
        ':',
        digit_char((minute / 10) as int),
        digit_char((minute % 10) as int),
    ]
}

/// Formats epoch seconds as UTC `HH:MM`, zero-padded.
pub fn format_epoch(seconds: u64) -> (label: String)
    ensures
        label@ == spec_clock_label(seconds as nat),
{
    let minutes_of_day = (seconds / 60) % (24 * 60);
    let hour = minutes_of_day / 60;
    let minute = minutes_of_day % 60;
    let mut label = String::new();
    push_char(&mut label, ((0x30 + hour / 10) as u8) as char);
    push_char(&mut label, ((0x30 + hour % 10) as u8) as char);
    push_char(&mut label, ':');
    push_char(&mut label, ((0x30 + minute / 10) as u8) as char);
    push_char(&mut label, ((0x30 + minute % 10) as u8) as char);
    assert(label@ =~= spec_clock_label(seconds as nat));
    label
}

/// Formats the current instant as UTC `HH:MM`.
pub fn now_label() -> (label: String)
    ensures
        exists|s: nat| label@ == spec_clock_label(s),
{
    let seconds = epoch_seconds();
    format_epoch(seconds)
}

} // verus!
