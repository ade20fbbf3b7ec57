//! The look of the progress spinner and the rule for showing it.

use vstd::prelude::*;

verus! {

/// The time between two frames of the spinner, in milliseconds.
pub const SPINNER_TICK_MILLIS: u64 = 80;

/// The frames of the spinner, in the order in which they are shown.
pub const SPINNER_TICK_STRINGS: [&'static str; 10] = ["⠋", "⠙", "⠹", "⠸", "⠼", "⠴", "⠦", "⠧", "⠇", "⠏"];

/// How a scan reports that it is running.
#[derive(Clone, Copy, Debug, PartialEq, Eq, Structural)]
pub enum Progress {
    /// Nothing is written.
    Silent,
    /// A spinner is drawn until the scan is done.
    Spinner,
}

/// A spinner is drawn only where the output is an interactive terminal, so
/// that nothing is written into a redirected stream.
pub fn progress_for(interactive: bool) -> (p: Progress)
    ensures
        p == if interactive {
            Progress::Spinner
        } else {
            Progress::Silent
        },
{
    if interactive {
        Progress::Spinner
    } else {
        Progress::Silent
    }
}

} // verus!
