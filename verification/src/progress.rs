//! How a run reports progress: spinners and bars on a terminal, plain stage lines when the
//! output is read by a program.

use vstd::prelude::*;

verus! {

/// Whether progress goes to a terminal or to a program reading JSON output.
#[derive(Debug, Clone, Copy, PartialEq, Eq)]
pub struct ProgressReporter {
    json_output: bool,
}

impl ProgressReporter {
    pub fn new(json_output: bool) -> (r: Self)
        ensures
            r.reports_json() == json_output,
    {
        ProgressReporter { json_output }
    }

    /// Whether stages are reported as plain lines for a program rather than drawn.
    pub fn json_output(&self) -> (r: bool)
        ensures
            r == self.reports_json(),
    {
        self.json_output
    }

    /// Whether stages are reported as plain lines for a program rather than drawn.
    pub closed spec fn reports_json(&self) -> bool {
        self.json_output
    }
}

} // verus!
