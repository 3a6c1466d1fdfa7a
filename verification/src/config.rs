//! Configuration of execution.

use vstd::prelude::*;

verus! {

/// Which parts of execution are switched off.
#[derive(Debug, Clone, Copy, PartialEq, Eq, Structural)]
pub struct Config {
    /// Execution does not go through the pipe.
    pub disable_pipe_execution: bool,
    /// Execution does not use the parallel executor.
    pub disable_grevm: bool,
}

impl Config {
    /// The configuration given by two settings. A setting that is there at all, whatever it
    /// holds, switches its part off.
    pub fn from_settings(
        disable_pipe_execution: Option<String>,
        disable_grevm: Option<String>,
    ) -> (r: Config)
        ensures
            r.disable_pipe_execution == disable_pipe_execution is Some,
            r.disable_grevm == disable_grevm is Some,
    {
        Config {
            disable_pipe_execution: disable_pipe_execution.is_some(),
            disable_grevm: disable_grevm.is_some(),
        }
    }
}

} // verus!
