//! The capability boundaries that the host injects: interactive value entry
//! and external command execution.
//!
//! Production wires in a terminal prompt and a subshell; tests wire in
//! scripted doubles. The resolution engine is verified against these
//! contracts alone, for every behaviour an implementation may show.

use vstd::prelude::*;
use crate::errors::ResolveError;

verus! {

/// Supplies variable values interactively: free text entry and row
/// selection.
pub trait ValueProvider {
    /// Asks for free text for `var_name`. A host that offers no input
    /// returns the default (or an empty string) rather than failing; the one
    /// failure is a cancelled entry.
    fn prompt_input(&mut self, var_name: &str, prompt: &str, default: Option<String>) -> (r:
        Result<String, ResolveError>)
        ensures
            (r matches Err(e) ==> e == ResolveError::InputAborted),
    ;

    /// Presents `records` and returns the index of the chosen row. The
    /// caller checks for an empty choice set beforehand; the failures are a
    /// cancelled selection and the empty choice set.
    fn prompt_select(
        &mut self,
        var_name: &str,
        prompt: &str,
        records: Vec<Vec<String>>,
        default_index: Option<usize>,
    ) -> (r: Result<usize, ResolveError>)
        requires
            records@.len() > 0,
        ensures
            (r matches Ok(i) ==> i < records@.len()),
            (r matches Err(e) ==> e == ResolveError::SelectionAborted || e
                == ResolveError::EmptyChoiceSet),
    ;
}

/// Runs an auxiliary shell command and captures its standard output.
pub trait LookupExecutor {
    /// Runs `command` in a subshell. `Ok` carries the captured standard
    /// output; `Err` carries the exit code of a failed run, or nothing when
    /// the process could not be spawned.
    fn run_lookup(&mut self, command: &str) -> (r: Result<String, Option<i32>>);
}

} // verus!
