//! Why a resolution run stops. Any of these aborts the whole run; no partial
//! command is ever produced.

use vstd::prelude::*;

verus! {

#[derive(Debug, Clone, PartialEq, Eq)]
pub enum ResolveError {
    /// A token without a name reached resolution.
    MalformedPlaceholder,
    /// A selection was requested over an empty choice set.
    EmptyChoiceSet,
    /// The chosen row has fewer fields than the requested column.
    ColumnOutOfBounds { column: usize, variable: String },
    /// An external command could not be spawned, or exited non-zero.
    CommandExecutionFailed { command: String, exit_code: Option<i32> },
    /// The host cancelled an interactive selection.
    SelectionAborted,
    /// The host cancelled an interactive text entry.
    InputAborted,
    /// A snippet function's lookup produced no rows.
    NoFunctionResults,
    /// A placeholder's `from` lookup produced no rows.
    NoLookupResults { command: String },
    /// There is no snippet to choose from.
    NoSnippets,
    /// No snippet carries the requested name.
    SnippetNotFound,
}

impl ResolveError {
    /// A failed external command, naming exactly this command.
    pub open spec fn is_failure_of(self, command: Seq<char>) -> bool {
        match self {
            ResolveError::CommandExecutionFailed { command: c, exit_code: _ } => c@ == command,
            _ => false,
        }
    }

    /// An empty lookup row set, naming exactly this command.
    pub open spec fn is_empty_lookup_of(self, command: Seq<char>) -> bool {
        match self {
            ResolveError::NoLookupResults { command: c } => c@ == command,
            _ => false,
        }
    }

    /// A missing column, naming exactly this column and variable.
    pub open spec fn is_column_error(self, column: usize, variable: Seq<char>) -> bool {
        match self {
            ResolveError::ColumnOutOfBounds { column: c, variable: v } => c == column && v@
                == variable,
            _ => false,
        }
    }
}

} // verus!
