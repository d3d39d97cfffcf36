//! The data model: snippets, placeholders and the bulk-resolution function.

use vstd::prelude::*;
use crate::parser::{parse_placeholders, spec_placeholders_from};

verus! {

/// One `[[...]]` placeholder token of a template, parsed into its parts:
/// a variable name, an optional default value, an optional lookup command
/// (`from:"cmd"`), an optional column selector (`select:N`, meaningful only
/// together with `from`), and an optional resolution priority (`order:M`).
#[derive(Debug, Clone, PartialEq, Eq)]
pub struct Placeholder {
    pub name: String,
    pub default: Option<String>,
    pub from: Option<String>,
    pub select: Option<usize>,
    pub order: Option<usize>,
}

/// The mathematical content of a [`Placeholder`]: the same parts with the
/// strings as character sequences.
pub ghost struct PlaceholderView {
    pub name: Seq<char>,
    pub default: Option<Seq<char>>,
    pub from: Option<Seq<char>>,
    pub select: Option<usize>,
    pub order: Option<usize>,
}

/// The character-sequence view of an optional string.
pub open spec fn opt_view(o: Option<String>) -> Option<Seq<char>> {
    match o {
        Some(s) => Some(s@),
        None => None,
    }
}

impl View for Placeholder {
    type V = PlaceholderView;

    open spec fn view(&self) -> PlaceholderView {
        PlaceholderView {
            name: self.name@,
            default: opt_view(self.default),
            from: opt_view(self.from),
            select: self.select,
            order: self.order,
        }
    }
}

/// A snippet-level auxiliary command whose one chosen output row seeds
/// several variables at once: `select` maps each variable name to the column
/// of the row that provides its value.
#[derive(Debug, Clone, PartialEq, Eq)]
pub struct Function {
    pub from: String,
    pub select: Vec<(String, usize)>,
}

impl Function {
    /// The select mapping binds each variable name once.
    pub open spec fn wf(&self) -> bool {
        forall|i: int, j: int|
            0 <= i < j < self.select@.len() ==> self.select@[i].0@ != self.select@[j].0@
    }
}

/// A named command template, the placeholders derived from it, and an
/// optional bulk-resolution [`Function`].
#[derive(Debug, Clone, PartialEq, Eq)]
pub struct Snippet {
    pub name: String,
    pub command: String,
    pub placeholders: Vec<Placeholder>,
    pub function: Option<Function>,
}

impl Snippet {
    /// The placeholders are exactly the tokens of the template, and the
    /// function's select mapping, if any, binds each name once.
    pub open spec fn wf(&self) -> bool {
        &&& self.placeholders@.map_values(|p: Placeholder| p@) == spec_placeholders_from(
            self.command@,
            0,
        )
        &&& match self.function {
            Some(f) => f.wf(),
            None => true,
        }
    }

    /// Builds a snippet, deriving its placeholder list from the template.
    pub fn new(name: String, command: String, function: Option<Function>) -> (s: Snippet)
        requires
            (function matches Some(f) ==> f.wf()),
        ensures
            s.name == name,
            s.command == command,
            s.function == function,
            s.wf(),
    {
        let placeholders = parse_placeholders(command.as_str());
        Snippet { name, command, placeholders, function }
    }
}

/// A parsed configuration: the snippets of one source, in file order.
#[derive(Debug, Clone, PartialEq, Eq)]
pub struct SnippetConfig {
    pub snippets: Vec<Snippet>,
}

/// What the host passes down from its invocation: an optional extra snippet
/// file and the logging choices.
#[derive(Debug, Clone, PartialEq, Eq)]
pub struct AppContext {
    pub file: Option<String>,
    pub log_level: String,
    pub log_file: Option<String>,
}

} // verus!
