//! A library for resolving shell-command snippets with `[[...]]` placeholder
//! tokens.
//!
//! A snippet is a named command template. The template may contain placeholder
//! tokens of the form `[[name[=default] [from:"cmd"] [select:N] [order:M]]]`.
//! Resolution obtains one value per distinct placeholder name — from a free
//! text prompt, from a fixed default, or from a row of an auxiliary command's
//! output — and rendering substitutes the values back into the template.
//!
//! Interactive prompting and external command execution are capabilities that
//! the host injects through the [`provider::ValueProvider`] and
//! [`provider::LookupExecutor`] traits; everything else is verified logic.

pub mod errors;
pub mod loader;
pub mod model;
pub mod parser;
pub mod provider;
pub mod render;
pub mod resolver;
pub mod text;
pub mod vars;

pub use errors::ResolveError;
pub use model::{AppContext, Function, Placeholder, Snippet, SnippetConfig};
pub use parser::{parse_placeholder, parse_placeholders};
pub use loader::{load_snippet_configs, load_snippet_object, load_snippets};
pub use provider::{LookupExecutor, ValueProvider};
pub use render::render_command;
pub use resolver::{
    apply_function_row, resolution_order, resolve_placeholder, resolve_placeholders, run_qcl,
    split_records,
};
pub use vars::VarMap;
