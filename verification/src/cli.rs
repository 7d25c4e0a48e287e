//! The subcommands of the command line, as plain data.
use vstd::prelude::*;

verus! {

/// A subcommand; without one, the input is rendered.
#[derive(Debug)]
pub enum Command {
    /// Drop the AI-author instruction templates into a project.
    InitGenai(InitGenaiArgs),
}

/// Arguments of `init-genai`.
#[derive(Debug)]
pub struct InitGenaiArgs {
    /// Target directory (the current one when absent).
    pub dir: Option<String>,
    /// Overwrite files that already exist instead of skipping them.
    pub force: bool,
}

} // verus!
