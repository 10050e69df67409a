//! The command line of the tool, as plain values.

use vstd::prelude::*;

verus! {

/// The command line: an optional subcommand, the path to WeChat.app and an
/// optional path to an external config.json.
pub struct Cli {
    pub command: Option<Commands>,
    /// Path to WeChat.app
    pub app: String,
    /// Path to external config.json (uses embedded config if not specified)
    pub config: Option<String>,
}

/// The subcommands.
#[derive(Debug, Clone, Copy, PartialEq, Eq, Structural)]
pub enum Commands {
    /// Patch WeChat binary (multi-instance + anti-revoke)
    Patch,
    /// List current and supported WeChat versions
    Versions,
}

impl Cli {
    /// The subcommand to run: the one given, or `Patch` when none is.
    pub fn command_to_run(&self) -> (c: Commands)
        ensures
            c == match self.command {
                Some(c) => c,
                None => Commands::Patch,
            },
    {
        match self.command {
            Some(c) => c,
            None => Commands::Patch,
        }
    }
}

} // verus!
