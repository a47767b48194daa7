//! The subcommand shapes of the command-line surface, as plain data.  The
//! argument parser that fills them lives with the embedding program.

use vstd::prelude::*;

verus! {

/// Template subcommands.
pub enum TemplateCommands {
    List { cached: bool, offline: bool },
    Show { name: String },
    Search { term: String, rank_by: Option<String>, tag: Option<String>, platform: Option<String> },
    Refresh { force: bool, clear: bool },
    Create { name: String },
    Validate { file: String },
}

/// Configuration subcommands.
pub enum ConfigCommands {
    Show,
    Validate { deep: bool, requirements: bool },
    Backup { name: Option<String>, auto_name: bool },
    Restore { backup: String, preview: bool, server: Option<String> },
    Init,
    Path,
}

/// Profile subcommands.
pub enum ProfileCommands {
    Create { name: String },
    List,
    Switch { name: String },
    Current,
    Sync { from: String, to: String, dry_run: bool },
    Delete { name: String, force: bool },
    Save { name: Option<String> },
}

} // verus!
