//! The subcommands of the `reap` command line.
use vstd::prelude::*;
use crate::types::Subcommand;

verus! {

/// A subcommand as given on the command line.
pub enum Command {
    Hotspots,
    DeadCode,
    Complexity,
    Bugs,
    Circular,
    UnusedFiles,
    Deps,
    Dupes,
    UnusedExports,
    Targets,
    /// `explain <topic words>`: describes a section without scanning.
    Explain(Vec<String>),
}

impl Command {
    /// The scan a command line asks for: a full scan without a subcommand,
    /// else the subcommand's own (`explain` runs no scan of its own, and is
    /// taken as a full one).
    pub fn to_sub(opt: &Option<Command>) -> (r: Subcommand)
        ensures
            r == match opt {
                None => Subcommand::All,
                Some(Command::Hotspots) => Subcommand::Hotspots,
                Some(Command::DeadCode) => Subcommand::DeadCode,
                Some(Command::Complexity) => Subcommand::Complexity,
                Some(Command::Bugs) => Subcommand::Bugs,
                Some(Command::Circular) => Subcommand::Circular,
                Some(Command::UnusedFiles) => Subcommand::UnusedFiles,
                Some(Command::Deps) => Subcommand::Deps,
                Some(Command::Dupes) => Subcommand::Duplicates,
                Some(Command::UnusedExports) => Subcommand::UnusedExports,
                Some(Command::Targets) => Subcommand::Targets,
                Some(Command::Explain(_)) => Subcommand::All,
            },
    {
        match opt {
            None => Subcommand::All,
            Some(Command::Hotspots) => Subcommand::Hotspots,
            Some(Command::DeadCode) => Subcommand::DeadCode,
            Some(Command::Complexity) => Subcommand::Complexity,
            Some(Command::Bugs) => Subcommand::Bugs,
            Some(Command::Circular) => Subcommand::Circular,
            Some(Command::UnusedFiles) => Subcommand::UnusedFiles,
            Some(Command::Deps) => Subcommand::Deps,
            Some(Command::Dupes) => Subcommand::Duplicates,
            Some(Command::UnusedExports) => Subcommand::UnusedExports,
            Some(Command::Targets) => Subcommand::Targets,
            Some(Command::Explain(_)) => Subcommand::All,
        }
    }
}

} // verus!
