//! The command line of the tool, and the decisions that it makes of it.

use std::collections::BTreeSet;
use vstd::prelude::*;

use crate::killer::KillOptions;

verus! {

/// The arguments of the tool.
#[derive(Debug)]
pub struct Cli {
    /// One or more targets: PID (`1234`), name (`chrome`), or port (`:3000`).
    pub targets: Vec<String>,
    /// Force kill immediately.
    pub force: bool,
    /// Case-sensitive name matching.
    pub case_sensitive: bool,
    /// Suppress per-process success output.
    pub silent: bool,
    /// Show extra process details.
    pub verbose: bool,
    /// Open the interactive selector; also implied when no targets are passed.
    pub interactive: bool,
    /// Milliseconds to wait before escalating to force kill.
    pub force_after_timeout: u64,
    /// Milliseconds to wait for the process to disappear before reporting failure.
    pub wait_for_exit: u64,
}

impl Cli {
    /// The picker is used when asked for, or when no target is given.
    pub fn interactive_mode(&self) -> (r: bool)
        ensures
            r == (self.interactive || self.targets@.len() == 0),
    {
        self.interactive || self.targets.len() == 0
    }

    /// The options of the kill run that these arguments ask for.
    pub fn kill_options(&self) -> (r: KillOptions)
        ensures
            r == (KillOptions {
                force: self.force,
                silent: self.silent,
                force_after_timeout: self.force_after_timeout,
                wait_for_exit: self.wait_for_exit,
            }),
    {
        KillOptions {
            force: self.force,
            silent: self.silent,
            force_after_timeout: self.force_after_timeout,
            wait_for_exit: self.wait_for_exit,
        }
    }
}

/// A run ends quietly, without killing, when the picker was used and nothing
/// was picked (the picker closed with `Esc`, or no process to pick).
pub fn nothing_picked(interactive_mode: bool, selected: &BTreeSet<u32>) -> (r: bool)
    ensures
        r == (interactive_mode && selected@.is_empty()),
{
    interactive_mode && selected.is_empty()
}

} // verus!
