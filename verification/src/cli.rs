//! The command line: global options, commands and their options.

use vstd::prelude::*;

verus! {

/// Top-level arguments: the global options and the command.
pub struct Args {
    /// Increase output verbosity.
    pub verbose: bool,
    /// Do not restart system services after command execution.
    pub no_restart_services: bool,
    /// Run in dry-run mode: commands are printed, not executed.
    pub dry_run: bool,
    /// Accept all interactive prompts.
    pub accept_all: bool,
    pub command: Command,
}

/// The commands.
#[allow(inconsistent_fields)]
pub enum Command {
    /// Apply the changes written in the config file.
    Apply {
        /// Skip executing external commands at the end.
        no_exec: bool,
    },
    /// See the list of bundle IDs granted with full-disk access.
    SeeFullDisk,
    /// Homebrew backup-and-restore related commands.
    Brew { command: BrewSub },
    /// Run only the external commands written in the config file.
    Exec {
        /// The one command to run, if not all.
        name: Option<String>,
    },
    /// Initialize a new config file with sensible defaults.
    Init {
        /// Skip the confirmation prompt.
        force: bool,
    },
    /// Unapply the previously applied modifications.
    Unapply,
    /// Hard reset the domains written in the config file.
    Reset {
        /// Skip the confirmation prompt.
        force: bool,
    },
    /// Display the current status comparing the config and the system.
    Status {
        /// Only notify if a change is detected.
        prompt: bool,
    },
    /// Manage the configuration file.
    Config { command: ConfigSub },
    /// Generate shell completions.
    Completion { shell: Shell },
    /// Check for version updates.
    CheckUpdate,
}

/// The `config` subcommands.
pub enum ConfigSub {
    /// Display the contents of the configuration file.
    Show,
    /// Delete the configuration file.
    Delete,
}

/// The shells that completions can be generated for.
#[derive(Clone, Copy, PartialEq, Eq, Structural)]
pub enum Shell {
    Bash,
    Zsh,
    Fish,
    Elvish,
    PowerShell,
}

/// The `brew` subcommands.
pub enum BrewSub {
    /// Install Homebrew if not present, then install all formulae and casks from config.
    Install,
    /// Back up the current formulae and casks into the config file.
    Backup,
}

/// Options of `apply`.
pub struct ApplyCmd {
    /// Skip executing external commands at the end.
    pub no_exec: bool,
    /// Run `brew install` after applying defaults.
    pub with_brew: bool,
    /// Do not check that a domain exists before modifying it.
    pub disable_checks: bool,
}

/// Options of `brew install` (none).
pub struct BrewInstallCmd;

/// Options of `reset`.
pub struct ResetCmd {
    /// Reset without asking for confirmation.
    pub force: bool,
}

/// Options of `status` (none).
pub struct StatusCmd;

/// Options of `unapply` (none).
pub struct UnapplyCmd;

/// Options of `check-update` (none).
pub struct CheckUpdateCmd;

/// Options of `self-update` (none).
pub struct SelfUpdateCmd;

} // verus!
