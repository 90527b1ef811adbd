//! The command line, as plain values: the global options and the
//! subcommands with their flags. Paths are carried as strings.

use vstd::prelude::*;

verus! {

/// The global options and the chosen subcommand.
#[derive(Debug)]
pub struct Args {
    pub command: Command,
    /// Do not perform actions, only checks and reports.
    pub dry_run: bool,
    /// Verbosity level: 0 - quiet, 1 - brief, 2 - info, 3 - debug.
    pub verbosity: usize,
    /// Use another config file.
    pub config: Option<String>,
}

/// The subcommands.
#[derive(Debug)]
pub enum Command {
    /// Initialize state file and config file with the source directory.
    Init { path_to_source: String, path_to_target: Option<String>, dry_run: bool },
    /// Remove state of the program and the source directory.
    Purge { dry_run: bool, keep_source: bool, keep_config_file: bool, force: bool },
    /// Add files under management, or copy changes to the source directory.
    Add { paths: Option<Vec<String>>, force: bool, symlink: bool, encrypt: bool, dry_run: bool },
    /// Copy changes from the source directory to the target directory.
    Pull { paths: Option<Vec<String>>, force: bool, symlink: bool, dry_run: bool },
    /// Copy each managed file the way it changed since the last sync.
    Sync { paths: Option<Vec<String>>, force: bool, dry_run: bool },
    /// Show the differences between target files and their source copies,
    /// or edit both copies at once.
    Diff { paths: Option<Vec<String>>, all: bool, editable: bool },
    /// Show status of managed files.
    Status {
        all: bool,
        short: bool,
        porcelain: bool,
        conflicted: bool,
        modified: bool,
        unmanaged: bool,
        managed: bool,
        unpulled: bool,
        encrypted: bool,
        ignored: bool,
        ignored_patterns: bool,
        unused_patterns: bool,
        paths: Option<Vec<String>>,
    },
    /// Perform 3-way merge on conflicting files.
    Merge { paths: Option<Vec<String>>, dry_run: bool },
    /// Remove files from management (does not delete target files).
    Forget { paths: Option<Vec<String>>, force: bool, dry_run: bool },
    /// Ignore files when processing other subcommands.
    Ignore { paths: Option<Vec<String>>, patterns: Option<Vec<String>>, remove: Option<Vec<String>>, dry_run: bool },
    /// Get or set config properties, or print the default configuration.
    Config { get: Option<String>, set: Option<Vec<String>>, list: bool, default: bool },
    /// Print paths.
    Paths,
    /// Encrypt a single file with a password into an encrypted container.
    Encrypt { path: String, output: Option<String> },
    /// Decrypt an encrypted container.
    Decrypt { path: String, output: Option<String> },
}

/// Arguments of `add`.
#[derive(Debug)]
pub struct AddArgs {
    pub paths: Option<Vec<String>>,
    pub force: bool,
    pub symlink: bool,
    pub encrypt: bool,
    pub dry_run: bool,
}

/// Arguments of `diff`.
#[derive(Debug)]
pub struct DiffArgs {
    pub paths: Option<Vec<String>>,
    pub all: bool,
}

/// Arguments of `diff --editable`.
#[derive(Debug)]
pub struct DiffEditableArgs {
    pub paths: Vec<String>,
    pub dry_run: bool,
}

/// Arguments of `encrypt`.
#[derive(Debug)]
pub struct EncryptArgs {
    pub path: String,
    pub output: Option<String>,
}

/// Arguments of `decrypt`.
#[derive(Debug)]
pub struct DecryptArgs {
    pub path: String,
    pub output: Option<String>,
}

/// Arguments of `forget`.
#[derive(Debug)]
pub struct ForgetArgs {
    pub paths: Option<Vec<String>>,
    pub force: bool,
    pub dry_run: bool,
}

/// Arguments of `init`.
#[derive(Debug)]
pub struct InitArgs {
    pub path_to_source: String,
    pub path_to_target: Option<String>,
    pub dry_run: bool,
}

/// Arguments of `paths`.
#[derive(Debug)]
pub struct PathsArgs {}

/// Arguments of `pull`.
#[derive(Debug)]
pub struct PullArgs {
    pub paths: Option<Vec<String>>,
    pub force: bool,
    pub symlink: bool,
    pub dry_run: bool,
}

/// Arguments of `status`.
#[derive(Debug)]
pub struct StatusArgs {
    pub all: bool,
    pub short: bool,
    pub porcelain: bool,
    pub conflicted: bool,
    pub modified: bool,
    pub unmanaged: bool,
    pub managed: bool,
    pub unpulled: bool,
    pub encrypted: bool,
    pub ignored: bool,
    pub ignored_patterns: bool,
    pub unused_patterns: bool,
    /// Restrict the report to these paths.
    pub paths: Option<Vec<String>>,
}

/// Arguments of `sync`.
#[derive(Debug)]
pub struct SyncArgs {
    pub paths: Option<Vec<String>>,
    pub force: bool,
    pub dry_run: bool,
}

} // verus!
