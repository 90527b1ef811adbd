//! Dotfile manager core: path mapping between the target and the source
//! directory, ignore-pattern matching, conflict detection, the encrypted
//! container format, the decisions of each command, the configuration file's
//! properties, and the status report with its folding and order.

pub mod text;

pub mod error;
pub mod bytes;
pub mod crypt;
pub mod paths;
pub mod path_laws;
pub mod ignore;
pub mod cli;
pub mod state;
pub mod settings;
pub mod commands;
pub mod status;
pub mod report;
pub mod order;
pub mod tasks;
pub mod ignore_file;
pub mod config_file;
