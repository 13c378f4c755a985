//! Verified core of the `ks` command-line secret manager: exit codes, output
//! mode, shell quoting, template substitution, tree listing, health report and
//! the decisions each command takes around the store.
pub mod audit;
pub mod cli;
pub mod commands;
pub mod doctor;
pub mod edit;
pub mod error;
pub mod exit;
pub mod hardening;
pub mod info;
pub mod output;
pub mod prompt;
pub mod recipients;
pub mod shell;
pub mod show;
pub mod template;
pub mod terminal;
pub mod text;
