//! The shape of the command line: the downloader's arguments and
//! subcommands as plain data. Argument parsing itself is a collaborator
//! of the engine and happens outside the library.

use vstd::prelude::*;

verus! {

/// Subcommands of the downloader's command line.
#[allow(non_camel_case_types)]
#[derive(Debug)]
pub enum FurlSubCommands {
    /// Show the persisted configuration.
    config,
}

/// The parsed command line: a URL to download, the output directory, the
/// thread count, or a subcommand instead.
#[derive(Debug)]
pub struct Cli {
    /// URL to download the file from.
    pub url: Option<String>,
    /// Output directory; the current directory by default.
    pub out: String,
    /// Number of threads; eight by default, at most 255.
    pub threads: u8,
    pub subcommand: Option<FurlSubCommands>,
}

} // verus!
