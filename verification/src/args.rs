//! The command model of the companion command-line tool: plain data that
//! names what the tool was asked to do.

use vstd::prelude::*;

verus! {

/// The top-level commands.
#[derive(Debug, Clone)]
#[non_exhaustive]
pub enum Commands {
    /// Networking commands.
    Net { command: NetCommands },
}

/// The networking commands.
#[derive(Debug, Clone)]
#[non_exhaustive]
pub enum NetCommands {
    /// Monitor reachability: repeat every `repeat` seconds (0 for a single
    /// try), count a try successful from `success_ratio` percent reachable
    /// targets upward, check `extra_urls` besides the built-in ones unless
    /// `no_default` drops the built-in list.
    Monitor { repeat: u64, success_ratio: u8, extra_urls: Vec<String>, no_default: bool },
    /// Discover hosts in the local network.
    Discover {},
}

} // verus!
