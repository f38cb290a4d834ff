//! The command-line inputs the tool runs with.

use vstd::prelude::*;

verus! {

/// The arguments of a build run: the configuration file and the cloud
/// access token.
pub struct CliArgs {
    pub config: String,
    pub token: String,
}

} // verus!
