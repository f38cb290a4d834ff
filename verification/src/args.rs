//! The single-argument form of the command line.

use vstd::prelude::*;

verus! {

/// The arguments of a run that only needs the cloud access token.
pub struct Args {
    pub token: String,
}

} // verus!
