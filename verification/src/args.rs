//! The command-line surface of a batch run.

use vstd::prelude::*;

verus! {

/// The two command-line inputs: the path of the delimited transaction
/// source, and whether to log verbosely.
#[derive(Debug, Clone)]
pub struct Args {
    pub tx_csv: String,
    pub verbose: bool,
}

} // verus!
