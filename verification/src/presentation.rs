use vstd::prelude::*;

verus! {

/// A failure at the presentation boundary.
#[derive(Debug)]
pub enum PresentationError {
    NotFound(String),
}

/// The command-line arguments of the program shell; the interface takes
/// none yet.
#[derive(Debug)]
pub struct CliArgs {}

/// Handles one command-line invocation; there is nothing to do yet.
pub fn cli_handler(_args: CliArgs) -> (r: Result<(), PresentationError>)
    ensures
        r is Ok,
{
    Ok(())
}

} // verus!
