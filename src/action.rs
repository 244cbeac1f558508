use vstd::prelude::*;

verus! {

/// What one run is asked to do: the repository to fetch, where to write the
/// amalgamation, and whether to report each step.
pub struct AmalgamationAction {
    pub url: String,
    pub output_pathname: String,
    pub verbose: bool,
}

} // verus!
