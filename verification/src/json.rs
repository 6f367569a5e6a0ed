use vstd::prelude::*;

verus! {

/// The run's machine-readable summary; serializing it is left to the
/// program around the library.
#[derive(Debug, Clone, PartialEq, Eq)]
pub struct Json {
    pub version: String,
    pub previous_version: String,
    pub bump: bool,
}

impl Json {
    pub fn new(version: String, previous_version: String, bump: bool) -> (r: Self)
        ensures
            r.version@ == version@,
            r.previous_version@ == previous_version@,
            r.bump == bump,
    {
        Json { version, previous_version, bump }
    }
}

} // verus!
