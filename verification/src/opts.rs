//! The options of one checksum run.

use std::path::PathBuf;
use vstd::prelude::*;

verus! {

/// `std::path::PathBuf`, carried through as it is: nothing in this crate
/// looks inside a path.
#[verifier::external_type_specification]
#[verifier::external_body]
pub struct ExPathBuf(PathBuf);

/// `PathBuf::clone`: the clone is the same path.
pub assume_specification[ <PathBuf as Clone>::clone ](path: &PathBuf) -> (res: PathBuf)
    ensures
        res == path,
;

/// What the caller chose for one run.
#[derive(Debug, Clone)]
pub struct Opts {
    /// Give the checksum in hexadecimal, not in base64.
    pub hex: bool,
    /// Paths, relative to a dependency, to leave out of its digest.
    pub ignore_path: Vec<PathBuf>,
    /// Further paths to digest, as if the instruction file had named them.
    pub extra_path: Vec<PathBuf>,
    /// Strings, such as build arguments, that go into the checksum as they
    /// are.
    pub extra_string: Vec<String>,
    /// Where the instruction file is, if not at `Dockerfile` in the context
    /// directory.
    pub dockerfile_path: Option<PathBuf>,
    /// The context directory of the build.
    pub context_path: PathBuf,
}

impl Opts {
    /// The extra strings, each as a sequence of characters.
    pub open spec fn extra_strings(&self) -> Seq<Seq<char>> {
        self.extra_string@.map_values(|s: String| s@)
    }
}

} // verus!
