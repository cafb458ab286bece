//! Python's versioning scheme.
//!
//! PEP-440 describes it. Unlike semver, it allows post-releases (`.postN`),
//! development versions (`.devN`) and epochs (an `N!` prefix), and gives
//! meaning to identifiers such as `post`, `dev`, `rc`, `a` and `b`.
use vstd::prelude::*;

verus! {

/// A PEP-440 version number.
#[derive(Clone, Debug)]
pub struct PythonVersion(String);

} // verus!
