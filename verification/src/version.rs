use vstd::prelude::*;

verus! {

/// Name and version shown in the editor's info bar. Reading them from the
/// package manifest happens outside the library.
pub struct AppInfo {
    pub name: String,
    pub version: String,
}

} // verus!
