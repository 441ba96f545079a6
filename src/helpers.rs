//! State shared with the window shell.

use vstd::prelude::*;

verus! {

/// Where a web view stands in its start-up.
#[derive(Clone, Copy, Debug, PartialEq, Eq, Structural)]
pub enum WebViewStatus {
    /// Made, with no window shown yet.
    Initialized,
    /// Its window exists.
    WindowCreated,
}

} // verus!
