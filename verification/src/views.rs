//! The screens there are.

use vstd::prelude::*;

verus! {

#[derive(Copy, Clone, Debug, PartialEq, Eq, Structural)]
pub enum View {
    /// No path was given: choose a disk first.
    Picker,
    /// A scan is running.
    Scanning,
    /// The ranked overview, the default answer to "what is using the space".
    Overview,
    /// The radial explorer.
    Explorer,
}

} // verus!
