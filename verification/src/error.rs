//! Why building a control-message area can fail.

use vstd::prelude::*;

verus! {

/// Why a control-message area could not be built.
#[derive(Clone, Copy, Debug, Eq, Hash, Ord, PartialEq, PartialOrd, Structural)]
pub enum Error {
    /// The sink does not start on a boundary at which a header may stand.
    Alignment,
    /// The sink cannot take the bytes that a message needs.
    NoSpace,
}

} // verus!
