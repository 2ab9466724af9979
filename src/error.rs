//! Why an archive is rejected.
use vstd::prelude::*;

use crate::footer::SectionName;

verus! {

/// The archive is not valid.
#[derive(Debug, Clone, Copy, PartialEq, Eq, Structural)]
pub enum Invalid {
    /// The archive is shorter than the footer; holds the archive's length.
    TooShort(u64),
    /// The magic number is wrong; holds the one found.
    Magic(u32),
    /// The format version is not supported; holds the one found.
    Version(u32),
    /// The named section does not lie within the archive's declared size.
    Section(SectionName),
}

} // verus!
