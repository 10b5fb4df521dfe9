//! What can keep an index from being built.

use vstd::prelude::*;

verus! {

/// Why no index was built.
#[derive(Clone, Copy, Debug, PartialEq, Eq, Structural)]
pub enum BuildError {
    /// A category list has more entries than a 32-bit position can count.
    CategoryTooLong,
    /// A display name takes more than 255 bytes.
    NameTooLong,
    /// A prefix that is to be stored takes more than 255 bytes.
    PrefixTooLong,
    /// A count or an offset of the file does not fit in 32 bits.
    TooLarge,
}

impl BuildError {
    /// A sentence for the user.
    pub fn message(&self) -> (r: &'static str)
        ensures
            r@ == match *self {
                BuildError::CategoryTooLong => "a category list has too many entries"@,
                BuildError::NameTooLong => "a display name is longer than 255 bytes"@,
                BuildError::PrefixTooLong => "a cached prefix is longer than 255 bytes"@,
                BuildError::TooLarge => "the index does not fit 32-bit offsets"@,
            },
    {
        match self {
            BuildError::CategoryTooLong => "a category list has too many entries",
            BuildError::NameTooLong => "a display name is longer than 255 bytes",
            BuildError::PrefixTooLong => "a cached prefix is longer than 255 bytes",
            BuildError::TooLarge => "the index does not fit 32-bit offsets",
        }
    }
}

} // verus!
