//! The native API's packed version word, decoded into its parts.

use vstd::prelude::*;

verus! {

/// An API version: major, minor and patch parts.
#[derive(Clone, Copy, Debug, PartialEq, Eq, Structural)]
pub struct Version {
    pub major: u32,
    pub minor: u32,
    pub patch: u32,
}

impl Version {
    /// Decodes a packed version word: the top ten bits are the major
    /// version, the next ten the minor, the low twelve the patch.
    pub fn from_raw(raw: u32) -> (r: Version)
        ensures
            r.major == raw >> 22,
            r.minor == (raw >> 12) & 0x3ff,
            r.patch == raw & 0xfff,
    {
        Version { major: raw >> 22, minor: (raw >> 12) & 0x3ff, patch: raw & 0xfff }
    }
}

} // verus!
