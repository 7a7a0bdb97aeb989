//! The errors the store reports. Filesystem failures (create, read,
//! write, delete, copy) happen in the unverified shell around the
//! library and are reported there.

use vstd::prelude::*;

verus! {

/// An error from a store operation.
#[derive(Clone, Copy, PartialEq, Eq, Structural, Debug)]
pub enum KubenvError {
    /// No default base directory could be determined and no explicit
    /// override was given.
    DirectoryResolution,
    /// No profile with the requested name exists.
    NotFound,
    /// A profile with the requested name already exists.
    DuplicateName,
    /// A profile with the same content digest already exists.
    DuplicateContent,
    /// The profile to apply is already the active configuration.
    AlreadyApplied,
}

} // verus!
