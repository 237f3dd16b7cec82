//! Why resolving a single path failed.  A failure is reported as a warning
//! for that path alone and never blocks the resolution of other paths.

use vstd::prelude::*;

verus! {

/// The reasons a path's resolution can fail.
#[derive(Debug)]
pub enum ResolveError {
    /// The entity is neither a symlink, a directory, nor a regular file.
    Unsupported,
    /// The leading bytes name a shebang whose header cannot be tokenized.
    InvalidShebang,
    /// The shebang delegates to the search-path indirection command and the
    /// named command is not on the search path.
    CommandNotFound,
    /// The bytes could not be parsed as an ELF container.
    ElfUnparseable,
    /// The ELF `.interp` section is compressed, which is unsupported.
    ElfCompressed,
    /// A processed file has no parent directory: a broken internal
    /// invariant, fatal for the whole run.
    NoParentDir,
}

impl ResolveError {
    /// The diagnostic text for a warning line.
    pub fn message(&self) -> (r: String)
        ensures
            self is Unsupported ==> r@ == "path is unsupported"@,
            self is InvalidShebang ==> r@ == "invalid shebang"@,
            self is CommandNotFound ==> r@ == "command not found"@,
            self is ElfUnparseable ==> r@ == "unparseable ELF container"@,
            self is ElfCompressed ==> r@ == "compressed headers unsupported"@,
            self is NoParentDir ==> r@ == "no parent directory found"@,
    {
        match self {
            ResolveError::Unsupported => "path is unsupported".to_owned(),
            ResolveError::InvalidShebang => "invalid shebang".to_owned(),
            ResolveError::CommandNotFound => "command not found".to_owned(),
            ResolveError::ElfUnparseable => "unparseable ELF container".to_owned(),
            ResolveError::ElfCompressed => "compressed headers unsupported".to_owned(),
            ResolveError::NoParentDir => "no parent directory found".to_owned(),
        }
    }
}

} // verus!
