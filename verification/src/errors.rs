//! The failure kinds that registry operations report.

use vstd::prelude::*;

verus! {

/// Why a registry operation failed.
///
/// Each mutating operation of the registry reports exactly one of these
/// kinds; read-only lookups report absence through `Option` instead.
#[derive(Debug, Clone, Copy, PartialEq, Eq, Structural)]
pub enum StoreError {
    /// The source path handed to an add does not name an existing regular file.
    InvalidSource,
    /// An add resolved to a name that is already taken.
    DuplicateName,
    /// A use, rename or remove named a key that is not in the registry.
    NotFound,
    /// A key's managed copy could not be produced at save time: the managed
    /// path is unset, or the original file is gone and no copy exists yet.
    MaterializeFailed,
    /// Creating or replacing the SSH-directory symlink failed.
    LinkFailed,
    /// Writing the persisted record failed.
    PersistFailed,
    /// Erasing a removed key's files failed.
    DeleteFailed,
}

impl StoreError {
    /// A one-line description, for rendering by a caller.
    pub fn message(&self) -> (r: &'static str)
        ensures
            r@ =~= self.spec_message(),
    {
        match self {
            StoreError::InvalidSource => "invalid path to private key",
            StoreError::DuplicateName => "key with that name already exists",
            StoreError::NotFound => "no key with that name was found",
            StoreError::MaterializeFailed => {
                "no private key path or the original file doesn't exist"
            },
            StoreError::LinkFailed => "failed to link the key into the SSH directory",
            StoreError::PersistFailed => "failed to write the registry record",
            StoreError::DeleteFailed => "failed to erase a removed key's files",
        }
    }

    /// What `message` returns for each kind.
    pub open spec fn spec_message(self) -> Seq<char> {
        match self {
            StoreError::InvalidSource => "invalid path to private key"@,
            StoreError::DuplicateName => "key with that name already exists"@,
            StoreError::NotFound => "no key with that name was found"@,
            StoreError::MaterializeFailed => {
                "no private key path or the original file doesn't exist"@
            },
            StoreError::LinkFailed => "failed to link the key into the SSH directory"@,
            StoreError::PersistFailed => "failed to write the registry record"@,
            StoreError::DeleteFailed => "failed to erase a removed key's files"@,
        }
    }
}

} // verus!
