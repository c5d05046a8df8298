//! The place of a mount: its parent and its name, what may stand there, and how the parent is kept
//! from being changed meanwhile.

use crate::mount_policy::locked_mode;
use crate::path::{body, file_name_of, first_segment, kept, parent_of, FsPath};
use crate::secure_mount::{is_relative_target, validate_relative};
use crate::text::{first_index, lemma_first_index};
use vstd::prelude::*;

verus! {

/// Why a place cannot be that of a mount.
#[derive(Debug, Clone, Copy, PartialEq, Eq, Structural)]
pub enum PlaceError {
    NotNormalized,
    /// What stands there is neither a file nor a directory.
    WrongKind,
}

impl PlaceError {
    pub fn message(self) -> (r: &'static str)
        ensures
            r@ == (match self {
                PlaceError::NotNormalized => 
                    "mount target must be a non-empty normalized relative path"@,
                PlaceError::WrongKind =>
                    "mount target final component is not a regular file or directory"@,
            }),
    {
        match self {
            PlaceError::NotNormalized => "mount target must be a non-empty normalized relative path",
            PlaceError::WrongKind => "mount target final component is not a regular file or directory",
        }
    }
}

/// The directory that a mount's place is looked for in, below the sandbox's root; none where that
/// is the root itself.
#[derive(Debug)]
pub struct MountPlace {
    pub parent: Option<FsPath>,
    pub name: String,
}

/// The directory in which a place is looked for.
pub open spec fn place_parent(target: Seq<char>) -> Option<Seq<char>> {
    match parent_of(target) {
        Some(parent) => if parent.len() == 0 {
            None
        } else {
            Some(parent)
        },
        None => None,
    }
}

/// A place below a sandbox's root has a name.
proof fn lemma_target_has_name(target: Seq<char>)
    requires
        is_relative_target(target),
    ensures
        file_name_of(target) is Some,
{
    reveal_strlit("..");
    lemma_first_index(target, '/');
    assert(first_segment(target).len() > 0) by {
        if first_index(target, '/') == 0 {
            assert(target[0] == '/');
        }
    }
    assert(kept(first_segment(target)));
    assert(body(target)[0] == first_segment(target));
    let last = body(target)[body(target).len() - 1];
    assert(last != ".."@);
    assert(".."@ =~= seq!['.', '.']);
}

/// The parent and the name of a place below a sandbox's root.
pub fn mount_place(target: &FsPath) -> (r: Result<MountPlace, PlaceError>)
    ensures
        match r {
            Ok(place) => {
                &&& is_relative_target(target@)
                &&& file_name_of(target@) == Some(place.name@)
                &&& match place.parent {
                    Some(parent) => place_parent(target@) == Some(parent@),
                    None => place_parent(target@) is None,
                }
            },
            Err(error) => error == PlaceError::NotNormalized && !is_relative_target(target@),
        },
{
    if !validate_relative(target) {
        return Err(PlaceError::NotNormalized);
    }
    let parent: Option<FsPath> = match target.parent() {
        Some(parent) => if parent.as_str().unicode_len() == 0 {
            None
        } else {
            Some(parent)
        },
        None => None,
    };
    match target.file_name() {
        Some(name) => Ok(MountPlace { parent, name }),
        None => {
            proof {
                lemma_target_has_name(target@);
            }
            Err(PlaceError::NotNormalized)
        },
    }
}

/// Whether something can be mounted upon what stands at a place.
pub fn check_place_kind(is_directory: bool, is_file: bool) -> (r: Result<(), PlaceError>)
    ensures
        match r {
            Ok(_) => is_directory || is_file,
            Err(error) => error == PlaceError::WrongKind && !is_directory && !is_file,
        },
{
    if is_directory || is_file {
        Ok(())
    } else {
        Err(PlaceError::WrongKind)
    }
}

/// How a directory stands that a file is mounted in: it is to be owned by root and not writable
/// until the mount is made, since its owner could otherwise replace the file.
#[derive(Debug, Clone, Copy, PartialEq, Eq, Structural)]
pub enum Protection {
    /// Hands the directory to root.
    TakingOver,
    /// Asks whether the file system can be written at all.
    AskingReadOnly,
    /// Sets the mode without the permission to write.
    Locking { mode: u32 },
    /// Puts back what was there before.
    Restoring,
    Locked,
    /// Nobody can write there: nothing has to be done.
    ReadOnly,
    Failed,
    /// What was there before could not be put back either.
    FailedUnrestored,
}

/// What follows when a step has succeeded or not; `read_only_system` tells of a failure that the
/// system gave as its reason that nothing can be written.
pub open spec fn protection_next(
    now: Protection,
    mode: u32,
    succeeded: bool,
    read_only_system: bool,
) -> Protection {
    match now {
        Protection::TakingOver => if succeeded {
            Protection::Locking { mode: mode & !0o222u32 }
        } else if read_only_system {
            Protection::AskingReadOnly
        } else {
            Protection::Failed
        },
        Protection::AskingReadOnly => if succeeded {
            Protection::ReadOnly
        } else {
            Protection::Failed
        },
        Protection::Locking { .. } => if succeeded {
            Protection::Locked
        } else {
            Protection::Restoring
        },
        Protection::Restoring => if succeeded {
            Protection::Failed
        } else {
            Protection::FailedUnrestored
        },
        _ => now,
    }
}

/// What follows when a step of protecting a directory has succeeded or not.
pub fn protect_regular_file_parent(
    now: Protection,
    mode: u32,
    succeeded: bool,
    read_only_system: bool,
) -> (r: Protection)
    ensures
        r == protection_next(now, mode, succeeded, read_only_system),
{
    match now {
        Protection::TakingOver => if succeeded {
            Protection::Locking { mode: locked_mode(mode) }
        } else if read_only_system {
            Protection::AskingReadOnly
        } else {
            Protection::Failed
        },
        Protection::AskingReadOnly => if succeeded {
            Protection::ReadOnly
        } else {
            Protection::Failed
        },
        Protection::Locking { .. } => if succeeded {
            Protection::Locked
        } else {
            Protection::Restoring
        },
        Protection::Restoring => if succeeded {
            Protection::Failed
        } else {
            Protection::FailedUnrestored
        },
        Protection::Locked => now,
        Protection::ReadOnly => now,
        Protection::Failed => now,
        Protection::FailedUnrestored => now,
    }
}

/// A mode under which a directory is locked gives nobody the permission to write.
pub proof fn lemma_locked_mode(mode: u32)
    ensures
        (mode & !0o222u32) & 0o222u32 == 0,
        (mode & !0o222u32) | (mode & 0o222u32) == mode,
{
    assert((mode & !0o222u32) & 0o222u32 == 0) by (bit_vector);
    assert((mode & !0o222u32) | (mode & 0o222u32) == mode) by (bit_vector);
}

} // verus!
