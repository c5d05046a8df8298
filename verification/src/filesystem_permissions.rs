//! The filesystem permissions that an application's metadata asks for.

use crate::flatpak_metadata::{list_items, split_list, value, value_of};
use crate::order::{deduplicated, depth_le, sort_paths_by_depth, sorted};
use crate::path::{components, is_absolute, path_texts, same_path, FsPath};
use crate::text::{
    concat, contains_char, has_prefix, join, join_texts, lemma_texts_push, lemma_views_push,
    rsplit_once, rsplit_text_once, starts_with, text_eq, texts, views,
};
use vstd::prelude::*;

verus! {

/// How a sandbox may use a part of the host's files.
#[derive(Debug, Clone, Copy, PartialEq, Eq, Structural)]
pub enum AccessMode {
    ReadOnly,
    ReadWrite,
}

/// The more permissive of two modes.
pub open spec fn merged_access(a: AccessMode, b: AccessMode) -> AccessMode {
    if a == AccessMode::ReadWrite || b == AccessMode::ReadWrite {
        AccessMode::ReadWrite
    } else {
        AccessMode::ReadOnly
    }
}

impl AccessMode {
    pub fn is_read_only(self) -> (r: bool)
        ensures
            r == (self == AccessMode::ReadOnly),
    {
        match self {
            AccessMode::ReadOnly => true,
            AccessMode::ReadWrite => false,
        }
    }

    pub fn label(self) -> (r: &'static str)
        ensures
            r@ == (match self {
                AccessMode::ReadOnly => "read-only"@,
                AccessMode::ReadWrite => "read-write"@,
            }),
    {
        match self {
            AccessMode::ReadOnly => "read-only",
            AccessMode::ReadWrite => "read-write",
        }
    }

    /// The more permissive of the two.
    pub fn merge(self, other: AccessMode) -> (r: AccessMode)
        ensures
            r == merged_access(self, other),
    {
        match (self, other) {
            (AccessMode::ReadOnly, AccessMode::ReadOnly) => AccessMode::ReadOnly,
            _ => AccessMode::ReadWrite,
        }
    }
}

/// Merging takes the more permissive mode, in whatever order and however often.
pub proof fn lemma_merged_access(a: AccessMode, b: AccessMode, c: AccessMode)
    ensures
        merged_access(a, a) == a,
        merged_access(a, b) == merged_access(b, a),
        merged_access(merged_access(a, b), c) == merged_access(a, merged_access(b, c)),
        merged_access(a, AccessMode::ReadWrite) == AccessMode::ReadWrite,
{
}

/// Why the filesystem permissions of an application cannot be used.
#[derive(Debug)]
pub enum FilesystemError {
    UnsupportedSuffix(String),
    InvalidSubpath(String),
    InvalidPersistentPath(String),
    RelativeHostGrant(FsPath),
    RelativeSandboxGrant(FsPath),
    RelativeSandboxPath(FsPath),
    InvalidSandboxPath(FsPath),
    SandboxRootTarget,
}

impl FilesystemError {
    pub fn message(&self) -> (r: String)
        ensures
            r@ == (match self {
                FilesystemError::UnsupportedSuffix(raw) =>
                    "unsupported filesystem permission suffix in "@ + raw@,
                FilesystemError::InvalidSubpath(suffix) =>
                    "invalid filesystem permission subpath: "@ + suffix@,
                FilesystemError::InvalidPersistentPath(item) =>
                    "invalid Flatpak persistent path: "@ + item@,
                FilesystemError::RelativeHostGrant(path) =>
                    "host filesystem grant must be absolute: "@ + path@,
                FilesystemError::RelativeSandboxGrant(path) =>
                    "sandbox filesystem grant must be absolute: "@ + path@,
                FilesystemError::RelativeSandboxPath(path) => "sandbox path must be absolute: "@
                    + path@,
                FilesystemError::InvalidSandboxPath(path) => "invalid sandbox path: "@ + path@,
                FilesystemError::SandboxRootTarget =>
                    "refusing to use sandbox root as a mount target"@,
            }),
    {
        match self {
            FilesystemError::UnsupportedSuffix(raw) => concat(
                "unsupported filesystem permission suffix in ",
                raw,
            ),
            FilesystemError::InvalidSubpath(suffix) => concat(
                "invalid filesystem permission subpath: ",
                suffix,
            ),
            FilesystemError::InvalidPersistentPath(item) => concat(
                "invalid Flatpak persistent path: ",
                item,
            ),
            FilesystemError::RelativeHostGrant(path) => concat(
                "host filesystem grant must be absolute: ",
                path.as_str(),
            ),
            FilesystemError::RelativeSandboxGrant(path) => concat(
                "sandbox filesystem grant must be absolute: ",
                path.as_str(),
            ),
            FilesystemError::RelativeSandboxPath(path) => concat(
                "sandbox path must be absolute: ",
                path.as_str(),
            ),
            FilesystemError::InvalidSandboxPath(path) => concat(
                "invalid sandbox path: ",
                path.as_str(),
            ),
            FilesystemError::SandboxRootTarget =>
                "refusing to use sandbox root as a mount target".to_owned(),
        }
    }
}

/// One item of `filesystems`.
#[derive(Debug)]
pub struct FilesystemPermission {
    pub original: String,
    pub path: String,
    pub access: AccessMode,
    pub create: bool,
}

pub ghost struct PermissionView {
    pub original: Seq<char>,
    pub path: Seq<char>,
    pub access: AccessMode,
    pub create: bool,
}

impl View for FilesystemPermission {
    type V = PermissionView;

    open spec fn view(&self) -> PermissionView {
        PermissionView {
            original: self.original@,
            path: self.path@,
            access: self.access,
            create: self.create,
        }
    }
}

impl FilesystemPermission {
    pub fn original(&self) -> (r: &str)
        ensures
            r@ == self@.original,
    {
        &self.original
    }

    pub fn access(&self) -> (r: AccessMode)
        ensures
            r == self@.access,
    {
        self.access
    }

    pub fn create(&self) -> (r: bool)
        ensures
            r == self@.create,
    {
        self.create
    }
}

/// What an item asks for: a mode may follow the last colon, but a colon in a name below a
/// directory is part of the name. A negated item is kept as it is.
pub open spec fn permission_of(raw: Seq<char>) -> Option<PermissionView> {
    if starts_with(raw, "!"@) {
        Some(
            PermissionView {
                original: raw,
                path: raw,
                access: AccessMode::ReadOnly,
                create: false,
            },
        )
    } else {
        match rsplit_once(raw, ':') {
            Some((path, mode)) => if mode == "ro"@ {
                Some(
                    PermissionView {
                        original: raw,
                        path,
                        access: AccessMode::ReadOnly,
                        create: false,
                    },
                )
            } else if mode == "rw"@ {
                Some(
                    PermissionView {
                        original: raw,
                        path,
                        access: AccessMode::ReadWrite,
                        create: false,
                    },
                )
            } else if mode == "create"@ {
                Some(
                    PermissionView {
                        original: raw,
                        path,
                        access: AccessMode::ReadWrite,
                        create: true,
                    },
                )
            } else if path.contains('/') {
                Some(
                    PermissionView {
                        original: raw,
                        path: raw,
                        access: AccessMode::ReadWrite,
                        create: false,
                    },
                )
            } else {
                None
            },
            None => Some(
                PermissionView {
                    original: raw,
                    path: raw,
                    access: AccessMode::ReadWrite,
                    create: false,
                },
            ),
        }
    }
}

/// What the items ask for, or the first item that asks for nothing known.
pub open spec fn permissions_of(items: Seq<Seq<char>>) -> Result<Seq<PermissionView>, Seq<char>>
    decreases items.len(),
{
    if items.len() == 0 {
        Ok(Seq::empty())
    } else {
        match permissions_of(items.drop_last()) {
            Err(raw) => Err(raw),
            Ok(before) => match permission_of(items.last()) {
                Some(permission) => Ok(before.push(permission)),
                None => Err(items.last()),
            },
        }
    }
}

/// The items of a list in the section `Context`.
pub open spec fn context_items(metadata: Seq<char>, key: Seq<char>) -> Seq<Seq<char>> {
    match value_of(metadata, "Context"@, key) {
        Some(value) => list_items(value),
        None => Seq::empty(),
    }
}

/// The items of a list in the section `Context`.
pub fn context_list(metadata: &str, key: &str) -> (r: Vec<String>)
    ensures
        texts(r@) == context_items(metadata@, key@),
{
    match value(metadata, "Context", key) {
        Some(text) => split_list(&text),
        None => {
            let out: Vec<String> = Vec::new();
            assert(texts(out@) =~= Seq::<Seq<char>>::empty());
            out
        },
    }
}

fn parse_permission(raw: &str) -> (r: Option<FilesystemPermission>)
    ensures
        r is Some <==> permission_of(raw@) is Some,
        r matches Some(p) ==> Some(p@) == permission_of(raw@),
{
    let original = raw.to_owned();
    if has_prefix(raw, "!") {
        return Some(
            FilesystemPermission {
                original,
                path: raw.to_owned(),
                access: AccessMode::ReadOnly,
                create: false,
            },
        );
    }
    let (path, mode) = match rsplit_text_once(raw, ':') {
        Some(parts) => parts,
        None => {
            return Some(
                FilesystemPermission {
                    original,
                    path: raw.to_owned(),
                    access: AccessMode::ReadWrite,
                    create: false,
                },
            );
        },
    };
    if text_eq(&mode, "ro") {
        Some(FilesystemPermission { original, path, access: AccessMode::ReadOnly, create: false })
    } else if text_eq(&mode, "rw") {
        Some(FilesystemPermission { original, path, access: AccessMode::ReadWrite, create: false })
    } else if text_eq(&mode, "create") {
        Some(FilesystemPermission { original, path, access: AccessMode::ReadWrite, create: true })
    } else if contains_char(&path, '/') {
        Some(
            FilesystemPermission {
                original,
                path: raw.to_owned(),
                access: AccessMode::ReadWrite,
                create: false,
            },
        )
    } else {
        None
    }
}

/// The filesystem permissions that the metadata asks for.
pub fn parse_filesystem_permissions(metadata: &str) -> (r: Result<
    Vec<FilesystemPermission>,
    FilesystemError,
>)
    ensures
        match permissions_of(context_items(metadata@, "filesystems"@)) {
            Ok(all) => r matches Ok(permissions) && views(permissions@) == all,
            Err(raw) => r matches Err(FilesystemError::UnsupportedSuffix(text)) && text@ == raw,
        },
{
    let items = context_list(metadata, "filesystems");
    let ghost all = texts(items@);
    let mut out: Vec<FilesystemPermission> = Vec::new();
    let mut i: usize = 0;
    assert(views(out@) =~= Seq::<PermissionView>::empty());
    assert(all.take(0) =~= Seq::<Seq<char>>::empty());
    while i < items.len()
        invariant
            i <= items@.len(),
            all == texts(items@),
            all == context_items(metadata@, "filesystems"@),
            permissions_of(all.take(i as int)) == Ok::<Seq<PermissionView>, Seq<char>>(
                views(out@),
            ),
        decreases items@.len() - i,
    {
        proof {
            let next = all.take(i + 1);
            assert(next.drop_last() =~= all.take(i as int));
            assert(next.last() == items@[i as int]@);
        }
        match parse_permission(&items[i]) {
            Some(permission) => {
                proof {
                    lemma_views_push(out@, permission);
                }
                out.push(permission);
            },
            None => {
                let raw = items[i].clone();
                proof {
                    lemma_first_refusal(all, i + 1);
                }
                return Err(FilesystemError::UnsupportedSuffix(raw));
            },
        }
        i += 1;
    }
    assert(all.take(i as int) =~= all);
    Ok(out)
}

/// The first item that is refused decides.
proof fn lemma_first_refusal(items: Seq<Seq<char>>, n: int)
    requires
        0 <= n <= items.len(),
        permissions_of(items.take(n)) is Err,
    ensures
        permissions_of(items) == permissions_of(items.take(n)),
    decreases items.len() - n,
{
    if n == items.len() {
        assert(items.take(n) =~= items);
    } else {
        assert(items.take(n + 1).drop_last() =~= items.take(n));
        lemma_first_refusal(items, n + 1);
    }
}

/// Whether a persistent path stays below the home directory.
pub open spec fn stays_below(item: Seq<char>) -> bool {
    !is_absolute(item) && forall|i: int|
        0 <= i < components(item).len() ==> #[trigger] components(item)[i] != ".."@
}

/// The components of a path that are names.
pub open spec fn names_of(parts: Seq<Seq<char>>) -> Seq<Seq<char>>
    decreases parts.len(),
{
    if parts.len() == 0 {
        Seq::empty()
    } else if parts.last() == "/"@ || parts.last() == "."@ {
        names_of(parts.drop_last())
    } else {
        names_of(parts.drop_last()).push(parts.last())
    }
}

/// The names of a relative path with a slash between each two; `.` where there is none.
pub open spec fn relative_text(item: Seq<char>) -> Seq<char> {
    let names = names_of(components(item));
    if names.len() == 0 {
        "."@
    } else {
        join(names, "/"@)
    }
}

/// The names among the components of a path.
pub fn path_names(path: &FsPath) -> (r: Vec<String>)
    ensures
        texts(r@) == names_of(components(path@)),
{
    let parts = path.components();
    let ghost all = texts(parts@);
    let mut names: Vec<String> = Vec::new();
    let mut i: usize = 0;
    assert(texts(names@) =~= names_of(all.take(0)));
    while i < parts.len()
        invariant
            i <= parts@.len(),
            all == texts(parts@),
            texts(names@) == names_of(all.take(i as int)),
        decreases parts@.len() - i,
    {
        proof {
            let next = all.take(i + 1);
            assert(next.drop_last() =~= all.take(i as int));
            assert(next.last() == parts@[i as int]@);
        }
        if !text_eq(&parts[i], "/") && !text_eq(&parts[i], ".") {
            let name = parts[i].clone();
            proof {
                lemma_texts_push(names@, name);
            }
            names.push(name);
        }
        i += 1;
    }
    assert(all.take(i as int) =~= all);
    names
}

/// Whether `..` is among the components of the path.
pub fn has_parent_component(path: &FsPath) -> (r: bool)
    ensures
        r == exists|i: int|
            0 <= i < components(path@).len() && #[trigger] components(path@)[i] == ".."@,
{
    let parts = path.components();
    let mut i: usize = 0;
    while i < parts.len()
        invariant
            i <= parts@.len(),
            texts(parts@) == components(path@),
            forall|j: int| 0 <= j < i ==> #[trigger] components(path@)[j] != ".."@,
        decreases parts@.len() - i,
    {
        assert(components(path@)[i as int] == parts@[i as int]@);
        if text_eq(&parts[i], "..") {
            return true;
        }
        i += 1;
    }
    assert(texts(parts@).len() == parts@.len());
    false
}

/// The items that ask for something, as relative paths, or the first that leaves the home
/// directory.
pub open spec fn persistent_of(items: Seq<Seq<char>>) -> Result<Seq<Seq<char>>, Seq<char>>
    decreases items.len(),
{
    if items.len() == 0 {
        Ok(Seq::empty())
    } else {
        match persistent_of(items.drop_last()) {
            Err(item) => Err(item),
            Ok(before) => if starts_with(items.last(), "!"@) {
                Ok(before)
            } else if stays_below(items.last()) {
                Ok(before.push(relative_text(items.last())))
            } else {
                Err(items.last())
            },
        }
    }
}

/// The paths below the home directory that the application keeps, parents first.
pub fn parse_persistent_paths(metadata: &str) -> (r: Result<Vec<FsPath>, FilesystemError>)
    ensures
        match persistent_of(context_items(metadata@, "persistent"@)) {
            Ok(all) => r matches Ok(paths) && path_texts(paths@) == deduplicated(
                sorted(all, |p: Seq<char>, q: Seq<char>| depth_le(p, q)),
                |p: Seq<char>, q: Seq<char>| same_path(p, q),
            ),
            Err(item) => r matches Err(FilesystemError::InvalidPersistentPath(text)) && text@
                == item,
        },
{
    let items = context_list(metadata, "persistent");
    let ghost all = texts(items@);
    let mut out: Vec<FsPath> = Vec::new();
    let mut i: usize = 0;
    assert(path_texts(out@) =~= Seq::<Seq<char>>::empty());
    assert(all.take(0) =~= Seq::<Seq<char>>::empty());
    while i < items.len()
        invariant
            i <= items@.len(),
            all == texts(items@),
            all == context_items(metadata@, "persistent"@),
            persistent_of(all.take(i as int)) == Ok::<Seq<Seq<char>>, Seq<char>>(
                path_texts(out@),
            ),
        decreases items@.len() - i,
    {
        proof {
            let next = all.take(i + 1);
            assert(next.drop_last() =~= all.take(i as int));
            assert(next.last() == items@[i as int]@);
        }
        if !has_prefix(&items[i], "!") {
            let path = FsPath::new(&items[i]);
            if path.is_absolute() || has_parent_component(&path) {
                let item = items[i].clone();
                proof {
                    lemma_first_escape(all, i + 1);
                }
                return Err(FilesystemError::InvalidPersistentPath(item));
            }
            let names = path_names(&path);
            assert(texts(names@).len() == names@.len());
            let relative = if names.len() == 0 {
                FsPath::new(".")
            } else {
                FsPath { text: join_texts(names.as_slice(), "/") }
            };
            proof {
                lemma_views_push(out@, relative);
            }
            out.push(relative);
        }
        i += 1;
    }
    assert(all.take(i as int) =~= all);
    Ok(sort_paths_by_depth(out))
}

proof fn lemma_first_escape(items: Seq<Seq<char>>, n: int)
    requires
        0 <= n <= items.len(),
        persistent_of(items.take(n)) is Err,
    ensures
        persistent_of(items) == persistent_of(items.take(n)),
    decreases items.len() - n,
{
    if n == items.len() {
        assert(items.take(n) =~= items);
    } else {
        assert(items.take(n + 1).drop_last() =~= items.take(n));
        lemma_first_escape(items, n + 1);
    }
}

} // verus!
