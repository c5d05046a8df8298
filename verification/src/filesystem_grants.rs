//! The parts of the host's files that a sandbox is given.

use crate::filesystem_permissions::{
    has_parent_component, names_of, path_names, AccessMode, FilesystemError,
};
use crate::order::{
    ascending, deduplicated, depth_le, depth_order, lemma_path_orders, lemma_path_orders_total,
    lemma_sorted_set, lemma_sorted_set_covers, lemma_sorted_set_member, sort_paths_by_depth,
    sorted,
};
use crate::path::{
    components, is_absolute, joined, lemma_within_order, path_after, path_texts, same_path, within,
    FsPath,
};
use crate::text::{join, join_texts, lemma_views_push, texts};
use vstd::prelude::*;

verus! {

/// A directory of the host that stands at a place in the sandbox.
#[derive(Debug)]
pub struct HostPathGrant {
    pub label: String,
    pub source_permission: String,
    pub host_path: FsPath,
    pub canonical_host_path: FsPath,
    pub sandbox_path: FsPath,
    pub access: AccessMode,
}

pub ghost struct GrantView {
    pub label: Seq<char>,
    pub source_permission: Seq<char>,
    pub host_path: Seq<char>,
    pub canonical_host_path: Seq<char>,
    pub sandbox_path: Seq<char>,
    pub access: AccessMode,
}

impl View for HostPathGrant {
    type V = GrantView;

    open spec fn view(&self) -> GrantView {
        GrantView {
            label: self.label@,
            source_permission: self.source_permission@,
            host_path: self.host_path@,
            canonical_host_path: self.canonical_host_path@,
            sandbox_path: self.sandbox_path@,
            access: self.access,
        }
    }
}

impl Clone for HostPathGrant {
    fn clone(&self) -> (r: Self)
        ensures
            r@ == self@,
    {
        HostPathGrant {
            label: self.label.clone(),
            source_permission: self.source_permission.clone(),
            host_path: self.host_path.clone(),
            canonical_host_path: self.canonical_host_path.clone(),
            sandbox_path: self.sandbox_path.clone(),
            access: self.access,
        }
    }
}

/// Whether `..` is among the components.
pub open spec fn has_parent(p: Seq<char>) -> bool {
    exists|i: int| 0 <= i < components(p).len() && #[trigger] components(p)[i] == ".."@
}

/// Where an absolute path of the sandbox lies below the directory that is its root.
pub open spec fn chroot_relative(p: Seq<char>) -> Option<Seq<char>> {
    let names = names_of(components(p));
    if is_absolute(p) && !has_parent(p) && names.len() > 0 {
        Some(join(names, "/"@))
    } else {
        None
    }
}

/// Why a path of the sandbox cannot be a place for a mount.
pub open spec fn refused_target(e: FilesystemError, path: Seq<char>) -> bool {
    match e {
        FilesystemError::RelativeSandboxPath(p) => p@ == path && !is_absolute(path),
        FilesystemError::InvalidSandboxPath(p) => p@ == path && is_absolute(path) && has_parent(
            path,
        ),
        FilesystemError::SandboxRootTarget => is_absolute(path) && !has_parent(path) && names_of(
            components(path),
        ).len() == 0,
        _ => false,
    }
}

/// Whether one path is or contains the other.
pub open spec fn overlap(p: Seq<char>, q: Seq<char>) -> bool {
    within(p, q) || within(q, p)
}

/// Where a grant puts a host path.
pub open spec fn mapped(grant: GrantView, p: Seq<char>) -> Option<Seq<char>> {
    if within(p, grant.host_path) {
        Some(joined(grant.sandbox_path, path_after(p, components(grant.host_path).len())))
    } else if within(p, grant.canonical_host_path) {
        Some(joined(grant.sandbox_path, path_after(p, components(grant.canonical_host_path).len())))
    } else {
        None
    }
}

/// Whether a grant already mounts the host path at the place.
pub open spec fn is_same_mount(grant: GrantView, host: Seq<char>, sandbox: Seq<char>) -> bool {
    (same_path(grant.host_path, host) || same_path(grant.canonical_host_path, host)) && same_path(
        grant.sandbox_path,
        sandbox,
    )
}

/// Where an absolute path of the sandbox lies below its root directory.
pub fn absolute_to_chroot_relative(path: &FsPath) -> (r: Result<FsPath, FilesystemError>)
    ensures
        r is Ok <==> chroot_relative(path@) is Some,
        r matches Ok(p) ==> chroot_relative(path@) == Some(p@),
        r matches Err(e) ==> refused_target(e, path@),
{
    if !path.is_absolute() {
        return Err(FilesystemError::RelativeSandboxPath(path.clone()));
    }
    if has_parent_component(path) {
        return Err(FilesystemError::InvalidSandboxPath(path.clone()));
    }
    let names = path_names(path);
    assert(texts(names@).len() == names@.len());
    if names.len() == 0 {
        return Err(FilesystemError::SandboxRootTarget);
    }
    Ok(FsPath { text: join_texts(names.as_slice(), "/") })
}

/// Whether one path is or contains the other.
pub fn path_overlaps(left: &FsPath, right: &FsPath) -> (r: bool)
    ensures
        r == overlap(left@, right@),
{
    left.starts_with(right) || right.starts_with(left)
}

impl HostPathGrant {
    /// A grant of the host path, whose form without symbolic links is `canonical_host_path`.
    pub fn new(
        label: &str,
        source_permission: &str,
        host_path: FsPath,
        canonical_host_path: FsPath,
        sandbox_path: FsPath,
        access: AccessMode,
    ) -> (r: Result<HostPathGrant, FilesystemError>)
        ensures
            r is Ok <==> is_absolute(host_path@) && is_absolute(sandbox_path@),
            r matches Ok(grant) ==> grant@ == (GrantView {
                label: label@,
                source_permission: source_permission@,
                host_path: host_path@,
                canonical_host_path: canonical_host_path@,
                sandbox_path: sandbox_path@,
                access,
            }),
            r matches Err(e) ==> match e {
                FilesystemError::RelativeHostGrant(p) => p@ == host_path@ && !is_absolute(
                    host_path@,
                ),
                FilesystemError::RelativeSandboxGrant(p) => p@ == sandbox_path@ && is_absolute(
                    host_path@,
                ) && !is_absolute(sandbox_path@),
                _ => false,
            },
    {
        if !host_path.is_absolute() {
            return Err(FilesystemError::RelativeHostGrant(host_path));
        }
        if !sandbox_path.is_absolute() {
            return Err(FilesystemError::RelativeSandboxGrant(sandbox_path));
        }
        Ok(
            HostPathGrant {
                label: label.to_owned(),
                source_permission: source_permission.to_owned(),
                host_path,
                canonical_host_path,
                sandbox_path,
                access,
            },
        )
    }

    pub fn source_permission(&self) -> (r: &str)
        ensures
            r@ == self@.source_permission,
    {
        &self.source_permission
    }

    pub fn host_path(&self) -> (r: &FsPath)
        ensures
            r@ == self@.host_path,
    {
        &self.host_path
    }

    pub fn sandbox_path(&self) -> (r: &FsPath)
        ensures
            r@ == self@.sandbox_path,
    {
        &self.sandbox_path
    }

    pub fn access(&self) -> (r: AccessMode)
        ensures
            r == self@.access,
    {
        self.access
    }

    /// Where the grant is mounted below the directory that is the sandbox's root.
    pub fn sandbox_target_relative(&self) -> (r: Result<FsPath, FilesystemError>)
        ensures
            r is Ok <==> chroot_relative(self@.sandbox_path) is Some,
            r matches Ok(p) ==> chroot_relative(self@.sandbox_path) == Some(p@),
            r matches Err(e) ==> refused_target(e, self@.sandbox_path),
    {
        absolute_to_chroot_relative(&self.sandbox_path)
    }

    /// Where the grant puts a host path.
    pub fn map_host_path(&self, host_path: &FsPath) -> (r: Option<FsPath>)
        ensures
            r is Some <==> mapped(self@, host_path@) is Some,
            r matches Some(p) ==> mapped(self@, host_path@) == Some(p@),
    {
        if let Some(suffix) = host_path.strip_prefix(&self.host_path) {
            return Some(self.sandbox_path.join_path(&suffix));
        }
        if let Some(suffix) = host_path.strip_prefix(&self.canonical_host_path) {
            return Some(self.sandbox_path.join_path(&suffix));
        }
        None
    }

    /// Whether the grant puts the host path at the place that has the same path in the sandbox.
    pub fn maps_host_path_to_same_sandbox_path(&self, path: &FsPath) -> (r: bool)
        ensures
            r == (mapped(self@, path@) matches Some(p) && same_path(p, path@)),
    {
        match self.map_host_path(path) {
            Some(p) => p.same_as(path),
            None => false,
        }
    }

    /// Whether the grant already mounts the host path at the place.
    pub fn same_mount(&self, host_path: &FsPath, sandbox_path: &FsPath) -> (r: bool)
        ensures
            r == is_same_mount(self@, host_path@, sandbox_path@),
    {
        (self.host_path.same_as(host_path) || self.canonical_host_path.same_as(host_path))
            && self.sandbox_path.same_as(sandbox_path)
    }
}

/// Whether a path is absolute and made of names alone.
pub open spec fn is_clean_absolute(p: Seq<char>) -> bool {
    is_absolute(p) && !has_parent(p)
}

pub open spec fn strictly_below_any(p: Seq<char>, roots: Seq<Seq<char>>) -> bool {
    exists|i: int|
        0 <= i < roots.len() && !same_path(p, #[trigger] roots[i]) && within(p, roots[i])
}

/// The mount points that lie below one of the roots.
pub open spec fn nested_mounts(mounts: Seq<Seq<char>>, roots: Seq<Seq<char>>) -> Seq<Seq<char>>
    decreases mounts.len(),
{
    if mounts.len() == 0 {
        mounts
    } else {
        let before = nested_mounts(mounts.drop_last(), roots);
        if is_clean_absolute(mounts.last()) && strictly_below_any(mounts.last(), roots) {
            before.push(mounts.last())
        } else {
            before
        }
    }
}

/// The roots and the mount points below them, shallow paths first.
pub open spec fn authorized(roots: Seq<Seq<char>>, mounts: Seq<Seq<char>>) -> Seq<Seq<char>> {
    deduplicated(
        sorted(
            roots + nested_mounts(mounts, roots),
            |p: Seq<char>, q: Seq<char>| depth_le(p, q),
        ),
        |p: Seq<char>, q: Seq<char>| same_path(p, q),
    )
}

fn below_any(path: &FsPath, roots: &[FsPath]) -> (r: bool)
    ensures
        r == strictly_below_any(path@, path_texts(roots@)),
{
    let ghost all = path_texts(roots@);
    let mut i: usize = 0;
    while i < roots.len()
        invariant
            i <= roots@.len(),
            all == path_texts(roots@),
            forall|j: int|
                0 <= j < i ==> same_path(path@, #[trigger] all[j]) || !within(path@, all[j]),
        decreases roots@.len() - i,
    {
        assert(all[i as int] == roots@[i as int]@);
        if !path.same_as(&roots[i]) && path.starts_with(&roots[i]) {
            return true;
        }
        i += 1;
    }
    false
}

/// The paths that a grant of the roots stands for. A mount of a directory does not show the
/// filesystems that are mounted below it, so each of those is granted beside it.
pub fn authorized_grant_paths(roots: &[FsPath], mount_points: &[FsPath]) -> (r: Vec<FsPath>)
    ensures
        path_texts(r@) == authorized(path_texts(roots@), path_texts(mount_points@)),
{
    let ghost all_roots = path_texts(roots@);
    let ghost mounts = path_texts(mount_points@);
    let mut paths: Vec<FsPath> = Vec::new();
    let mut i: usize = 0;
    assert(path_texts(paths@) =~= all_roots.take(0));
    while i < roots.len()
        invariant
            i <= roots@.len(),
            all_roots == path_texts(roots@),
            path_texts(paths@) == all_roots.take(i as int),
        decreases roots@.len() - i,
    {
        let root = roots[i].clone();
        proof {
            lemma_views_push(paths@, root);
            assert(all_roots.take(i + 1) =~= all_roots.take(i as int).push(root@));
        }
        paths.push(root);
        i += 1;
    }
    assert(all_roots.take(i as int) =~= all_roots);
    let mut k: usize = 0;
    assert(path_texts(paths@) =~= all_roots + nested_mounts(mounts.take(0), all_roots));
    while k < mount_points.len()
        invariant
            k <= mount_points@.len(),
            all_roots == path_texts(roots@),
            mounts == path_texts(mount_points@),
            path_texts(paths@) == all_roots + nested_mounts(mounts.take(k as int), all_roots),
        decreases mount_points@.len() - k,
    {
        proof {
            let next = mounts.take(k + 1);
            assert(next.drop_last() =~= mounts.take(k as int));
            assert(next.last() == mount_points@[k as int]@);
        }
        let mount = &mount_points[k];
        if mount.is_absolute() && !has_parent_component(mount) && below_any(mount, roots) {
            let path = mount.clone();
            proof {
                lemma_views_push(paths@, path);
                assert((all_roots + nested_mounts(mounts.take(k as int), all_roots)).push(path@)
                    =~= all_roots + nested_mounts(mounts.take(k + 1), all_roots));
            }
            paths.push(path);
        }
        k += 1;
    }
    assert(mounts.take(k as int) =~= mounts);
    sort_paths_by_depth(paths)
}

proof fn lemma_nested_mounts(mounts: Seq<Seq<char>>, roots: Seq<Seq<char>>)
    ensures
        forall|i: int|
            0 <= i < nested_mounts(mounts, roots).len() ==> strictly_below_any(
                #[trigger] nested_mounts(mounts, roots)[i],
                roots,
            ),
    decreases mounts.len(),
{
    if mounts.len() > 0 {
        lemma_nested_mounts(mounts.drop_last(), roots);
        let (all, before) = (
            nested_mounts(mounts, roots),
            nested_mounts(mounts.drop_last(), roots),
        );
        assert forall|i: int| 0 <= i < all.len() implies strictly_below_any(
            #[trigger] all[i],
            roots,
        ) by {
            if i < before.len() {
                assert(all[i] == before[i]);
            }
        }
    }
}

/// The paths of a grant are named once each, and a path comes before those below it.
pub proof fn lemma_authorized_ascend(roots: Seq<Seq<char>>, mounts: Seq<Seq<char>>)
    ensures
        ascending(
            authorized(roots, mounts),
            |p: Seq<char>, q: Seq<char>| depth_order(p, q),
        ),
{
    lemma_path_orders();
    lemma_path_orders_total();
    lemma_sorted_set(
        roots + nested_mounts(mounts, roots),
        |p: Seq<char>, q: Seq<char>| depth_le(p, q),
        |p: Seq<char>, q: Seq<char>| depth_order(p, q),
        |p: Seq<char>, q: Seq<char>| same_path(p, q),
    );
}

/// Each of the paths of a grant is one of the roots or lies below one.
pub proof fn lemma_authorized_within(roots: Seq<Seq<char>>, mounts: Seq<Seq<char>>, i: int) -> (j:
    int)
    requires
        0 <= i < authorized(roots, mounts).len(),
    ensures
        0 <= j < roots.len(),
        within(authorized(roots, mounts)[i], roots[j]),
{
    let p = authorized(roots, mounts)[i];
    let k = lemma_sorted_set_member(
        roots + nested_mounts(mounts, roots),
        |p: Seq<char>, q: Seq<char>| depth_le(p, q),
        |p: Seq<char>, q: Seq<char>| same_path(p, q),
        i,
    );
    if k < roots.len() {
        lemma_within_order(p, p, p);
        k
    } else {
        lemma_nested_mounts(mounts, roots);
        assert(strictly_below_any(nested_mounts(mounts, roots)[k - roots.len()], roots));
        choose|j: int|
            0 <= j < roots.len() && !same_path(p, #[trigger] roots[j]) && within(p, roots[j])
    }
}

/// Every root is among the paths of a grant.
pub proof fn lemma_authorized_roots(roots: Seq<Seq<char>>, mounts: Seq<Seq<char>>, k: int) -> (i:
    int)
    requires
        0 <= k < roots.len(),
    ensures
        0 <= i < authorized(roots, mounts).len(),
        same_path(roots[k], authorized(roots, mounts)[i]),
{
    lemma_sorted_set_covers(
        roots + nested_mounts(mounts, roots),
        |p: Seq<char>, q: Seq<char>| depth_le(p, q),
        |p: Seq<char>, q: Seq<char>| same_path(p, q),
        k,
    )
}

proof fn lemma_nested_kept(mounts: Seq<Seq<char>>, roots: Seq<Seq<char>>, k: int) -> (i: int)
    requires
        0 <= k < mounts.len(),
        is_clean_absolute(mounts[k]),
        strictly_below_any(mounts[k], roots),
    ensures
        0 <= i < nested_mounts(mounts, roots).len(),
        nested_mounts(mounts, roots)[i] == mounts[k],
    decreases mounts.len(),
{
    let before = nested_mounts(mounts.drop_last(), roots);
    if k == mounts.len() - 1 {
        before.len() as int
    } else {
        lemma_nested_kept(mounts.drop_last(), roots, k)
    }
}

/// Every mount point below one of the roots is among the paths of a grant.
pub proof fn lemma_authorized_mounts(
    roots: Seq<Seq<char>>,
    mounts: Seq<Seq<char>>,
    j: int,
    k: int,
) -> (i: int)
    requires
        0 <= j < roots.len(),
        0 <= k < mounts.len(),
        is_absolute(mounts[k]),
        !has_parent(mounts[k]),
        within(mounts[k], roots[j]),
    ensures
        0 <= i < authorized(roots, mounts).len(),
        same_path(mounts[k], authorized(roots, mounts)[i]),
{
    if same_path(mounts[k], roots[j]) {
        lemma_authorized_roots(roots, mounts, j)
    } else {
        assert(strictly_below_any(mounts[k], roots));
        let n = lemma_nested_kept(mounts, roots, k);
        lemma_sorted_set_covers(
            roots + nested_mounts(mounts, roots),
            |p: Seq<char>, q: Seq<char>| depth_le(p, q),
            |p: Seq<char>, q: Seq<char>| same_path(p, q),
            roots.len() + n,
        )
    }
}

} // verus!
