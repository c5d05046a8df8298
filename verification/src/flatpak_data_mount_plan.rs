//! The order of mounts around the directories that Flatpak keeps its own state in.
//!
//! A broad grant must not show the state of the installation or the data of other applications.
//! The protected directories are covered after the broad grants are mounted; what is granted
//! inside them explicitly is mounted again on top.

use crate::app_data_mount_plan::NoParent;
use crate::filesystem_grants::{overlap, path_overlaps, GrantView, HostPathGrant};
use crate::host_filesystem::HostFilesystem;
use crate::order::{deduplicated, lemma_sorted_set_covers, path_le, sort_paths, sorted};
use crate::path::{joined, parent_of, path_texts, same_path, within, FsPath};
use crate::text::{lemma_selected, lemma_views_push, selected, views};
use vstd::prelude::*;

verus! {

/// The grants around the protected directories.
#[derive(Debug)]
pub struct FlatpakDataMountPlan {
    pub grants_before_mask: Vec<HostPathGrant>,
    pub mask_app_data_root: bool,
    pub app_data_root: FsPath,
    pub app_data: FsPath,
    pub reserved_roots_to_mask: Vec<FsPath>,
    pub grants_after_mask: Vec<HostPathGrant>,
}

pub open spec fn within_any(path: Seq<char>, roots: Seq<Seq<char>>) -> bool {
    exists|i: int| 0 <= i < roots.len() && within(path, #[trigger] roots[i])
}

pub open spec fn overlaps_any(path: Seq<char>, grants: Seq<GrantView>) -> bool {
    exists|i: int| 0 <= i < grants.len() && overlap((#[trigger] grants[i]).sandbox_path, path)
}

/// Whether a grant is mounted again after the protected directories are covered: one that lies in
/// a protected directory, but not in the application's own data, which is mounted anyway.
pub open spec fn is_after(
    grant: GrantView,
    app_data: Seq<char>,
    root: Seq<char>,
    reserved: Seq<Seq<char>>,
) -> bool {
    !within(grant.sandbox_path, app_data) && (within_any(grant.sandbox_path, reserved) || within(
        grant.sandbox_path,
        root,
    ))
}

/// Whether a grant is mounted before the protected directories are covered.
pub open spec fn is_before(
    grant: GrantView,
    app_data: Seq<char>,
    root: Seq<char>,
    reserved: Seq<Seq<char>>,
) -> bool {
    !within(grant.sandbox_path, app_data) && !within_any(grant.sandbox_path, reserved) && !within(
        grant.sandbox_path,
        root,
    )
}

pub open spec fn grants_before(
    grants: Seq<GrantView>,
    app_data: Seq<char>,
    root: Seq<char>,
    reserved: Seq<Seq<char>>,
) -> Seq<GrantView> {
    selected(grants, |g: GrantView| is_before(g, app_data, root, reserved))
}

pub open spec fn grants_after(
    grants: Seq<GrantView>,
    app_data: Seq<char>,
    root: Seq<char>,
    reserved: Seq<Seq<char>>,
) -> Seq<GrantView> {
    selected(grants, |g: GrantView| is_after(g, app_data, root, reserved))
}

/// The protected directories that a grant would show.
pub open spec fn masked(roots: Seq<Seq<char>>, before: Seq<GrantView>) -> Seq<Seq<char>> {
    deduplicated(
        sorted(
            selected(roots, |root: Seq<char>| overlaps_any(root, before)),
            |p: Seq<char>, q: Seq<char>| path_le(p, q),
        ),
        |p: Seq<char>, q: Seq<char>| same_path(p, q),
    )
}

/// What a directory is without symbolic links, where it is there.
#[derive(Debug)]
pub struct CanonicalPath {
    pub path: FsPath,
    pub canonical: Option<FsPath>,
}

/// The other names of directories that have one.
pub open spec fn aliases(paths: Seq<CanonicalPath>) -> Seq<Seq<char>>
    decreases paths.len(),
{
    if paths.len() == 0 {
        Seq::empty()
    } else {
        let before = aliases(paths.drop_last());
        match paths.last().canonical {
            Some(alias) => if same_path(alias@, paths.last().path@) {
                before
            } else {
                before.push(alias@)
            },
            None => before,
        }
    }
}

fn is_within_any(path: &FsPath, roots: &[FsPath]) -> (r: bool)
    ensures
        r == within_any(path@, path_texts(roots@)),
{
    let ghost all = path_texts(roots@);
    let mut i: usize = 0;
    while i < roots.len()
        invariant
            i <= roots@.len(),
            all == path_texts(roots@),
            forall|j: int| 0 <= j < i ==> !within(path@, #[trigger] all[j]),
        decreases roots@.len() - i,
    {
        assert(all[i as int] == roots@[i as int]@);
        if path.starts_with(&roots[i]) {
            return true;
        }
        i += 1;
    }
    false
}

fn overlaps_any_grant(path: &FsPath, grants: &[HostPathGrant]) -> (r: bool)
    ensures
        r == overlaps_any(path@, views(grants@)),
{
    let ghost all = views(grants@);
    let mut i: usize = 0;
    while i < grants.len()
        invariant
            i <= grants@.len(),
            all == views(grants@),
            forall|j: int| 0 <= j < i ==> !overlap((#[trigger] all[j]).sandbox_path, path@),
        decreases grants@.len() - i,
    {
        assert(all[i as int] == grants@[i as int]@);
        if path_overlaps(&grants[i].sandbox_path, path) {
            return true;
        }
        i += 1;
    }
    false
}

fn copy_paths(paths: &[FsPath], out: &mut Vec<FsPath>)
    ensures
        path_texts(final(out)@) == path_texts(old(out)@) + path_texts(paths@),
{
    let ghost start = path_texts(out@);
    let ghost all = path_texts(paths@);
    let mut i: usize = 0;
    assert(start + all.take(0) =~= start);
    while i < paths.len()
        invariant
            i <= paths@.len(),
            all == path_texts(paths@),
            path_texts(out@) == start + all.take(i as int),
        decreases paths@.len() - i,
    {
        let path = paths[i].clone();
        proof {
            lemma_views_push(out@, path);
            assert((start + all.take(i as int)).push(path@) =~= start + all.take(i + 1));
        }
        out.push(path);
        i += 1;
    }
    assert(all.take(i as int) =~= all);
}

/// The other names of directories that have one.
pub fn canonical_aliases(paths: &[CanonicalPath]) -> (r: Vec<FsPath>)
    ensures
        path_texts(r@) == aliases(paths@),
{
    let mut out: Vec<FsPath> = Vec::new();
    let mut i: usize = 0;
    assert(path_texts(out@) =~= aliases(paths@.take(0)));
    while i < paths.len()
        invariant
            i <= paths@.len(),
            path_texts(out@) == aliases(paths@.take(i as int)),
        decreases paths@.len() - i,
    {
        proof {
            let next = paths@.take(i + 1);
            assert(next.drop_last() =~= paths@.take(i as int));
            assert(next.last() == paths@[i as int]);
        }
        if let Some(alias) = &paths[i].canonical {
            if !alias.same_as(&paths[i].path) {
                let other = alias.clone();
                proof {
                    lemma_views_push(out@, other);
                }
                out.push(other);
            }
        }
        i += 1;
    }
    assert(paths@.take(i as int) =~= paths@);
    out
}

/// The directories that Flatpak keeps its state in. They are protected whether or not they exist:
/// otherwise an application could make state that a later launch would trust.
pub fn reserved_roots(data_home: &FsPath, data_root: &FsPath) -> (r: Vec<FsPath>)
    ensures
        path_texts(r@) == seq![joined(data_home@, "flatpak"@), data_root@],
{
    let mut out: Vec<FsPath> = Vec::new();
    out.push(data_home.join("flatpak"));
    out.push(data_root.clone());
    assert(path_texts(out@) =~= seq![joined(data_home@, "flatpak"@), data_root@]);
    out
}

/// The directories whose other names are protected too: those with Flatpak's state and the one
/// with all applications' data.
pub fn aliased_roots(
    data_home: &FsPath,
    data_root: &FsPath,
    app_data: &FsPath,
) -> (r: Option<Vec<FsPath>>)
    ensures
        r is Some <==> parent_of(app_data@) is Some,
        r matches Some(roots) ==> path_texts(roots@) == seq![
            joined(data_home@, "flatpak"@),
            joined(joined(data_home@, "flatpak"@), "overrides"@),
            data_root@,
            parent_of(app_data@)->0,
        ],
{
    let root = match app_data.parent() {
        Some(root) => root,
        None => {
            return None;
        },
    };
    let flatpak_root = data_home.join("flatpak");
    let mut out: Vec<FsPath> = Vec::new();
    let overrides = flatpak_root.join("overrides");
    out.push(flatpak_root);
    out.push(overrides);
    out.push(data_root.clone());
    out.push(root);
    assert(path_texts(out@) =~= seq![
        joined(data_home@, "flatpak"@),
        joined(joined(data_home@, "flatpak"@), "overrides"@),
        data_root@,
        parent_of(app_data@)->0,
    ]);
    Some(out)
}

impl FlatpakDataMountPlan {
    /// Whether this is the plan for the grants, the application's data and the protected
    /// directories.
    pub open spec fn fits(
        &self,
        grants: Seq<GrantView>,
        app_data: Seq<char>,
        root: Seq<char>,
        reserved: Seq<Seq<char>>,
        alias_roots: Seq<Seq<char>>,
    ) -> bool {
        let before = grants_before(grants, app_data, root, reserved);
        &&& self.app_data@ == app_data
        &&& self.app_data_root@ == root
        &&& views(self.grants_before_mask@) == before
        &&& views(self.grants_after_mask@) == grants_after(grants, app_data, root, reserved)
        &&& self.mask_app_data_root == overlaps_any(root, before)
        &&& path_texts(self.reserved_roots_to_mask@) == masked(reserved + alias_roots, before)
    }

    /// The plan for a sandbox; `aliased` says what the protected directories are without symbolic
    /// links.
    pub fn build(
        filesystem: &HostFilesystem,
        app_data: &FsPath,
        data_home: &FsPath,
        data_root: &FsPath,
        aliased: &[CanonicalPath],
    ) -> (r: Result<FlatpakDataMountPlan, NoParent>)
        ensures
            r is Ok <==> parent_of(app_data@) is Some,
            r matches Ok(plan) ==> plan.fits(
                views(filesystem.grants@),
                app_data@,
                parent_of(app_data@)->0,
                seq![joined(data_home@, "flatpak"@), data_root@],
                aliases(aliased@),
            ),
    {
        let reserved = reserved_roots(data_home, data_root);
        let alias_roots = canonical_aliases(aliased);
        Self::build_with_aliases(
            filesystem.grants(),
            app_data,
            reserved.as_slice(),
            alias_roots.as_slice(),
        )
    }

    /// The plan for grants around the protected directories. Only those under their own names
    /// allow a grant to be mounted again; their other names are covered alone.
    pub fn build_with_aliases(
        grants: &[HostPathGrant],
        app_data: &FsPath,
        reserved: &[FsPath],
        alias_roots: &[FsPath],
    ) -> (r: Result<FlatpakDataMountPlan, NoParent>)
        ensures
            r is Ok <==> parent_of(app_data@) is Some,
            r matches Ok(plan) ==> plan.fits(
                views(grants@),
                app_data@,
                parent_of(app_data@)->0,
                path_texts(reserved@),
                path_texts(alias_roots@),
            ),
    {
        let root = match app_data.parent() {
            Some(root) => root,
            None => {
                return Err(NoParent);
            },
        };
        let ghost all = views(grants@);
        let ghost kept = path_texts(reserved@);
        let ghost first = |g: GrantView| is_before(g, app_data@, root@, kept);
        let ghost second = |g: GrantView| is_after(g, app_data@, root@, kept);
        let mut before: Vec<HostPathGrant> = Vec::new();
        let mut after: Vec<HostPathGrant> = Vec::new();
        let mut i: usize = 0;
        assert(views(before@) =~= selected(all.take(0), first));
        assert(views(after@) =~= selected(all.take(0), second));
        while i < grants.len()
            invariant
                i <= grants@.len(),
                all == views(grants@),
                kept == path_texts(reserved@),
                first == (|g: GrantView| is_before(g, app_data@, root@, kept)),
                second == (|g: GrantView| is_after(g, app_data@, root@, kept)),
                views(before@) == selected(all.take(i as int), first),
                views(after@) == selected(all.take(i as int), second),
            decreases grants@.len() - i,
        {
            proof {
                let next = all.take(i + 1);
                assert(next.drop_last() =~= all.take(i as int));
                assert(next.last() == grants@[i as int]@);
            }
            let grant = grants[i].clone();
            if grant.sandbox_path.starts_with(app_data) {
            } else if is_within_any(&grant.sandbox_path, reserved)
                || grant.sandbox_path.starts_with(&root) {
                proof {
                    lemma_views_push(after@, grant);
                }
                after.push(grant);
            } else {
                proof {
                    lemma_views_push(before@, grant);
                }
                before.push(grant);
            }
            i += 1;
        }
        assert(all.take(i as int) =~= all);
        let mask_app_data_root = overlaps_any_grant(&root, before.as_slice());
        let mut roots: Vec<FsPath> = Vec::new();
        assert(path_texts(roots@) =~= Seq::<Seq<char>>::empty());
        copy_paths(reserved, &mut roots);
        copy_paths(alias_roots, &mut roots);
        assert(path_texts(roots@) =~= kept + path_texts(alias_roots@));
        let ghost every = path_texts(roots@);
        let ghost views_before = views(before@);
        let ghost shown = |root: Seq<char>| overlaps_any(root, views_before);
        let mut covered: Vec<FsPath> = Vec::new();
        let mut k: usize = 0;
        assert(path_texts(covered@) =~= selected(every.take(0), shown));
        while k < roots.len()
            invariant
                k <= roots@.len(),
                every == path_texts(roots@),
                views_before == views(before@),
                shown == (|root: Seq<char>| overlaps_any(root, views_before)),
                path_texts(covered@) == selected(every.take(k as int), shown),
            decreases roots@.len() - k,
        {
            proof {
                let next = every.take(k + 1);
                assert(next.drop_last() =~= every.take(k as int));
                assert(next.last() == roots@[k as int]@);
            }
            if overlaps_any_grant(&roots[k], before.as_slice()) {
                let path = roots[k].clone();
                proof {
                    lemma_views_push(covered@, path);
                }
                covered.push(path);
            }
            k += 1;
        }
        assert(every.take(k as int) =~= every);
        let reserved_roots_to_mask = sort_paths(covered);
        Ok(
            FlatpakDataMountPlan {
                grants_before_mask: before,
                mask_app_data_root,
                app_data_root: root,
                app_data: app_data.clone(),
                reserved_roots_to_mask,
                grants_after_mask: after,
            },
        )
    }
}

/// Every protected directory that a grant mounted before would show, or be shown in, is covered.
pub proof fn lemma_shown_roots_are_masked(
    roots: Seq<Seq<char>>,
    before: Seq<GrantView>,
    root: Seq<char>,
) -> (i: int)
    requires
        roots.contains(root),
        overlaps_any(root, before),
    ensures
        0 <= i < masked(roots, before).len(),
        same_path(root, masked(roots, before)[i]),
{
    let keep = |r: Seq<char>| overlaps_any(r, before);
    let shown = selected(roots, keep);
    lemma_selected(roots, keep);
    assert(keep(root));
    assert(shown.contains(root));
    let k = choose|k: int| 0 <= k < shown.len() && shown[k] == root;
    lemma_sorted_set_covers(
        shown,
        |p: Seq<char>, q: Seq<char>| path_le(p, q),
        |p: Seq<char>, q: Seq<char>| same_path(p, q),
        k,
    )
}

/// Each grant is mounted once: before the protected directories are covered, after it, or with
/// the application's own data.
pub proof fn lemma_grants_mounted_once(
    grants: Seq<GrantView>,
    app_data: Seq<char>,
    root: Seq<char>,
    reserved: Seq<Seq<char>>,
    grant: GrantView,
)
    requires
        grants.contains(grant),
    ensures
        within(grant.sandbox_path, app_data) ==> !grants_before(
            grants,
            app_data,
            root,
            reserved,
        ).contains(grant) && !grants_after(grants, app_data, root, reserved).contains(grant),
        !within(grant.sandbox_path, app_data) ==> (grants_before(
            grants,
            app_data,
            root,
            reserved,
        ).contains(grant) <==> !grants_after(grants, app_data, root, reserved).contains(grant)),
{
    let first = |g: GrantView| is_before(g, app_data, root, reserved);
    let second = |g: GrantView| is_after(g, app_data, root, reserved);
    lemma_selected(grants, first);
    lemma_selected(grants, second);
    assert(first(grant) == is_before(grant, app_data, root, reserved));
    assert(second(grant) == is_after(grant, app_data, root, reserved));
}

/// Nothing that is mounted before the protected directories are covered lies inside them.
pub proof fn lemma_before_stays_outside(
    grants: Seq<GrantView>,
    app_data: Seq<char>,
    root: Seq<char>,
    reserved: Seq<Seq<char>>,
    grant: GrantView,
)
    requires
        grants_before(grants, app_data, root, reserved).contains(grant),
    ensures
        !within(grant.sandbox_path, root),
        !within_any(grant.sandbox_path, reserved),
{
    let first = |g: GrantView| is_before(g, app_data, root, reserved);
    lemma_selected(grants, first);
    assert(first(grant));
}

} // verus!
