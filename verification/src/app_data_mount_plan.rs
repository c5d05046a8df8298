//! The order of mounts around the directory that holds all applications' data.

use crate::filesystem_grants::{mapped, GrantView, HostPathGrant};
use crate::host_filesystem::HostFilesystem;
use crate::path::{parent_of, path_texts, same_path, within, FsPath};
use crate::text::{lemma_views_push, selected, views};
use vstd::prelude::*;

verus! {

/// An application's data path that has no parent.
#[derive(Debug)]
pub struct NoParent;

impl NoParent {
    pub fn message(&self) -> (r: String)
        ensures
            r@ == "application data path must have a parent"@,
    {
        "application data path must have a parent".to_owned()
    }
}

/// The grants around the directory of all applications' data.
#[derive(Debug)]
pub struct AppDataMountPlan {
    pub grants_before_app_data: Vec<HostPathGrant>,
    pub mask_app_data_root: bool,
    pub app_data_root: FsPath,
    pub grants_inside_app_data_root: Vec<HostPathGrant>,
}

/// Whether the grant shows the directory where the host has it.
pub open spec fn shows_root(grant: GrantView, root: Seq<char>) -> bool {
    mapped(grant, root) matches Some(place) && same_path(place, root)
}

/// Whether a persistent path contains the directory of all applications' data.
pub open spec fn persists_root(path: Seq<char>) -> bool {
    same_path(path, "."@) || within(".var/app"@, path)
}

/// The grants that lie in the directory.
pub open spec fn inside(grants: Seq<GrantView>, root: Seq<char>) -> Seq<GrantView> {
    selected(grants, |g: GrantView| within(g.sandbox_path, root))
}

/// The grants that do not lie in the directory.
pub open spec fn outside(grants: Seq<GrantView>, root: Seq<char>) -> Seq<GrantView> {
    selected(grants, |g: GrantView| !within(g.sandbox_path, root))
}

impl AppDataMountPlan {
    /// The plan for the grants and the persistent paths of a sandbox.
    pub fn build(filesystem: &HostFilesystem, app_data: &FsPath) -> (r: Result<
        AppDataMountPlan,
        NoParent,
    >)
        ensures
            r is Ok <==> parent_of(app_data@) is Some,
            r matches Ok(plan) ==> plan.fits(
                views(filesystem.grants@),
                path_texts(filesystem.persistent_paths@),
                parent_of(app_data@)->0,
            ),
    {
        Self::build_from_parts(filesystem.grants(), filesystem.persistent_paths(), app_data)
    }

    /// Whether this is the plan for the grants, the persistent paths and the directory.
    pub open spec fn fits(
        &self,
        grants: Seq<GrantView>,
        persistent: Seq<Seq<char>>,
        root: Seq<char>,
    ) -> bool {
        &&& self.app_data_root@ == root
        &&& views(self.grants_before_app_data@) == outside(grants, root)
        &&& views(self.grants_inside_app_data_root@) == inside(grants, root)
        &&& self.mask_app_data_root <==> {
            ||| exists|i: int|
                0 <= i < outside(grants, root).len() && shows_root(
                    #[trigger] outside(grants, root)[i],
                    root,
                )
            ||| exists|i: int| 0 <= i < persistent.len() && persists_root(#[trigger] persistent[i])
        }
    }

    pub fn build_from_parts(
        grants: &[HostPathGrant],
        persistent_paths: &[FsPath],
        app_data: &FsPath,
    ) -> (r: Result<AppDataMountPlan, NoParent>)
        ensures
            r is Ok <==> parent_of(app_data@) is Some,
            r matches Ok(plan) ==> plan.fits(
                views(grants@),
                path_texts(persistent_paths@),
                parent_of(app_data@)->0,
            ),
    {
        let root = match app_data.parent() {
            Some(root) => root,
            None => {
                return Err(NoParent);
            },
        };
        let ghost all = views(grants@);
        let ghost is_in = |g: GrantView| within(g.sandbox_path, root@);
        let ghost is_out = |g: GrantView| !within(g.sandbox_path, root@);
        let mut before: Vec<HostPathGrant> = Vec::new();
        let mut within_root: Vec<HostPathGrant> = Vec::new();
        let mut shown = false;
        let mut i: usize = 0;
        assert(views(before@) =~= selected(all.take(0), is_out));
        assert(views(within_root@) =~= selected(all.take(0), is_in));
        while i < grants.len()
            invariant
                i <= grants@.len(),
                all == views(grants@),
                is_in == (|g: GrantView| within(g.sandbox_path, root@)),
                is_out == (|g: GrantView| !within(g.sandbox_path, root@)),
                views(before@) == selected(all.take(i as int), is_out),
                views(within_root@) == selected(all.take(i as int), is_in),
                shown <==> exists|j: int|
                    0 <= j < before@.len() && shows_root((#[trigger] before@[j])@, root@),
            decreases grants@.len() - i,
        {
            proof {
                let next = all.take(i + 1);
                assert(next.drop_last() =~= all.take(i as int));
                assert(next.last() == grants@[i as int]@);
            }
            let grant = grants[i].clone();
            if grant.sandbox_path.starts_with(&root) {
                proof {
                    lemma_views_push(within_root@, grant);
                }
                within_root.push(grant);
            } else {
                let shows = grant.maps_host_path_to_same_sandbox_path(&root);
                let ghost earlier = before@;
                proof {
                    lemma_views_push(before@, grant);
                }
                before.push(grant);
                proof {
                    assert(before@[earlier.len() as int]@ == grant@);
                    assert forall|j: int| 0 <= j < earlier.len() implies before@[j]
                        == earlier[j] by {}
                    if shown {
                        let j = choose|j: int|
                            0 <= j < earlier.len() && shows_root((#[trigger] earlier[j])@, root@);
                        assert(shows_root(before@[j]@, root@));
                    }
                }
                shown = shown || shows;
            }
            i += 1;
        }
        assert(all.take(i as int) =~= all);
        let mut persists = false;
        let ghost paths = path_texts(persistent_paths@);
        let mut k: usize = 0;
        let dot = FsPath::new(".");
        let relative_root = FsPath::new(".var/app");
        while k < persistent_paths.len()
            invariant
                k <= persistent_paths@.len(),
                paths == path_texts(persistent_paths@),
                dot@ == "."@,
                relative_root@ == ".var/app"@,
                persists <==> exists|j: int| 0 <= j < k && persists_root(#[trigger] paths[j]),
            decreases persistent_paths@.len() - k,
        {
            let path = &persistent_paths[k];
            assert(paths[k as int] == path@);
            if path.same_as(&dot) || relative_root.starts_with(path) {
                persists = true;
            }
            k += 1;
        }
        proof {
            assert(paths.len() == persistent_paths@.len());
            let out = outside(all, root@);
            assert(views(before@) == out);
            assert(shown <==> exists|i: int| 0 <= i < out.len() && shows_root(
                #[trigger] out[i],
                root@,
            )) by {
                if shown {
                    let j = choose|j: int|
                        0 <= j < before@.len() && shows_root((#[trigger] before@[j])@, root@);
                    assert(out[j] == before@[j]@);
                }
                if exists|i: int| 0 <= i < out.len() && shows_root(#[trigger] out[i], root@) {
                    let j = choose|i: int| 0 <= i < out.len() && shows_root(
                        #[trigger] out[i],
                        root@,
                    );
                    assert(out[j] == before@[j]@);
                }
            }
        }
        Ok(
            AppDataMountPlan {
                grants_before_app_data: before,
                mask_app_data_root: shown || persists,
                app_data_root: root,
                grants_inside_app_data_root: within_root,
            },
        )
    }
}

} // verus!
