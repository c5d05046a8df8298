//! How a sandbox sees what else is installed.

use crate::installation::{is_directory_name, Installation};
use crate::path::{components, joined, path_after, path_texts, within, FsPath};
use crate::retired_deployments::absolute;
use crate::state::{AppRecord, AppView};
use crate::text::{
    concat, contains_char, debug_quoted, debug_text, lemma_views_push, views,
};
use vstd::prelude::*;

verus! {

/// How it is told that an application id cannot name a directory; `shown` is the quoted id.
pub fn invalid_app_id_message(shown: &str) -> (r: String)
    ensures
        r@ == "invalid installed application id: "@ + shown@,
{
    concat("invalid installed application id: ", shown)
}

#[derive(Debug)]
pub enum ProjectionError {
    /// The directory in which programs keep their data is not absolute.
    RelativeDataHome(FsPath),
    /// An application id that cannot name a directory.
    InvalidAppId(String),
}

impl ProjectionError {
    pub open spec fn spec_message(self) -> Seq<char> {
        match self {
            ProjectionError::RelativeDataHome(path) => "XDG data home must be absolute: "@ + path@,
            ProjectionError::InvalidAppId(id) => "invalid installed application id: "@
                + debug_text(id@),
        }
    }

    pub fn message(&self) -> (r: String)
        ensures
            r@ == self.spec_message(),
    {
        match self {
            ProjectionError::RelativeDataHome(path) => concat(
                "XDG data home must be absolute: ",
                path.as_str(),
            ),
            ProjectionError::InvalidAppId(id) => {
                let shown = debug_quoted(id);
                invalid_app_id_message(&shown)
            },
        }
    }
}

/// A deployment, and where the sandbox shows it.
#[derive(Debug)]
pub struct ProjectedDeployment {
    pub source: FsPath,
    pub target: FsPath,
}

impl View for ProjectedDeployment {
    type V = (Seq<char>, Seq<char>);

    open spec fn view(&self) -> (Seq<char>, Seq<char>) {
        (self.source@, self.target@)
    }
}

/// The layout of an installation as a sandbox sees it.
#[derive(Debug)]
pub struct FlatpakInstallationProjection {
    /// The directory that shows the layout, and where it is shown.
    pub source_root: FsPath,
    pub target_root: FsPath,
    /// The directories that have to be made for the layout.
    pub skeleton: Vec<FsPath>,
    pub deployments: Vec<ProjectedDeployment>,
}

/// Where the deployment of an application is active, below the layout.
pub open spec fn active_path(app_id: Seq<char>) -> Seq<char> {
    joined(app_id, "current/active"@)
}

/// The directory that holds the layout in a sandbox.
pub open spec fn layout_root(root: Seq<char>) -> Seq<char> {
    joined(root, ".freebsd-flatpak-mount-sources/flatpak-apps"@)
}

/// The layout's place as the host has it.
pub open spec fn host_layout(paths: Installation) -> Seq<char> {
    joined(paths.data_home@, "flatpak/app"@)
}

/// The directories for the applications.
pub open spec fn skeleton_of(root: Seq<char>, apps: Seq<AppView>) -> Seq<Seq<char>> {
    Seq::new(apps.len(), |i: int| joined(layout_root(root), active_path(apps[i].app_id)))
}

/// The deployments of the applications, and where the sandbox shows them.
pub open spec fn deployments_of(
    paths: Installation,
    target_root: Seq<char>,
    apps: Seq<AppView>,
) -> Seq<(Seq<char>, Seq<char>)> {
    Seq::new(
        apps.len(),
        |i: int|
            (
                joined(paths.data_root@, apps[i].app_dir),
                joined(target_root, active_path(apps[i].app_id)),
            ),
    )
}

impl FlatpakInstallationProjection {
    /// The layout that shows the active deployment of each application.
    pub fn prepare(root: &FsPath, paths: &Installation, apps: &[AppRecord]) -> (r: Result<
        FlatpakInstallationProjection,
        ProjectionError,
    >)
        ensures
            match r {
                Ok(projection) => {
                    &&& within(host_layout(*paths), "/"@)
                    &&& forall|i: int|
                        0 <= i < apps@.len() ==> is_directory_name((#[trigger] apps@[i])@.app_id)
                    &&& projection.source_root@ == layout_root(root@)
                    &&& projection.target_root@ == path_after(
                        host_layout(*paths),
                        components("/"@).len(),
                    )
                    &&& path_texts(projection.skeleton@) == seq![layout_root(root@)] + skeleton_of(
                        root@,
                        views(apps@),
                    )
                    &&& views(projection.deployments@) == deployments_of(
                        *paths,
                        projection.target_root@,
                        views(apps@),
                    )
                },
                Err(ProjectionError::RelativeDataHome(path)) => path@ == host_layout(*paths)
                    && !within(path@, "/"@),
                Err(ProjectionError::InvalidAppId(id)) => within(host_layout(*paths), "/"@)
                    && exists|i: int|
                    {
                        &&& 0 <= i < apps@.len()
                        &&& (#[trigger] apps@[i])@.app_id == id@
                        &&& !is_directory_name(id@)
                        &&& forall|j: int|
                            0 <= j < i ==> is_directory_name((#[trigger] apps@[j])@.app_id)
                    },
            },
    {
        let host_root = paths.data_home.join("flatpak/app");
        let target_root = match host_root.strip_prefix(&FsPath::new("/")) {
            Some(target_root) => target_root,
            None => {
                return Err(ProjectionError::RelativeDataHome(host_root));
            },
        };
        let source_root = root.join(".freebsd-flatpak-mount-sources/flatpak-apps");
        let ghost all = views(apps@);
        let ghost first = seq![layout_root(root@)];
        let ghost rest = skeleton_of(root@, all);
        let ghost shown = deployments_of(*paths, target_root@, all);
        let mut skeleton: Vec<FsPath> = Vec::new();
        skeleton.push(source_root.clone());
        let mut deployments: Vec<ProjectedDeployment> = Vec::new();
        let mut i: usize = 0;
        assert(path_texts(skeleton@) =~= first + rest.take(0));
        assert(views(deployments@) =~= shown.take(0));
        while i < apps.len()
            invariant
                i <= apps@.len(),
                all == views(apps@),
                first == seq![layout_root(root@)],
                rest == skeleton_of(root@, all),
                shown == deployments_of(*paths, target_root@, all),
                source_root@ == layout_root(root@),
                within(host_layout(*paths), "/"@),
                forall|j: int|
                    0 <= j < i ==> is_directory_name((#[trigger] apps@[j])@.app_id),
                path_texts(skeleton@) == first + rest.take(i as int),
                views(deployments@) == shown.take(i as int),
            decreases apps@.len() - i,
        {
            let app_id = &apps[i].app_id;
            assert(all[i as int] == apps@[i as int]@);
            if app_id.as_str().unicode_len() == 0 || contains_char(app_id, '/') {
                assert(apps@[i as int]@.app_id == app_id@);
                return Err(ProjectionError::InvalidAppId(app_id.clone()));
            }
            let relative = FsPath::new(app_id).join("current/active");
            let directory = source_root.join_path(&relative);
            let deployment = ProjectedDeployment {
                source: absolute(paths, &apps[i].app_dir),
                target: target_root.join_path(&relative),
            };
            proof {
                lemma_views_push(skeleton@, directory);
                lemma_views_push(deployments@, deployment);
                assert((first + rest.take(i as int)).push(directory@) =~= first + rest.take(i + 1));
                assert(shown.take(i as int).push(deployment@) =~= shown.take(i + 1));
            }
            skeleton.push(directory);
            deployments.push(deployment);
            i += 1;
        }
        assert(rest.take(i as int) =~= rest);
        assert(shown.take(i as int) =~= shown);
        Ok(FlatpakInstallationProjection { source_root, target_root, skeleton, deployments })
    }
}

} // verus!
