//! Where an installation keeps its data.

use crate::path::{
    components, joined, lemma_strip_join, path_after, same_path, within, FsPath,
};
use crate::text::{concat, contains_char};
use vstd::prelude::*;

verus! {

/// Where an installation keeps its data.
#[derive(Debug)]
pub struct Installation {
    pub home: FsPath,
    /// Where programs of the user keep their data.
    pub data_home: FsPath,
    /// The repository and the deployments.
    pub data_root: FsPath,
    /// The metadata of the remotes.
    pub cache_root: FsPath,
    /// The state of what runs.
    pub runtime_root: FsPath,
}

/// A path that does not lie where it should.
#[derive(Debug)]
pub enum PathError {
    OutsideDataRoot(FsPath),
    /// An application id that cannot name a directory.
    InvalidAppId(String),
}

impl PathError {
    pub open spec fn spec_message(self) -> Seq<char> {
        match self {
            PathError::OutsideDataRoot(path) => "path is outside the installation: "@ + path@,
            PathError::InvalidAppId(id) => "invalid application id: "@ + id@,
        }
    }

    pub fn message(&self) -> (r: String)
        ensures
            r@ == self.spec_message(),
    {
        match self {
            PathError::OutsideDataRoot(path) => concat(
                "path is outside the installation: ",
                path.as_str(),
            ),
            PathError::InvalidAppId(id) => concat("invalid application id: ", id),
        }
    }
}

/// The directory that a variable names, or the one that is used where it is unset or empty.
pub open spec fn directory_or(variable: Option<FsPath>, home: Seq<char>, default: Seq<char>) -> Seq<
    char,
> {
    match variable {
        Some(path) => if path@.len() == 0 {
            joined(home, default)
        } else {
            path@
        },
        None => joined(home, default),
    }
}

fn choose_directory(variable: Option<FsPath>, home: &FsPath, default: &str) -> (r: FsPath)
    ensures
        r@ == directory_or(variable, home@, default@),
{
    match variable {
        Some(path) => if path.as_str().unicode_len() == 0 {
            home.join(default)
        } else {
            path
        },
        None => home.join(default),
    }
}

/// Whether an application id can name a directory.
pub open spec fn is_directory_name(app_id: Seq<char>) -> bool {
    app_id.len() > 0 && !app_id.contains('/')
}

impl Installation {
    pub open spec fn spec_refs(self) -> Seq<char> {
        joined(self.data_root@, "refs"@)
    }

    pub open spec fn spec_apps(self) -> Seq<char> {
        joined(self.data_root@, "apps"@)
    }

    pub open spec fn spec_runtimes(self) -> Seq<char> {
        joined(self.data_root@, "runtimes"@)
    }

    pub open spec fn spec_extensions(self) -> Seq<char> {
        joined(self.data_root@, "extensions"@)
    }

    pub open spec fn spec_chroots(self) -> Seq<char> {
        joined(self.runtime_root@, "chroots"@)
    }

    pub open spec fn spec_runs(self) -> Seq<char> {
        joined(self.runtime_root@, "runs"@)
    }

    pub open spec fn spec_spawn_brokers(self) -> Seq<char> {
        joined(self.runtime_root@, "spawn-brokers"@)
    }

    /// The installation of a user, from the home directory and the variables that tell where
    /// programs keep data, cached data and what lasts as long as a session.
    pub fn for_user(
        home: FsPath,
        data_home: Option<FsPath>,
        cache_home: Option<FsPath>,
        runtime_dir: FsPath,
    ) -> (r: Installation)
        ensures
            r.home == home,
            r.data_home@ == directory_or(data_home, home@, ".local/share"@),
            r.data_root@ == joined(
                directory_or(data_home, home@, ".local/share"@),
                "freebsd-flatpak"@,
            ),
            r.cache_root@ == joined(
                directory_or(cache_home, home@, ".cache"@),
                "freebsd-flatpak"@,
            ),
            r.runtime_root@ == joined(runtime_dir@, "freebsd-flatpak"@),
    {
        let data_home = choose_directory(data_home, &home, ".local/share");
        let cache_home = choose_directory(cache_home, &home, ".cache");
        let data_root = data_home.join("freebsd-flatpak");
        let cache_root = cache_home.join("freebsd-flatpak");
        let runtime_root = runtime_dir.join("freebsd-flatpak");
        Installation { home, data_home, data_root, cache_root, runtime_root }
    }

    /// An installation below one directory.
    pub fn below(base: &FsPath) -> (r: Installation)
        ensures
            r.home@ == joined(base@, "home"@),
            r.data_home@ == joined(base@, "share"@),
            r.data_root@ == joined(base@, "data"@),
            r.cache_root@ == joined(base@, "cache"@),
            r.runtime_root@ == joined(base@, "run"@),
    {
        Installation {
            home: base.join("home"),
            data_home: base.join("share"),
            data_root: base.join("data"),
            cache_root: base.join("cache"),
            runtime_root: base.join("run"),
        }
    }

    /// The directory of the records of what is installed.
    pub fn refs(&self) -> (r: FsPath)
        ensures
            r@ == self.spec_refs(),
    {
        self.data_root.join("refs")
    }

    pub fn apps(&self) -> (r: FsPath)
        ensures
            r@ == self.spec_apps(),
    {
        self.data_root.join("apps")
    }

    /// The directory of the deployments of an application.
    pub fn app(&self, app_id: &str) -> (r: FsPath)
        ensures
            r@ == joined(self.spec_apps(), app_id@),
    {
        self.apps().join(app_id)
    }

    pub fn runtimes(&self) -> (r: FsPath)
        ensures
            r@ == self.spec_runtimes(),
    {
        self.data_root.join("runtimes")
    }

    pub fn extensions(&self) -> (r: FsPath)
        ensures
            r@ == self.spec_extensions(),
    {
        self.data_root.join("extensions")
    }

    /// The directory of all sandboxes.
    pub fn chroots(&self) -> (r: FsPath)
        ensures
            r@ == self.spec_chroots(),
    {
        self.runtime_root.join("chroots")
    }

    /// The directory of the records of what runs.
    pub fn runs(&self) -> (r: FsPath)
        ensures
            r@ == self.spec_runs(),
    {
        self.runtime_root.join("runs")
    }

    pub fn spawn_brokers(&self) -> (r: FsPath)
        ensures
            r@ == self.spec_spawn_brokers(),
    {
        self.runtime_root.join("spawn-brokers")
    }

    /// The directory in which the user changes what applications may do.
    pub fn flatpak_overrides(&self) -> (r: FsPath)
        ensures
            r@ == joined(self.data_home@, "flatpak/overrides"@),
    {
        self.data_home.join("flatpak/overrides")
    }

    /// The directory of what an application keeps.
    pub fn app_data(&self, app_id: &str) -> (r: Result<FsPath, PathError>)
        ensures
            match r {
                Ok(path) => is_directory_name(app_id@) && path@ == joined(
                    joined(self.home@, ".var/app"@),
                    app_id@,
                ),
                Err(error) => !is_directory_name(app_id@) && (error matches
                    PathError::InvalidAppId(id) && id@ == app_id@),
            },
    {
        if app_id.unicode_len() == 0 || contains_char(app_id, '/') {
            return Err(PathError::InvalidAppId(app_id.to_string()));
        }
        Ok(self.home.join(".var/app").join(app_id))
    }

    /// A path as it is written down: relative to the data of the installation.
    pub fn relative_data_path(&self, path: &FsPath) -> (r: Result<FsPath, PathError>)
        ensures
            match r {
                Ok(relative) => within(path@, self.data_root@) && relative@ == path_after(
                    path@,
                    components(self.data_root@).len(),
                ),
                Err(error) => !within(path@, self.data_root@) && (error matches
                    PathError::OutsideDataRoot(other) && other@ == path@),
            },
    {
        match path.strip_prefix(&self.data_root) {
            Some(relative) => Ok(relative),
            None => Err(PathError::OutsideDataRoot(path.clone())),
        }
    }

    /// The path that was written down.
    pub fn absolute_data_path(&self, path: &FsPath) -> (r: FsPath)
        ensures
            r@ == joined(self.data_root@, path@),
    {
        self.data_root.join_path(path)
    }
}

/// What was written down relative to an installation names the path that it was made from.
pub proof fn lemma_data_path_round_trip(paths: Installation, path: Seq<char>)
    requires
        within(path, paths.data_root@),
        components(paths.data_root@).len() > 0,
    ensures
        same_path(
            joined(
                paths.data_root@,
                path_after(path, components(paths.data_root@).len()),
            ),
            path,
        ),
{
    lemma_strip_join(paths.data_root@, path);
}

} // verus!
