use freebsd_flatpak::filesystem_permissions::{
    parse_filesystem_permissions, parse_persistent_paths, AccessMode,
};
use freebsd_flatpak::grant_builder::{
    DirectoryEntry, GrantBuilder, GrantSettings, HostQuery, Resolution,
};
use freebsd_flatpak::host_filesystem::HostFilesystem;
use freebsd_flatpak::path::FsPath;
use freebsd_flatpak::xdg_user_dirs::{label_place, xdg_label, xdg_variable, XdgUserDirs};
use std::collections::BTreeSet;

/// Directories of a host that is kept in memory.
struct Tree {
    directories: BTreeSet<String>,
}

impl Tree {
    fn new(paths: &[&str]) -> Self {
        let mut tree = Tree {
            directories: BTreeSet::new(),
        };
        for path in paths {
            tree.make(path);
        }
        tree
    }

    fn make(&mut self, path: &str) {
        let mut at = String::new();
        for name in path.split('/').filter(|name| !name.is_empty()) {
            at.push('/');
            at.push_str(name);
            self.directories.insert(at.clone());
        }
    }

    fn is_dir(&self, path: &FsPath) -> bool {
        path.as_str() == "/" || self.directories.contains(path.as_str())
    }

    fn list(&self, path: &FsPath) -> Vec<DirectoryEntry> {
        let prefix = format!("{}/", path.as_str().trim_end_matches('/'));
        self.directories
            .iter()
            .filter_map(|directory| directory.strip_prefix(&prefix))
            .filter(|rest| !rest.contains('/'))
            .map(|name| DirectoryEntry {
                name: name.to_string(),
                is_dir: true,
            })
            .collect()
    }

    fn filesystem(
        &mut self,
        metadata: &str,
        project: &str,
        mounts: &[&str],
        user_dirs: Option<&str>,
    ) -> HostFilesystem {
        let home = FsPath::new("/home/user");
        let dirs = XdgUserDirs::from_config(&home, user_dirs);
        let canonical = dirs.paths.clone();
        let settings = GrantSettings {
            home,
            project_root: FsPath::new(project),
            sandbox_root: FsPath::new(project).join("runtime/chroots/org.example.App"),
            mount_points: mounts.iter().map(|mount| FsPath::new(mount)).collect(),
            xdg_dirs: dirs,
            xdg_canonical: canonical,
        };
        let permissions = parse_filesystem_permissions(metadata).unwrap();
        let mut builder = GrantBuilder::new(settings, permissions);
        while let Some(query) = builder.next_query().unwrap() {
            match query {
                HostQuery::IsDirectory(path) => {
                    let is_dir = self.is_dir(&path);
                    builder.answer_directory(is_dir);
                }
                HostQuery::Resolve { path, create } => {
                    if create {
                        self.make(path.as_str());
                    }
                    let resolution = if self.is_dir(&path) {
                        Resolution::Directory(path)
                    } else {
                        Resolution::Missing
                    };
                    builder.answer_resolved(resolution).unwrap();
                }
                HostQuery::List(path) => {
                    let entries = self.list(&path);
                    builder.answer_listing(entries);
                }
            }
        }
        let persistent = parse_persistent_paths(metadata).unwrap();
        HostFilesystem::from_builder(builder, persistent)
    }
}

fn metadata(filesystems: &str) -> String {
    format!(
        "[Application]\nname=org.example.App\n\n[Context]\nfilesystems={filesystems}\n"
    )
}

#[test]
fn metadata_without_filesystems_has_no_grants() {
    let fs = Tree::new(&["/home/user"]).filesystem(
        "[Application]\nname=org.example.App\n",
        "/project",
        &[],
        None,
    );
    assert!(fs.permissions().is_empty());
    assert!(fs.grants().is_empty());
}

#[test]
fn xdg_documents_ro_resolves_read_only() {
    let documents = FsPath::new("/home/user/Documents");
    let fs = Tree::new(&["/home/user/Documents"]).filesystem(
        &metadata("xdg-documents:ro;"),
        "/project",
        &[],
        None,
    );
    assert_eq!(fs.permissions().len(), 1);
    assert_eq!(fs.grants().len(), 1);
    assert_eq!(*fs.grants()[0].host_path(), documents);
    assert_eq!(*fs.grants()[0].sandbox_path(), documents);
    assert_eq!(fs.grants()[0].access(), AccessMode::ReadOnly);
}

#[test]
fn all_xdg_user_directory_permissions_are_published_consistently() {
    let names = [
        ("DESKTOP", "Desk"),
        ("DOCUMENTS", "Docs"),
        ("DOWNLOAD", "Incoming"),
        ("MUSIC", "Audio"),
        ("PICTURES", "Images"),
        ("PUBLICSHARE", "Shared"),
        ("TEMPLATES", "Patterns"),
        ("VIDEOS", "Movies"),
    ];
    let mut tree = Tree::new(&["/home/user"]);
    let mut config = String::new();
    for (key, directory) in names {
        tree.make(&format!("/home/user/{directory}"));
        config.push_str(&format!("XDG_{key}_DIR=\"$HOME/{directory}\"\n"));
    }
    let filesystem = tree.filesystem(
        &metadata("xdg-desktop;xdg-documents;xdg-download;xdg-music;xdg-pictures;xdg-public-share;xdg-templates;xdg-videos;"),
        "/project",
        &[],
        Some(&config),
    );
    let generated = filesystem.xdg_user_dirs_config();

    assert_eq!(filesystem.grants().len(), 8);
    assert_eq!(filesystem.user_dir_env().len(), 8);
    for (key, directory) in names {
        assert!(generated.contains(&format!("XDG_{key}_DIR=\"/home/user/{directory}\"")));
    }
}

#[test]
fn missing_user_dirs_config_uses_xdg_default_download_path() {
    let filesystem = Tree::new(&["/home/user/Downloads"]).filesystem(
        &metadata("xdg-download;"),
        "/project",
        &[],
        None,
    );
    assert_eq!(
        *filesystem.grants()[0].host_path(),
        FsPath::new("/home/user/Downloads")
    );
    assert!(filesystem
        .xdg_user_dirs_config()
        .contains("XDG_DOWNLOAD_DIR=\"/home/user/Downloads\""));
}

#[test]
fn ungranted_xdg_directory_is_not_published_or_exposed() {
    let filesystem = Tree::new(&["/home/user/Private Downloads"]).filesystem(
        &metadata(""),
        "/project",
        &[],
        Some("XDG_DOWNLOAD_DIR=\"$HOME/Private Downloads\"\n"),
    );
    let generated = filesystem.xdg_user_dirs_config();

    assert!(filesystem.grants().is_empty());
    assert!(filesystem.user_dir_env().is_empty());
    assert!(!generated.contains("XDG_DOWNLOAD_DIR="));
    assert!(!generated.contains("/home/user/Private Downloads"));
}

#[test]
fn xdg_directory_configured_as_home_is_disabled() {
    let filesystem = Tree::new(&["/home/user"]).filesystem(
        &metadata("xdg-download;"),
        "/project",
        &[],
        Some("XDG_DOWNLOAD_DIR=\"$HOME\"\n"),
    );

    assert!(filesystem.grants().is_empty());
    assert!(filesystem
        .warnings()
        .iter()
        .any(|warning| warning == "disabled XDG filesystem permission: xdg-download"));
    assert!(!filesystem
        .xdg_user_dirs_config()
        .contains("XDG_DOWNLOAD_DIR="));
}

#[test]
fn home_expands_to_children_when_project_lives_under_home() {
    let docs = FsPath::new("/home/user/Documents");
    let project = FsPath::new("/home/user/freebsd-flatpak");
    let fs = Tree::new(&[
        "/home/user/Documents",
        "/home/user/freebsd-flatpak/runtime/chroots/org.example.App",
    ])
    .filesystem(&metadata("home;"), project.as_str(), &[], None);

    assert!(fs
        .grants()
        .iter()
        .any(|grant| *grant.host_path() == docs && *grant.sandbox_path() == docs));
    assert!(!fs.grants().iter().any(|grant| *grant.host_path() == project));
}

#[test]
fn overlapping_permissions_keep_more_permissive_access() {
    let fs = Tree::new(&["/home/user/Documents"]).filesystem(
        &metadata("xdg-documents:ro;xdg-documents;"),
        "/project",
        &[],
        None,
    );
    assert_eq!(fs.grants().len(), 1);
    assert_eq!(fs.grants()[0].access(), AccessMode::ReadWrite);
}

#[test]
fn host_read_only_permission_keeps_every_subordinate_grant_read_only() {
    let fs = Tree::new(&["/home/user", "/mnt", "/media"]).filesystem(
        &metadata("host:ro;"),
        "/project",
        &[],
        None,
    );

    assert!(!fs.grants().is_empty());
    assert!(fs
        .grants()
        .iter()
        .all(|grant| grant.access() == AccessMode::ReadOnly));
}

#[test]
fn narrow_read_only_grant_projects_only_its_subordinate_mounts() {
    let granted = FsPath::new("/home/user/foo");
    let nested = granted.join("archive");
    let fs = Tree::new(&["/home/user/foo/archive", "/home/user/foobar"]).filesystem(
        &metadata("home/foo:ro;"),
        "/project",
        &[
            "/home/user/foo",
            "/home/user/foo/archive",
            "/home/user/foobar",
        ],
        None,
    );

    assert_eq!(fs.grants().len(), 2);
    assert_eq!(*fs.grants()[0].host_path(), granted);
    assert_eq!(*fs.grants()[0].sandbox_path(), granted);
    assert_eq!(fs.grants()[0].access(), AccessMode::ReadOnly);
    assert_eq!(*fs.grants()[1].host_path(), nested);
    assert_eq!(*fs.grants()[1].sandbox_path(), nested);
    assert_eq!(fs.grants()[1].access(), AccessMode::ReadOnly);
}

#[test]
fn overlapping_parent_and_child_grants_keep_explicit_access_and_mount_order() {
    let home = FsPath::new("/home/user");
    let fs = Tree::new(&["/home/user/Documents"]).filesystem(
        &metadata("home;home/Documents:ro;"),
        "/project",
        &[],
        None,
    );

    assert_eq!(fs.grants().len(), 2);
    assert_eq!(*fs.grants()[0].sandbox_path(), home);
    assert_eq!(fs.grants()[0].access(), AccessMode::ReadWrite);
    assert_eq!(*fs.grants()[1].sandbox_path(), home.join("Documents"));
    assert_eq!(fs.grants()[1].access(), AccessMode::ReadOnly);
    assert_eq!(fs.sandbox_home_env("/var/data"), "/home/user");
}

#[test]
fn persistent_paths_are_relative_normalized_and_parent_first() {
    let filesystem = Tree::new(&["/home/user"]).filesystem(
        "[Context]\npersistent=games/saves;.;games;games/saves;\n",
        "/project",
        &[],
        None,
    );

    assert_eq!(*filesystem.sandbox_home(), FsPath::new("/home/user"));
    assert_eq!(
        filesystem.persistent_paths(),
        [
            FsPath::new("."),
            FsPath::new("games"),
            FsPath::new("games/saves"),
        ]
    );
}

#[test]
fn persistent_paths_reject_absolute_and_parent_traversal() {
    for persistent in ["/outside", "../outside", "inside/../../outside"] {
        let error =
            parse_persistent_paths(&format!("[Context]\npersistent={persistent};\n")).unwrap_err();
        assert!(error.message().contains("invalid Flatpak persistent path"));
    }
}

#[test]
fn a_directory_is_made_where_the_permission_says_so() {
    let mut tree = Tree::new(&["/home/user"]);
    let fs = tree.filesystem(&metadata("~/made:create;"), "/project", &[], None);
    assert_eq!(fs.grants().len(), 1);
    assert!(tree.is_dir(&FsPath::new("/home/user/made")));
    assert!(fs.permissions()[0].create());
    assert_eq!(fs.permissions()[0].original(), "~/made:create");
    assert_eq!(fs.permissions()[0].access().label(), "read-write");
}

#[test]
fn the_directories_of_the_user_have_names_and_variables() {
    for place in 0..8 {
        assert_eq!(label_place(xdg_label(place)), Some(place));
        assert!(xdg_variable(place).starts_with("XDG_"));
    }
    assert_eq!(label_place("xdg-nothing"), None);
}

#[test]
fn finished_grants_are_in_order_and_apart() {
    let fs = Tree::new(&["/home/user/Documents/work", "/home/user/Music"]).filesystem(
        &metadata("xdg-documents/work:ro;xdg-music;xdg-documents:ro;xdg-documents;xdg-music:ro;"),
        "/project",
        &[],
        None,
    );
    let found: Vec<(&str, AccessMode)> = fs
        .grants()
        .iter()
        .map(|grant| (grant.sandbox_path().as_str(), grant.access()))
        .collect();
    assert_eq!(
        found,
        vec![
            ("/home/user/Documents", AccessMode::ReadWrite),
            ("/home/user/Music", AccessMode::ReadWrite),
            ("/home/user/Documents/work", AccessMode::ReadOnly),
        ]
    );
}
