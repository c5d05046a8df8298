use freebsd_flatpak::filesystem_grants::{
    absolute_to_chroot_relative, authorized_grant_paths, path_overlaps, HostPathGrant,
};
use freebsd_flatpak::filesystem_permissions::AccessMode;
use freebsd_flatpak::path::FsPath;

fn paths(texts: &[&str]) -> Vec<FsPath> {
    texts.iter().map(|text| FsPath::new(text)).collect()
}

#[test]
fn host_grants_include_only_component_bounded_nested_mount_points() {
    let roots = paths(&["/home/foo"]);
    let mounts = paths(&[
        "/home",
        "/home/foo",
        "/home/foo/archive",
        "/home/foo/../escape",
        "/home/foobar",
        "home/foo/relative",
        "/unrelated",
    ]);

    assert_eq!(
        authorized_grant_paths(&roots, &mounts),
        paths(&["/home/foo", "/home/foo/archive"])
    );
}

#[test]
fn host_grants_are_deduplicated_and_ordered_parent_before_child() {
    let roots = paths(&["/home", "/mnt"]);
    let mounts = paths(&[
        "/",
        "/home",
        "/home/regueiro",
        "/home/regueiro",
        "/home/regueiro/archive",
        "/unrelated",
    ]);

    assert_eq!(
        authorized_grant_paths(&roots, &mounts),
        paths(&["/home", "/mnt", "/home/regueiro", "/home/regueiro/archive"])
    );
}

#[test]
fn a_grant_maps_paths_through_its_own_and_its_canonical_name() {
    let grant = HostPathGrant::new(
        "x",
        "x:ro",
        FsPath::new("/link"),
        FsPath::new("/real"),
        FsPath::new("/shown"),
        AccessMode::ReadOnly,
    )
    .unwrap();
    assert_eq!(
        grant.map_host_path(&FsPath::new("/link/a")),
        Some(FsPath::new("/shown/a"))
    );
    assert_eq!(
        grant.map_host_path(&FsPath::new("/real/b")),
        Some(FsPath::new("/shown/b"))
    );
    assert_eq!(grant.map_host_path(&FsPath::new("/other")), None);
    assert_eq!(grant.source_permission(), "x:ro");
    assert_eq!(
        grant.sandbox_target_relative().unwrap(),
        FsPath::new("shown")
    );
}

#[test]
fn a_grant_needs_absolute_paths() {
    assert!(HostPathGrant::new(
        "x",
        "x",
        FsPath::new("relative"),
        FsPath::new("relative"),
        FsPath::new("/shown"),
        AccessMode::ReadOnly,
    )
    .is_err());
}

#[test]
fn targets_stay_below_the_root() {
    assert_eq!(
        absolute_to_chroot_relative(&FsPath::new("//a/./b")).unwrap(),
        FsPath::new("a/b")
    );
    assert!(absolute_to_chroot_relative(&FsPath::new("/")).is_err());
    assert!(absolute_to_chroot_relative(&FsPath::new("a")).is_err());
    assert!(absolute_to_chroot_relative(&FsPath::new("/a/../b")).is_err());
    assert!(path_overlaps(&FsPath::new("/a"), &FsPath::new("/a/b")));
    assert!(!path_overlaps(&FsPath::new("/a"), &FsPath::new("/ab")));
}
