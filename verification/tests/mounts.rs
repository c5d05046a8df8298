use freebsd_flatpak::extension_merge::{
    direct_merge_source, merge_sources, mount_extension_merge, prepare_extension_directory,
    ExtensionMergeDirectory, ExtensionMergeEntry, ExtensionTargetError, MergeStep, SourceKind,
};
use freebsd_flatpak::extensions::{ExtensionMount, ExtensionScope};
use freebsd_flatpak::mount_commands::{nullfs_command, unmount_command};
use freebsd_flatpak::mount_operations::{
    nullfs_source_aliases_parent, owned_mount_teardown_order, source_shown_at, NullfsMapping,
    OwnedMount,
};
use freebsd_flatpak::mount_planner::{MountAction, MountTable};
use freebsd_flatpak::mount_policy::{
    file_mount_action, finish_regular_file_mount, getmntinfo_mounts, nmount_tmpfs, parse_octal,
    FileMountAction, FileMountOutcome, FileMountState, TmpfsError,
};
use freebsd_flatpak::path::FsPath;
use freebsd_flatpak::secure_mount::{parse_head, run_helper, MountError, MountHead, MountOperation};
use std::collections::BTreeMap;

fn owned(path: FsPath, read_only: bool) -> OwnedMount {
    OwnedMount { path, read_only }
}

#[test]
fn complete_single_source_merge_uses_one_directory_mount() {
    let base = FsPath::new("/root/base");
    let source = FsPath::new("/root/source");
    let merge = |names: &[&str]| ExtensionMergeDirectory {
        target: FsPath::new("usr/lib/GL/lib/dri"),
        base_source: base.clone(),
        entries: names
            .iter()
            .map(|name| ExtensionMergeEntry {
                name: FsPath::new(name),
                source: source.join(name),
            })
            .collect(),
    };
    let held = [FsPath::new("driver-a"), FsPath::new("driver-b")];
    let complete = merge(&["driver-a", "driver-b"]);

    assert_eq!(
        direct_merge_source(&complete, &[], &held),
        Some(source.clone())
    );
    assert_eq!(
        direct_merge_source(&complete, &[FsPath::new("runtime-driver")], &held),
        None
    );
    assert_eq!(direct_merge_source(&merge(&["driver-a"]), &[], &held), None);
}

#[test]
fn owned_mount_cleanup_is_child_first_and_root_scoped() {
    let root = FsPath::new("/sandbox/first");
    let mounts = vec![
        owned(root.join("sys"), false),
        owned(root.join("sys/class/drm"), true),
        owned(root.join("dev"), false),
        owned(root.join("dev/shm"), false),
    ];

    let ordered = owned_mount_teardown_order(&root, mounts).unwrap();
    let positions = ordered
        .iter()
        .enumerate()
        .map(|(index, mount)| (mount.path.as_str().to_string(), index))
        .collect::<BTreeMap<_, _>>();
    assert!(positions["/sandbox/first/sys/class/drm"] < positions["/sandbox/first/sys"]);
    assert!(positions["/sandbox/first/dev/shm"] < positions["/sandbox/first/dev"]);

    let other_instance_mount = owned(FsPath::new("/sandbox/second/usr"), true);
    assert!(owned_mount_teardown_order(&root, vec![other_instance_mount]).is_err());
}

#[test]
fn nested_and_symlinked_sources_are_compared_by_actual_topology() {
    let host = FsPath::new("/base/host");
    let sandbox = FsPath::new("/base/sandbox");
    let mappings = vec![NullfsMapping {
        source: host.join("app"),
        target: sandbox.join("app"),
    }];
    let mounts = vec![owned(sandbox.join("app"), false)];
    // The directory app/data is a link to app/.local/share.
    let followed = |path: FsPath| {
        FsPath::new(
            &path
                .as_str()
                .replace("/host/app/data/", "/host/app/.local/share/"),
        )
    };
    let aliases = |mounts: &[OwnedMount], source: FsPath, target: FsPath| {
        let shown = source_shown_at(&mappings, mounts, &target).map(followed);
        nullfs_source_aliases_parent(shown.as_ref(), &source)
    };
    for (source, target) in [
        (host.join("app/ordinary"), sandbox.join("app/ordinary")),
        (
            host.join("app/ordinary/deep"),
            sandbox.join("app/ordinary/deep"),
        ),
        (
            host.join("app/.local/share/Steam"),
            sandbox.join("app/data/Steam"),
        ),
    ] {
        assert!(aliases(&mounts, source, target));
    }
    assert!(!aliases(
        &mounts,
        host.join("app/ordinary"),
        sandbox.join("app/unrelated")
    ));

    let masked_mounts = vec![mounts[0].clone(), owned(sandbox.join("app/data"), false)];
    assert!(!aliases(
        &masked_mounts,
        host.join("app/.local/share/Steam"),
        sandbox.join("app/data/Steam")
    ));
}

#[test]
fn getmntinfo_rejects_zero_count_and_null_table() {
    assert!(getmntinfo_mounts(0, false).is_none());
    assert!(getmntinfo_mounts(1, false).is_none());
    assert_eq!(getmntinfo_mounts(3, true), Some(3));
}

fn finish(
    mut restore: impl FnMut() -> bool,
    mut roll_back: impl FnMut() -> bool,
) -> FileMountOutcome {
    let mut state = FileMountState::LiftingProtection { mounted: true };
    loop {
        let succeeded = match file_mount_action(state) {
            FileMountAction::Restore => restore(),
            FileMountAction::RollBack => roll_back(),
            FileMountAction::Finish(outcome) => return outcome,
        };
        state = finish_regular_file_mount(state, succeeded);
    }
}

#[test]
fn failed_parent_restoration_rolls_back_successful_regular_file_mount() {
    let mut restores = 0;
    let mut rollbacks = 0;
    let outcome = finish(
        || {
            restores += 1;
            restores > 1
        },
        || {
            rollbacks += 1;
            true
        },
    );
    assert_eq!(outcome, FileMountOutcome::RolledBack);
    assert_eq!(rollbacks, 1);
    assert_eq!(restores, 2);
}

#[test]
fn failed_rollback_after_parent_restoration_failure_requires_tracked_cleanup() {
    let mut restores = 0;
    let mut rollbacks = 0;
    let outcome = finish(
        || {
            restores += 1;
            false
        },
        || {
            rollbacks += 1;
            false
        },
    );
    assert_eq!(
        outcome,
        FileMountOutcome::NeedsTrackedCleanup { restored: false }
    );
    assert_eq!(rollbacks, 1);
    assert_eq!(restores, 2);
}

#[test]
fn a_directory_is_not_shown_upon_itself() {
    let root = FsPath::new("/chroots/app/i");
    let mut table = MountTable::new(root.clone());
    let app = FsPath::new("/host/app");
    let first = table.mount_nullfs(&app, &FsPath::new("app"), true, &None);
    assert_eq!(first.len(), 1);
    for action in &first {
        table.record(action);
    }
    let target = FsPath::new("app/data");
    let shown = table.shown_at_target(&target);
    assert_eq!(shown, Some(FsPath::new("/host/app/data")));
    let source = FsPath::new("/host/app/data");
    let plan = table.mount_nullfs(&source, &target, false, &shown);
    assert_eq!(plan.len(), 4);
    assert!(matches!(&plan[0], MountAction::CreateDirectory(path)
        if *path == root.join(".freebsd-flatpak-mount-sources")));
    assert!(matches!(&plan[1], MountAction::Tmpfs { options, .. } if options == "mode=0700"));
    table.reserve_staging();
    for action in &plan {
        table.record(action);
    }
    assert!(table.mount_staging_ready);
    assert_eq!(table.next_mount_staging_id, 1);
    assert_eq!(table.owned_mounts.len(), 4);
    assert_eq!(
        table.nullfs_mounts.last().unwrap().source,
        FsPath::new("/host/app/data")
    );
    assert!(table.source_is_private(&root.join(".freebsd-flatpak-mount-sources/0")));
    table.exclude_from_nested(&target);
    assert_eq!(table.nested_excluded_mounts, vec![root.join("app/data")]);
}

#[test]
fn merged_directories_keep_what_is_not_replaced() {
    let merge = ExtensionMergeDirectory {
        target: FsPath::new("usr/lib/x"),
        base_source: FsPath::new("/runtime/files/lib/x"),
        entries: vec![ExtensionMergeEntry {
            name: FsPath::new("b"),
            source: FsPath::new("/ext/b"),
        }],
    };
    let base = [FsPath::new("c"), FsPath::new("b"), FsPath::new("a")];
    let entries = merge_sources(&merge, &base, &[FsPath::new("c")]);
    let shown: Vec<_> = entries
        .iter()
        .map(|entry| (entry.name.as_str(), entry.source.as_str()))
        .collect();
    assert_eq!(
        shown,
        vec![("a", "/runtime/files/lib/x/a"), ("b", "/ext/b")]
    );
    let kinds = [SourceKind::Directory, SourceKind::Link("to".into())];
    let steps = mount_extension_merge(
        &FsPath::new("/r"),
        &merge.target,
        true,
        &[FsPath::new("c")],
        &entries,
        &kinds,
    )
    .unwrap();
    assert_eq!(steps.len(), 5);
    assert!(matches!(&steps[0], MergeStep::Tmpfs(target) if *target == merge.target));
    assert!(matches!(&steps[3], MergeStep::Mount { target, .. }
        if *target == FsPath::new("usr/lib/x/a")));
    assert!(matches!(&steps[4], MergeStep::Symlink { says, .. } if says == "to"));
    assert!(
        mount_extension_merge(&FsPath::new("/r"), &merge.target, false, &[], &[], &[])
            .unwrap_err()
            .message()
            .contains("/r/usr/lib/x")
    );
}

#[test]
fn an_overlay_is_laid_over_the_nearest_directory_but_never_a_whole_scope() {
    let mounts = [ExtensionMount {
        name: "x".into(),
        commit: "c".into(),
        target: FsPath::new("app/lib/ext/one"),
        scope: ExtensionScope::App,
    }];
    let app = FsPath::new("/deploy/app");
    let runtime = FsPath::new("/deploy/runtime");
    let overlay = prepare_extension_directory(
        &FsPath::new("app/lib/ext/one"),
        &app,
        &runtime,
        &[FsPath::new("app"), FsPath::new("app/lib")],
        &mounts,
    )
    .unwrap();
    assert_eq!(overlay.merge.target, FsPath::new("app/lib"));
    assert_eq!(
        overlay.merge.base_source,
        FsPath::new("/deploy/app/files/lib")
    );
    assert_eq!(overlay.placeholders, vec![FsPath::new("ext")]);
    let refused = |target: &str, existing: &[FsPath]| {
        prepare_extension_directory(&FsPath::new(target), &app, &runtime, existing, &mounts)
            .unwrap_err()
    };
    assert!(matches!(
        refused("etc/x", &[]),
        ExtensionTargetError::OutsideScopes(_)
    ));
    assert!(matches!(
        refused("usr/x", &[FsPath::new("usr")]),
        ExtensionTargetError::WholeScope(_)
    ));
    assert!(matches!(
        refused("usr/x/y", &[FsPath::new("usr")]),
        ExtensionTargetError::NoParent(_)
    ));
}

#[test]
fn tmpfs_options_are_checked_one_by_one() {
    let settings = nmount_tmpfs(b"mode=0700,uid=5,gid=6").unwrap();
    assert_eq!(settings.mode, Some(0o700));
    assert_eq!(settings.uid, Some(5));
    assert_eq!(settings.gid, Some(6));
    assert!(matches!(nmount_tmpfs(b"mode"), Err(TmpfsError::NeedsValue)));
    assert!(matches!(
        nmount_tmpfs(b"mode=9"),
        Err(TmpfsError::InvalidMode)
    ));
    assert!(matches!(nmount_tmpfs(&[0xff]), Err(TmpfsError::NotUtf8)));
    assert!(matches!(
        nmount_tmpfs(b"uid=x"),
        Err(TmpfsError::InvalidOwner)
    ));
    assert_eq!(parse_octal("0755"), Some(0o755));
    assert_eq!(parse_octal("8"), None);
}

#[test]
fn the_helper_reads_back_what_it_is_asked_for() {
    let command = nullfs_command(b"/root", (1, 2), b"/src", Some((3, 4)), b"usr/lib", true).unwrap();
    let mut args = vec![b"helper".to_vec()];
    args.extend(command.args.clone());
    let Ok(MountHead::InSandbox(request)) = parse_head(&args) else {
        panic!("the request is one in a sandbox");
    };
    assert_eq!(request.target, b"usr/lib".to_vec());
    assert_eq!(request.root_identity, (1, 2));
    let operation = run_helper(&args, &request).unwrap();
    assert!(matches!(operation, MountOperation::Nullfs { source, identity, read_only }
        if source == b"/src" && identity == Some((3, 4)) && read_only));
    assert!(matches!(
        unmount_command(b"/root", (1, 2), b"../x", false),
        Err(MountError::TargetNotNormalized)
    ));
}
