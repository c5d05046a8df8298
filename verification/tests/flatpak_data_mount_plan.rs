use freebsd_flatpak::filesystem_grants::HostPathGrant;
use freebsd_flatpak::filesystem_permissions::AccessMode;
use freebsd_flatpak::flatpak_data_mount_plan::FlatpakDataMountPlan;
use freebsd_flatpak::path::FsPath;

fn grant(
    permission: &str,
    host_path: &FsPath,
    sandbox_path: &FsPath,
    access: AccessMode,
) -> HostPathGrant {
    HostPathGrant::new(
        permission,
        permission,
        host_path.clone(),
        host_path.clone(),
        sandbox_path.clone(),
        access,
    )
    .unwrap()
}

fn app_paths() -> (FsPath, FsPath) {
    let root = FsPath::new("/home/user/.var/app");
    let own = root.join("org.example.App");
    (root, own)
}

fn build(grants: &[HostPathGrant], own: &FsPath, reserved: &[FsPath]) -> FlatpakDataMountPlan {
    FlatpakDataMountPlan::build_with_aliases(grants, own, reserved, &[]).unwrap()
}

#[test]
fn host_plus_cross_app_grant_masks_then_restores_only_requested_subtree() {
    let (root, own) = app_paths();
    let home = FsPath::new("/home/user");
    let steam = root.join("com.valvesoftware.Steam/data/Steam");
    let plan = build(
        &[
            grant("host", &home, &home, AccessMode::ReadWrite),
            grant(
                "~/.var/app/com.valvesoftware.Steam/data/Steam",
                &steam,
                &steam,
                AccessMode::ReadWrite,
            ),
        ],
        &own,
        &[],
    );

    assert!(plan.mask_app_data_root);
    assert_eq!(plan.grants_before_mask.len(), 1);
    assert_eq!(plan.grants_after_mask.len(), 1);
    assert_eq!(*plan.grants_after_mask[0].sandbox_path(), steam);
    assert_eq!(plan.app_data_root, root);
}

#[test]
fn home_plus_cross_app_grant_uses_the_same_private_boundary() {
    let (root, own) = app_paths();
    let home = FsPath::new("/home/user");
    let other = root.join("org.example.Other/data");
    let plan = build(
        &[
            grant("home", &home, &home, AccessMode::ReadWrite),
            grant(
                "~/.var/app/org.example.Other/data",
                &other,
                &other,
                AccessMode::ReadWrite,
            ),
        ],
        &own,
        &[],
    );

    assert!(plan.mask_app_data_root);
    assert_eq!(plan.grants_after_mask.len(), 1);
}

#[test]
fn broad_access_does_not_become_an_implicit_cross_app_grant() {
    let (_, own) = app_paths();
    let home = FsPath::new("/home");
    let plan = build(
        &[grant("host", &home, &home, AccessMode::ReadWrite)],
        &own,
        &[],
    );

    assert!(plan.mask_app_data_root);
    assert!(plan.grants_after_mask.is_empty());
}

#[test]
fn own_app_data_is_always_restored_writable_by_the_backend() {
    let (_, own) = app_paths();
    let plan = build(&[], &own, &[]);

    assert_eq!(plan.app_data, own);
    assert!(!plan.mask_app_data_root);
}

#[test]
fn redundant_own_app_child_grant_cannot_form_a_self_alias() {
    let (_, own) = app_paths();
    let child = own.join("data/tools");
    let plan = build(
        &[grant(
            "~/.var/app/org.example.App/data/tools",
            &child,
            &child,
            AccessMode::ReadWrite,
        )],
        &own,
        &[],
    );

    assert!(plan.grants_after_mask.is_empty());
}

#[test]
fn canonical_symlink_source_keeps_lexical_cross_app_destination() {
    let (root, own) = app_paths();
    let lexical = root.join("com.valvesoftware.Steam/data/Steam");
    let canonical = root.join("com.valvesoftware.Steam/.local/share/Steam");
    let plan = build(
        &[grant(
            "~/.var/app/com.valvesoftware.Steam/data/Steam",
            &canonical,
            &lexical,
            AccessMode::ReadWrite,
        )],
        &own,
        &[],
    );

    let restored = &plan.grants_after_mask[0];
    assert_eq!(*restored.host_path(), canonical);
    assert_eq!(*restored.sandbox_path(), lexical);
    assert_ne!(restored.host_path(), restored.sandbox_path());
}

#[test]
fn explicit_cross_app_read_only_access_is_preserved() {
    let (root, own) = app_paths();
    let other = root.join("org.example.Other/data");
    let plan = build(
        &[grant(
            "~/.var/app/org.example.Other/data:ro",
            &other,
            &other,
            AccessMode::ReadOnly,
        )],
        &own,
        &[],
    );

    assert_eq!(plan.grants_after_mask[0].access(), AccessMode::ReadOnly);
}

#[test]
fn ordinary_host_grants_remain_before_the_private_boundary() {
    let (_, own) = app_paths();
    let documents = FsPath::new("/home/user/Documents");
    let plan = build(
        &[grant("host", &documents, &documents, AccessMode::ReadWrite)],
        &own,
        &[],
    );

    assert_eq!(plan.grants_before_mask.len(), 1);
    assert!(!plan.mask_app_data_root);
}

#[test]
fn broad_access_masks_flatpak_installation_storage_too() {
    let (_, own) = app_paths();
    let home = FsPath::new("/home/user");
    let installation_roots = [
        FsPath::new("/home/user/.local/share/flatpak"),
        FsPath::new("/home/user/.local/share/freebsd-flatpak"),
    ];
    let plan = build(
        &[grant("host", &home, &home, AccessMode::ReadWrite)],
        &own,
        &installation_roots,
    );

    assert_eq!(plan.reserved_roots_to_mask, installation_roots);
}

#[test]
fn every_protected_root_regrants_exact_child_and_deep_paths_after_masks() {
    let (app_root, own) = app_paths();
    let flatpak_root = FsPath::new("/home/user/.local/share/flatpak");
    let project_root = FsPath::new("/home/user/.local/share/freebsd-flatpak");
    let protected_roots = [app_root.clone(), flatpak_root.clone(), project_root.clone()];
    let documents = FsPath::new("/home/user/Documents");
    let grants = vec![
        grant("app-root:rw", &app_root, &app_root, AccessMode::ReadWrite),
        grant(
            "exact:ro",
            &flatpak_root,
            &flatpak_root,
            AccessMode::ReadOnly,
        ),
        grant(
            "child:rw",
            &project_root.join("child"),
            &project_root.join("child"),
            AccessMode::ReadWrite,
        ),
        grant(
            "deep:create",
            &app_root.join("org.example.Other/a/b/c"),
            &app_root.join("org.example.Other/a/b/c"),
            AccessMode::ReadWrite,
        ),
        grant("ordinary", &documents, &documents, AccessMode::ReadWrite),
    ];

    let plan = build(&grants, &own, &protected_roots[1..]);

    assert_eq!(plan.grants_before_mask.len(), 1);
    assert_eq!(
        *plan.grants_before_mask[0].sandbox_path(),
        FsPath::new("/home/user/Documents")
    );
    assert_eq!(plan.grants_after_mask.len(), 4);
    assert_eq!(
        plan.grants_after_mask
            .iter()
            .map(HostPathGrant::source_permission)
            .collect::<Vec<_>>(),
        vec!["app-root:rw", "exact:ro", "child:rw", "deep:create"]
    );
    assert_eq!(
        plan.grants_after_mask
            .iter()
            .map(HostPathGrant::access)
            .collect::<Vec<_>>(),
        vec![
            AccessMode::ReadWrite,
            AccessMode::ReadOnly,
            AccessMode::ReadWrite,
            AccessMode::ReadWrite,
        ]
    );
}

#[test]
fn current_app_canonical_mount_stays_separate_from_generic_regrants() {
    let (app_root, own) = app_paths();
    let own_child = own.join("data/tools");
    let other = app_root.join("org.example.Other");
    let plan = build(
        &[
            grant("own:create", &own_child, &own_child, AccessMode::ReadWrite),
            grant("other:ro", &other, &other, AccessMode::ReadOnly),
        ],
        &own,
        &[],
    );

    assert_eq!(plan.app_data, own);
    assert_eq!(plan.grants_after_mask.len(), 1);
    assert_eq!(*plan.grants_after_mask[0].sandbox_path(), other);
}

#[test]
fn ordinary_app_without_host_or_home_creates_no_protected_masks() {
    let (_, own) = app_paths();
    let reserved = [
        FsPath::new("/home/user/.local/share/flatpak"),
        FsPath::new("/home/user/.local/share/freebsd-flatpak"),
    ];
    let plan = build(&[], &own, &reserved);

    assert!(!plan.mask_app_data_root);
    assert!(plan.reserved_roots_to_mask.is_empty());
    assert!(plan.grants_before_mask.is_empty());
    assert!(plan.grants_after_mask.is_empty());
}

#[test]
fn another_name_of_a_protected_root_is_masked_too() {
    let (_, own) = app_paths();
    let home = FsPath::new("/home/user");
    let alias = FsPath::new("/home/user/elsewhere");
    let plan = FlatpakDataMountPlan::build_with_aliases(
        &[grant("host", &home, &home, AccessMode::ReadWrite)],
        &own,
        &[],
        &[alias.clone()],
    )
    .unwrap();
    assert_eq!(plan.reserved_roots_to_mask, [alias]);
}
