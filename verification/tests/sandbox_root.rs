use freebsd_flatpak::apply_extra::{
    extra_command, extra_instance_id, extra_mounts, extra_name, ApplySandbox, ExtraError,
};
use freebsd_flatpak::extensions::{ExtensionMount, ExtensionMountPlan, ExtensionScope};
use freebsd_flatpak::path::FsPath;
use freebsd_flatpak::sandbox_identity::SandboxIdentity;
use freebsd_flatpak::sandbox_root::{
    app_allows_network, flatpak_info, prepare_etc_directory, prepare_etc_overlay,
    prepare_identity_files, prepare_root, runtime_os_release, EtcEntry, EtcFacts, FileKind,
    LinksTaken, ResolverFacts, RootStep,
};

#[test]
fn shared_network_enables_resolver_overlay() {
    assert!(app_allows_network("[Context]\nshared=ipc;network;\n"));
}

#[test]
fn missing_network_shared_permission_disables_resolver_overlay() {
    assert!(!app_allows_network("[Context]\nshared=ipc;\n"));
    assert!(!app_allows_network("[Application]\nname=x\n"));
}

fn facts(entries: &[&str]) -> EtcFacts {
    EtcFacts {
        entries: entries
            .iter()
            .map(|name| EtcEntry {
                name: name.to_string(),
                taken: false,
            })
            .collect(),
        os_release: FileKind::Missing,
        runtime_has_os_release: false,
        resolv_conf: ResolverFacts {
            target: FileKind::Missing,
            host_has: true,
        },
        hosts: ResolverFacts {
            target: FileKind::Missing,
            host_has: true,
        },
    }
}

fn copies(steps: &[RootStep]) -> Vec<String> {
    steps
        .iter()
        .filter_map(|step| match step {
            RootStep::Copy { to, .. } => Some(to.as_str().to_string()),
            _ => None,
        })
        .collect()
}

fn links(steps: &[RootStep]) -> Vec<(String, String)> {
    steps
        .iter()
        .filter_map(|step| match step {
            RootStep::Symlink { target, link } => {
                Some((link.as_str().to_string(), target.clone()))
            }
            _ => None,
        })
        .collect()
}

#[test]
fn etc_overlay_preserves_runtime_etc_and_adds_network_resolver_files() {
    let etc = FsPath::new("/root/etc");
    let plan = prepare_etc_overlay(&etc, true, &facts(&["nsswitch.conf"]));

    assert!(plan.refused.is_none());
    assert_eq!(
        copies(&plan.steps),
        vec!["/root/etc/resolv.conf", "/root/etc/hosts"]
    );
    assert_eq!(
        links(&plan.steps),
        vec![(
            "/root/etc/nsswitch.conf".to_string(),
            "/usr/etc/nsswitch.conf".to_string()
        )]
    );
}

#[test]
fn etc_overlay_exposes_runtime_os_release_with_flatpak_layout() {
    let etc = FsPath::new("/root/etc");
    assert_eq!(
        runtime_os_release(&FsPath::new("/runtime-files/etc")),
        Some(FsPath::new("/runtime-files/lib/os-release"))
    );
    let mut known = facts(&["os-release"]);
    known.runtime_has_os_release = true;
    let plan = prepare_etc_overlay(&etc, false, &known);
    assert_eq!(
        links(&plan.steps),
        vec![(
            "/root/etc/os-release".to_string(),
            "../usr/lib/os-release".to_string()
        )]
    );
}

#[test]
fn etc_overlay_does_not_fabricate_missing_runtime_os_release() {
    let plan = prepare_etc_overlay(&FsPath::new("/root/etc"), false, &facts(&["os-release"]));
    assert!(links(&plan.steps).is_empty());
    assert!(copies(&plan.steps).is_empty());
}

#[test]
fn root_contains_flatpak_identity_files_instead_of_runtime_accounts() {
    let root = FsPath::new("/root");
    let etc = root.join("etc");
    let identity = SandboxIdentity::new(
        1001,
        1002,
        "example".to_string(),
        Some("media".to_string()),
        "Example User".to_string(),
        FsPath::new("/home/example"),
    )
    .unwrap();

    let overlay = prepare_etc_overlay(&etc, false, &facts(&["passwd", "group"]));
    assert!(links(&overlay.steps).is_empty());
    let steps = prepare_identity_files(&etc, &identity, FileKind::Symlink, FileKind::Missing);
    assert_eq!(steps.len(), 3);
    assert!(matches!(&steps[0], RootStep::Remove(path) if *path == etc.join("passwd")));
    assert!(matches!(&steps[1], RootStep::Write { path, contents }
        if *path == etc.join("passwd") && *contents == identity.passwd_contents()));
    assert!(matches!(&steps[2], RootStep::Write { path, contents }
        if *path == etc.join("group") && *contents == identity.group_contents()));

    let layout = prepare_root(
        &root,
        &identity,
        LinksTaken {
            bin: true,
            lib: false,
            lib64: false,
        },
    );
    assert_eq!(layout.len(), 12);
    assert!(
        matches!(&layout[9], RootStep::Directory(path) if *path == root.join("run/user/1001"))
    );
    assert_eq!(links(&layout)[0].0, "/root/lib");
}

#[test]
fn flatpak_info_reports_mounted_app_and_runtime_extensions_by_commit() {
    let mount = |name: &str, commit: &str, scope| ExtensionMount {
        name: name.to_string(),
        commit: commit.to_string(),
        target: FsPath::new(match scope {
            ExtensionScope::App => "app/ext",
            ExtensionScope::Runtime => "usr/ext",
        }),
        scope,
    };
    let plan = ExtensionMountPlan {
        mounts: vec![
            mount("org.example.AppPlugin", "app-commit", ExtensionScope::App),
            mount(
                "org.example.RuntimePlugin",
                "runtime-commit",
                ExtensionScope::Runtime,
            ),
        ],
    };
    let info = flatpak_info(
        "org.example.App",
        "org.example.Platform/x86_64/1",
        "instance",
        &plan,
    );
    assert!(info.contains("app-extensions=org.example.AppPlugin=app-commit;"));
    assert!(info.contains("runtime-extensions=org.example.RuntimePlugin=runtime-commit;"));
    let empty = ExtensionMountPlan { mounts: Vec::new() };
    assert_eq!(
        flatpak_info("a", "r", "i", &empty),
        "[Application]\nname=a\nruntime=r\n\n[Instance]\ninstance-id=i\nflatpak-version=1.12.0\napp-extensions=\nruntime-extensions=\n\n[Context]\nfilesystems=\n"
    );
}

#[test]
fn what_is_no_directory_does_not_become_etc() {
    let root = FsPath::new("/root");
    assert_eq!(
        prepare_etc_directory(&root, FileKind::File).unwrap_err(),
        root.join("etc")
    );
    assert_eq!(
        prepare_etc_directory(&root, FileKind::Symlink)
            .unwrap()
            .len(),
        2
    );
    assert_eq!(
        prepare_etc_directory(&root, FileKind::Missing)
            .unwrap()
            .len(),
        1
    );
}

#[test]
fn a_resolver_file_replaces_files_but_no_directory() {
    let etc = FsPath::new("/root/etc");
    let mut known = facts(&[]);
    known.resolv_conf.target = FileKind::File;
    known.hosts.target = FileKind::Directory;
    let plan = prepare_etc_overlay(&etc, true, &known);
    assert_eq!(plan.refused, Some(etc.join("hosts")));
    assert_eq!(plan.steps.len(), 2);
    let plan = prepare_etc_overlay(&etc, false, &known);
    assert!(plan.refused.is_none());
    assert!(matches!(&plan.steps[0], RootStep::Remove(path) if *path == etc.join("resolv.conf")));
}

#[test]
fn extra_data_is_processed_in_a_sandbox_of_its_own() {
    assert_eq!(
        extra_name("[Application]\nname=a\n", false).unwrap_err(),
        ExtraError::NoRuntime
    );
    assert_eq!(
        extra_name("[Other]\nname=a\n", true).unwrap_err(),
        ExtraError::NoName
    );
    assert_eq!(extra_name("[Runtime]\nname=r\n", true).unwrap(), "r");
    assert_eq!(extra_instance_id(0x1f, 42), "apply-extra-1f-42");
    let mounts = extra_mounts(
        &FsPath::new("/checkout"),
        &FsPath::new("/runtime"),
        &FsPath::new("/extra"),
    );
    assert_eq!(mounts.len(), 3);
    assert!(!mounts[2].read_only);
    let mut sandbox = ApplySandbox::new(FsPath::new("/r"), FsPath::new("/record"));
    assert_eq!(sandbox.prepare().len(), 6);
    assert_eq!(
        sandbox.mount_command(&FsPath::new("/src"), "usr", true),
        vec!["mount_nullfs", "-o", "ro", "/src", "/r/usr"]
    );
    sandbox.mounted("usr", true);
    sandbox.mounted("app", false);
    let order = sandbox.teardown();
    assert_eq!(order[0].path, FsPath::new("/r/app"));
    assert!(!sandbox.cleanup(true));
    assert_eq!(sandbox.mounts.len(), 2);
    assert!(sandbox.cleanup(false));
    assert!(sandbox.cleaned);
    let command = extra_command(&FsPath::new("/r"), 1, 2, "me");
    assert_eq!(command[..7].join(" "), "chroot -n -u 1 -g 2 /r");
    assert_eq!(
        command.last().unwrap(),
        "cd /app/extra && exec /app/bin/apply_extra"
    );
}
