use freebsd_flatpak::application_entrypoint::{
    app_requests_socket, compatibility_args, has_ozone_platform_arg, host_app_path, host_entry, host_user, invalid_id_message, join_numeric_ids,
    launch_args, numeric_id, numeric_ids, resolve_entry, sandbox_name, EntryError, EntryLaunch, FlatpakApp,
};
use freebsd_flatpak::chroot_backend::{
    collect_extension_refs, new_instance_id, ChrootNullfsBackend, HostMount, PendingRunRecord,
    RuntimeMount, SetupError, SetupInputs, SetupStep,
};
use freebsd_flatpak::chroot_instance::{
    launch_command, launch_environment, ChrootInstance, Cleanup, CleanupStage, HostEnvironment,
    LaunchFailure, LaunchSetting,
};
use freebsd_flatpak::extensions::AppExtension;
use freebsd_flatpak::file_argument_translation::Surroundings;
use freebsd_flatpak::flatpak_data_mount_plan::FlatpakDataMountPlan;
use freebsd_flatpak::host_filesystem::HostFilesystem;
use freebsd_flatpak::installation::Installation;
use freebsd_flatpak::launch_environment::SessionSettings;
use freebsd_flatpak::mount_operations::OwnedMount;
use freebsd_flatpak::mount_planner::MountTable;
use freebsd_flatpak::path::FsPath;
use freebsd_flatpak::stale_sandbox_recovery::chroot_root_for_mount;
use freebsd_flatpak::state::AppRecord;

fn app(command: &str) -> FlatpakApp {
    FlatpakApp {
        app_id: "org.example.App".into(),
        app_dir: FsPath::new("/apps/app"),
        runtime_ref: "org.freedesktop.Platform/x86_64/25.08".into(),
        runtime_dir: FsPath::new("/runtime"),
        command: command.into(),
        args: Vec::new(),
    }
}

const ELECTRON: &str = "[Application]\nbase=app/org.electronjs.Electron2.BaseApp/x86_64/25.08\n\n[Context]\nsockets=wayland;x11;\n";

#[test]
fn electron_base_app_gets_wayland_ozone_arg() {
    assert_eq!(
        compatibility_args(ELECTRON, &[]),
        vec!["--ozone-platform=wayland"]
    );
}

#[test]
fn explicit_ozone_arg_is_preserved() {
    assert!(compatibility_args(ELECTRON, &["--ozone-platform=x11".to_string()]).is_empty());
    assert!(compatibility_args(ELECTRON, &["--ozone-platform".to_string()]).is_empty());
}

#[test]
fn non_electron_app_gets_no_ozone_arg() {
    let metadata =
        "[Application]\nbase=app/org.gnome.Platform/x86_64/49\n\n[Context]\nsockets=wayland;\n";
    assert!(compatibility_args(metadata, &[]).is_empty());
}

#[test]
fn added_arguments_come_before_those_of_the_user() {
    assert_eq!(
        launch_args(ELECTRON, &["--x".to_string()]),
        vec!["--ozone-platform=wayland", "--x"]
    );
}

#[test]
fn the_entry_is_looked_for_in_the_deployment() {
    assert_eq!(
        host_entry(&app("tool")).unwrap(),
        FsPath::new("/apps/app/files/bin/tool")
    );
    assert_eq!(
        host_entry(&app("/app/libexec/tool")).unwrap(),
        FsPath::new("/apps/app/files/libexec/tool")
    );
    let outside = host_entry(&app("/usr/bin/tool")).unwrap_err();
    assert_eq!(
        outside.message(),
        "entry path must be inside /app: /usr/bin/tool"
    );
    assert_eq!(
        host_app_path(&FsPath::new("/f"), "x").unwrap(),
        FsPath::new("/f/bin/x")
    );
    assert!(matches!(
        resolve_entry(&app("tool"), false),
        Err(EntryError::Missing(_))
    ));
    let entry = resolve_entry(&app("tool"), true).unwrap();
    let args = ["a".to_string(), "b".to_string()];
    assert_eq!(entry.display(&args), "/app/bin/tool a b");
    assert_eq!(entry.command_args(&args), vec!["/app/bin/tool", "a", "b"]);
}

#[test]
fn names_and_ids_are_read_and_written() {
    assert_eq!(sandbox_name("org.a-b_c/d é"), "org.a-b_c_d__");
    assert_eq!(numeric_id(" 1001\n").unwrap(), 1001);
    assert!(matches!(
        numeric_id("x"),
        Err(EntryError::InvalidId(text)) if text == "x"
    ));
    assert_eq!(numeric_ids("0 5\n 7\n").unwrap(), vec![0, 5, 7]);
    assert_eq!(
        numeric_id(" a\"b\\c\td ").unwrap_err().message(),
        "parse numeric id from \"a\\\"b\\\\c\\td\""
    );
    assert_eq!(
        numeric_ids("0 x").unwrap_err().message(),
        "parse numeric id from \"x\""
    );
    assert_eq!(invalid_id_message("\"x\""), "parse numeric id from \"x\"");
    assert!(numeric_ids("0 a").is_err());
    assert_eq!(host_user(None, 12), "12");
    assert_eq!(host_user(Some("me".into()), 12), "me");
    assert_eq!(join_numeric_ids(&[1, 20, 300]), "1,20,300");
}

#[test]
fn concurrent_instances_get_distinct_roots_and_cleanup_isolation() {
    let backend = ChrootNullfsBackend::new(Installation::below(&FsPath::new("/base")));
    let chroots = backend.paths.chroots();
    let first_id = new_instance_id(0xabc, 0, 77);
    let second_id = new_instance_id(0xabc, 1, 77);
    assert_eq!(first_id, "abc-0-77");
    assert_ne!(first_id, second_id);
    let first_root = backend.instance_root("org.example.App", &first_id);
    let second_root = backend.instance_root("org.example.App", &second_id);
    let known = [first_root.clone(), second_root.clone()];
    assert_eq!(
        chroot_root_for_mount(&chroots, &first_root.join("usr"), &known),
        Some(first_root)
    );
    assert_eq!(
        chroot_root_for_mount(&chroots, &second_root.join("usr"), &known),
        Some(second_root)
    );
}

fn deployment() -> AppRecord {
    AppRecord {
        app_id: "a".into(),
        app_ref: "app/a/x/1".into(),
        app_commit: "c".into(),
        app_dir: FsPath::new("apps/a/c"),
        arch: "x".into(),
        branch: "1".into(),
        runtime_ref: "p/x/1".into(),
        runtime_commit: "rc".into(),
        runtime_dir: FsPath::new("runtimes/p/rc"),
        command: "cmd".into(),
    }
}

#[test]
fn a_pending_record_names_the_extensions_once_they_are_known() {
    let paths = Installation::below(&FsPath::new("/base"));
    let (mut pending, write) =
        PendingRunRecord::new(&paths, deployment(), "one", &FsPath::new("/r"), 9).unwrap();
    assert!(!write.text.contains("extension_refs"));
    assert!(write.text.contains("child_pid=0\n"));
    let refs = collect_extension_refs(
        &["b".to_string()],
        &["a".to_string(), "b".to_string()],
        &["c".to_string()],
    );
    assert_eq!(refs, vec!["a", "b", "c"]);
    let write = pending.set_extensions(&paths, 9, refs).unwrap();
    assert!(write.text.ends_with("extension_refs=a;b;c\n"));
    let (path, _, refs) = pending.commit();
    assert_eq!(path, write.path);
    assert_eq!(refs.len(), 3);
    assert!(PendingRunRecord::new(&paths, deployment(), "x/y", &FsPath::new("/r"), 9).is_err());
}

fn host_mount(host: &str, sandbox: &str) -> HostMount {
    HostMount {
        host_path: FsPath::new(host),
        sandbox_path: FsPath::new(sandbox),
    }
}

fn inputs() -> SetupInputs {
    SetupInputs {
        app_dir: FsPath::new("/apps/a"),
        runtime_dir: FsPath::new("/runtimes/p"),
        app_data: FsPath::new("/home/u/.var/app/a"),
        uid: 5,
        gid: 6,
        app_extensions: Vec::new(),
        linux_compat: RuntimeMount {
            source: FsPath::new("/compat"),
            target: FsPath::new("run/compat"),
        },
        graphics: vec![host_mount("/g", "/run/compat"), host_mount("/h", "/run/gl")],
        network: Some(host_mount("/n", "/run/gl")),
        system_bus: None,
        video: Vec::new(),
        data_plan: FlatpakDataMountPlan {
            grants_before_mask: Vec::new(),
            mask_app_data_root: true,
            app_data_root: FsPath::new("/home/u/.var/app"),
            app_data: FsPath::new("/home/u/.var/app/a"),
            reserved_roots_to_mask: vec![FsPath::new("/home/u/.local/share/flatpak")],
            grants_after_mask: Vec::new(),
        },
        projection: None,
        cursor: vec![host_mount("/icons", "/run/host/share/icons")],
        fonts: Vec::new(),
        xdg_runtime_dir: FsPath::new("/run/user/5"),
        doc_dir: Some(FsPath::new("/doc")),
        sysfs: Vec::new(),
    }
}

fn shown(steps: &[SetupStep]) -> Vec<String> {
    steps
        .iter()
        .map(|step| match step {
            SetupStep::CreateDirectory(path) => format!("mkdir {}", path.as_str()),
            SetupStep::WriteUserDirs(path) => format!("dirs {}", path.as_str()),
            SetupStep::Show {
                source,
                target,
                read_only,
            } => format!(
                "{} {} {}",
                if *read_only { "ro" } else { "rw" },
                source.as_str(),
                target.as_str()
            ),
            SetupStep::Tmpfs { target, options } => format!("tmpfs {} {options}", target.as_str()),
            SetupStep::Special { target, fs_type } => format!("{fs_type} {}", target.as_str()),
            SetupStep::AttachPortal => "attach".to_string(),
        })
        .collect()
}

#[test]
fn a_sandbox_is_filled_in_order() {
    let steps = ChrootNullfsBackend::prepare(&inputs()).unwrap();
    assert_eq!(
        shown(&steps),
        vec![
            "ro /runtimes/p/files usr",
            "ro /apps/a/files app",
            "mkdir /home/u/.var/app/a/data",
            "mkdir /home/u/.var/app/a/config",
            "mkdir /home/u/.var/app/a/cache",
            "dirs /home/u/.var/app/a/config",
            "rw /home/u/.var/app/a/data var/data",
            "rw /home/u/.var/app/a/config var/config",
            "rw /home/u/.var/app/a/cache var/cache",
            "ro /compat run/compat",
            "ro /h run/gl",
            "tmpfs home/u/.local/share/flatpak mode=0700,uid=5,gid=6",
            "tmpfs home/u/.var/app mode=0700,uid=5,gid=6",
            "rw /home/u/.var/app/a home/u/.var/app/a",
            "ro /icons run/host/share/icons",
            "rw /run/user/5 run/user/5",
            "ro /doc run/user/5/doc",
            "attach",
            "rw /tmp tmp",
            "devfs dev",
            "fdescfs dev/fd",
            "tmpfs dev/shm mode=1777",
            "linprocfs proc",
            "linsysfs sys",
        ]
    );
}

#[test]
fn places_outside_of_the_sandbox_stop_the_preparation() {
    let mut relative = inputs();
    relative.data_plan.app_data = FsPath::new("relative");
    assert!(matches!(
        ChrootNullfsBackend::prepare(&relative),
        Err(SetupError::RelativePath(_))
    ));
    let mut root = inputs();
    root.data_plan.app_data_root = FsPath::new("/");
    assert!(matches!(
        ChrootNullfsBackend::prepare(&root),
        Err(SetupError::RootDirectory)
    ));
    let mut escaping = inputs();
    escaping.video.push(host_mount("/v", "/a/../b"));
    assert!(matches!(
        ChrootNullfsBackend::prepare(&escaping),
        Err(SetupError::Grant(_))
    ));
}

fn pair(key: &str, value: &str) -> (String, String) {
    (key.to_string(), value.to_string())
}

#[test]
fn the_environment_is_put_together_in_layers() {
    let host = HostFilesystem {
        permissions: Vec::new(),
        grants: Vec::new(),
        warnings: Vec::new(),
        sandbox_home: FsPath::new("/home/u"),
        persistent_paths: Vec::new(),
    };
    let session = SessionSettings {
        wayland_display: "wayland-0".into(),
        display: None,
        bus_address: None,
        current_desktop: None,
        session_desktop: None,
        moz_enable_wayland: None,
        trace_linux_compat: None,
    };
    let resources = HostEnvironment {
        audio: vec![pair("PULSE", "1")],
        cursor: vec![pair("XCURSOR", "x")],
        cursor_config_dirs: vec!["/cursor".into()],
        portal: vec![pair("PORTAL", "1")],
        graphics: vec![pair("GSK_RENDERER", "ngl")],
        ld_preload_paths: vec!["/drm.so".into()],
        zypak_ld_preload_paths: Vec::new(),
        network_preload_paths: vec!["/net.so".into()],
        video_library_paths: vec!["/va".into()],
        video: vec![pair("LIBVA", "y")],
    };
    let extension = AppExtension {
        name: "x".into(),
        ref_name: "r".into(),
        checkout_dir: FsPath::new("/x"),
        app_mount_relative: FsPath::new("ext"),
        ld_library_relative: Some(FsPath::new("lib")),
    };
    let env = launch_environment(
        &app("tool"),
        &session,
        1001,
        "u",
        &FsPath::new("/data"),
        &host,
        &resources,
        &[extension],
        "[Environment]\nGSK_RENDERER=gl\nR=$USER\n",
        "[Environment]\nR=${R}!\n\n[Context]\nunset-environment=PULSE;LIBVA;\n",
    )
    .unwrap();
    let find = |key: &str| {
        env.iter()
            .find(|(name, _)| name == key)
            .map(|(_, value)| value.as_str())
    };
    assert_eq!(find("HOME"), Some("/var/data"));
    assert_eq!(find("R"), Some("u!"));
    assert_eq!(find("PULSE"), None);
    assert_eq!(find("LIBVA"), Some("y"));
    assert_eq!(find("GSK_RENDERER"), Some("ngl"));
    assert_eq!(find("LD_PRELOAD"), Some("/net.so:/drm.so"));
    assert_eq!(find("ZYPAK_LD_PRELOAD"), Some("/net.so"));
    assert_eq!(
        find("XDG_CONFIG_DIRS"),
        Some("/cursor:/app/etc/xdg:/etc/xdg")
    );
    assert!(find("LD_LIBRARY_PATH")
        .unwrap()
        .starts_with("/app/ext/lib:/va:/app/lib:"));
}

#[test]
fn an_application_is_started_with_nothing_but_its_variables() {
    let entry = EntryLaunch {
        chroot_path: "/app/bin/tool".into(),
    };
    let env = [pair("A", "1"), pair("B", "x=y")];
    assert_eq!(
        launch_command(
            1,
            2,
            &[3, 4],
            &FsPath::new("/r"),
            &env,
            &entry,
            &["arg".to_string()]
        )
        .join(" "),
        "chroot -u 1 -g 2 -G 3,4 /r /usr/bin/env -i A=1 B=x=y /app/bin/tool arg"
    );
    assert_eq!(
        launch_command(1, 2, &[], &FsPath::new("/r"), &[], &entry, &[]).join(" "),
        "chroot -u 1 -g 2 /r /usr/bin/env -i /app/bin/tool"
    );
}

#[test]
fn a_launch_is_planned_as_a_whole() {
    let instance = ChrootInstance {
        instance_id: "one".into(),
        uid: 1001,
        gid: 1002,
        supplementary_gids: vec![7],
        host_filesystem: HostFilesystem {
            permissions: Vec::new(),
            grants: Vec::new(),
            warnings: Vec::new(),
            sandbox_home: FsPath::new("/home/u"),
            persistent_paths: Vec::new(),
        },
        effective_metadata:
            "[Environment]\nCACHE_DIR=$XDG_RUNTIME_DIR/app/$FLATPAK_ID/cache\n".into(),
        resources: HostEnvironment {
            audio: Vec::new(),
            cursor: Vec::new(),
            cursor_config_dirs: Vec::new(),
            portal: Vec::new(),
            graphics: Vec::new(),
            ld_preload_paths: Vec::new(),
            zypak_ld_preload_paths: Vec::new(),
            network_preload_paths: Vec::new(),
            video_library_paths: Vec::new(),
            video: Vec::new(),
        },
        app_extensions: Vec::new(),
        mounts: MountTable::new(FsPath::new("/r")),
        run_record: FsPath::new("/record"),
        deployment: deployment(),
        extension_refs: Vec::new(),
    };
    let setting = || LaunchSetting {
        session: SessionSettings {
            wayland_display: "wayland-0".into(),
            display: None,
            bus_address: None,
            current_desktop: None,
            session_desktop: None,
            moz_enable_wayland: None,
            trace_linux_compat: None,
        },
        user: "u".into(),
        data_home: FsPath::new("/data"),
        xdg_runtime_dir: FsPath::new("/host/run"),
        runtime_metadata: String::new(),
        app_metadata: ELECTRON.into(),
        around: Surroundings {
            home: None,
            current_dir: None,
        },
    };
    let entry = EntryLaunch {
        chroot_path: "/app/bin/tool".into(),
    };
    let mut app = app("tool");
    app.args = vec!["--x".into(), "/unseen/file".into(), "%U".into()];
    let plan = instance.launch(&app, &setting(), &entry).unwrap();
    assert_eq!(
        plan.runtime_dirs,
        vec![FsPath::new("/host/run/app/org.example.App/cache")]
    );
    assert_eq!(plan.unseen, vec!["/unseen/file"]);
    assert_eq!(
        plan.command[..10].join(" "),
        "chroot -u 1001 -g 1002 -G 7 /r /usr/bin/env -i"
    );
    assert!(plan.command.join(" ").ends_with(
        "/app/bin/tool --ozone-platform=wayland --x /unseen/file"
    ));
    app.args = vec!["~/file".into()];
    assert!(matches!(
        instance.launch(&app, &setting(), &entry),
        Err(LaunchFailure::Argument { .. })
    ));
    app.runtime_ref = "p/other/1".into();
    assert!(matches!(
        instance.launch(&app, &setting(), &entry),
        Err(LaunchFailure::Architecture)
    ));
}

fn owned(path: &str) -> OwnedMount {
    OwnedMount {
        path: FsPath::new(path),
        read_only: true,
    }
}

#[test]
fn a_sandbox_is_removed_only_after_everything_was_taken_down() {
    let root = FsPath::new("/r");
    let mut cleanup = Cleanup::start(&root, vec![owned("/r/usr"), owned("/r/usr/share")]);
    let mut stages = Vec::new();
    while cleanup.stage != CleanupStage::Done {
        stages.push(cleanup.stage);
        cleanup.next(None);
    }
    assert_eq!(
        stages,
        vec![
            CleanupStage::EndProcesses,
            CleanupStage::ClosePortal,
            CleanupStage::Unmount(0),
            CleanupStage::Unmount(1),
            CleanupStage::RemoveGraphics,
            CleanupStage::CloseAudio,
            CleanupStage::RemoveRoot,
            CleanupStage::RemoveRecord,
            CleanupStage::RemoveRetired,
        ]
    );
    assert_eq!(cleanup.order[0].path, FsPath::new("/r/usr/share"));
}

#[test]
fn what_stays_mounted_keeps_its_sources_and_its_root() {
    let root = FsPath::new("/r");
    let mut cleanup = Cleanup::start(&root, vec![owned("/r/usr")]);
    cleanup.next(None);
    cleanup.next(None);
    assert_eq!(cleanup.stage, CleanupStage::Unmount(0));
    cleanup.next(Some("busy".into()));
    assert_eq!(cleanup.stage, CleanupStage::CloseAudio);
    cleanup.next(None);
    assert_eq!(cleanup.stage, CleanupStage::Failed);
    assert_eq!(cleanup.remaining.len(), 1);
    assert_eq!(cleanup.failure(), "cleanup failed:\nbusy");
}

#[test]
fn a_mount_outside_the_sandbox_is_refused_after_processes_and_portal() {
    let root = FsPath::new("/r");
    let mut foreign = Cleanup::start(&root, vec![owned("/other/usr")]);
    assert!(foreign.errors.is_empty());
    foreign.next(Some("still running".into()));
    foreign.next(Some("portal".into()));
    assert_eq!(foreign.errors.len(), 3);
    assert_eq!(foreign.errors[0], "still running");
    assert_eq!(foreign.errors[1], "portal");
    assert!(foreign.errors[2].contains("/other/usr"));
    assert_eq!(foreign.stage, CleanupStage::CloseAudio);
    foreign.next(None);
    assert_eq!(foreign.stage, CleanupStage::Failed);
    assert_eq!(foreign.remaining.len(), 1);
    assert!(foreign
        .failure()
        .starts_with("cleanup failed:\nstill running\nportal\n"));
}

#[test]
fn what_cannot_be_removed_is_told_as_it_is() {
    let root = FsPath::new("/r");
    let mut cleanup = Cleanup::start(&root, Vec::new());
    while cleanup.stage != CleanupStage::RemoveRoot {
        cleanup.next(None);
    }
    cleanup.next(Some("remove /r: busy".into()));
    assert_eq!(cleanup.stage, CleanupStage::RemovalFailed);
    assert_eq!(cleanup.failure(), "remove /r: busy");
    cleanup.next(None);
    assert_eq!(cleanup.stage, CleanupStage::RemovalFailed);
}

#[test]
fn x11_socket_access_follows_flatpak_metadata() {
    assert!(app_requests_socket(
        "[Context]\nsockets=wayland;x11;pulseaudio;\n",
        "x11"
    ));
    assert!(!app_requests_socket(
        "[Context]\nsockets=wayland;pulseaudio;\n",
        "x11"
    ));
}

#[test]
fn a_platform_is_chosen_by_an_argument() {
    assert!(has_ozone_platform_arg(&["--ozone-platform=x11".to_string()]));
    assert!(has_ozone_platform_arg(&["a".to_string(), "--ozone-platform".to_string()]));
    assert!(!has_ozone_platform_arg(&["--ozone-platforms".to_string()]));
}
