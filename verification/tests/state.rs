use freebsd_flatpak::deployments::{
    checkout_ref, deployment_marker, list_apps, list_runtime_deployments, list_runtimes,
    pinned_deployment_for_app, runtime_deployment_from_path,
};
use freebsd_flatpak::flatpak_installation::{
    invalid_app_id_message, FlatpakInstallationProjection, ProjectionError,
};
use freebsd_flatpak::installation::{Installation, PathError};
use freebsd_flatpak::path::FsPath;
use freebsd_flatpak::retired_deployments::{
    absolute, cleanup_retired_deployments, protected_deployments, reconcile_runtime_bindings,
    remove_managed_path, runtime_is_required, safe_remove_dir, DeploymentEntry, DeploymentFamily,
};
use freebsd_flatpak::run_records::{
    app_from_run_record, export_record_path, read_export_record, read_run_record,
    run_record_path, write_export_record, write_nested_run_record, write_pinned_run_record,
    write_pinned_run_record_with_extensions, write_run_record,
};
use freebsd_flatpak::stale_sandbox_recovery::ownership_record;
use freebsd_flatpak::state::{
    app_record_path, ensure_layout, get_app, get_runtime, read_app, read_values, record_install,
    temporary_path, write_app, write_runtime, AppRecord, InstalledApp, RuntimeRecord, StateError,
    StateFile, StateValues, StateWrite,
};

fn paths() -> Installation {
    Installation::below(&FsPath::new("/base"))
}

fn app(paths: &Installation, app_commit: &str, runtime_commit: &str) -> AppRecord {
    AppRecord {
        app_id: "org.example.App".to_string(),
        app_ref: "app/org.example.App/x86_64/stable".to_string(),
        app_commit: app_commit.to_string(),
        app_dir: paths
            .relative_data_path(&paths.app("org.example.App").join(app_commit))
            .unwrap(),
        arch: "x86_64".to_string(),
        branch: "stable".to_string(),
        runtime_ref: "org.example.Platform/x86_64/stable".to_string(),
        runtime_commit: runtime_commit.to_string(),
        runtime_dir: paths
            .relative_data_path(
                &paths
                    .runtimes()
                    .join("org.example.Platform-stable")
                    .join(runtime_commit),
            )
            .unwrap(),
        command: "example".to_string(),
    }
}

fn run(paths: &Installation, instance: &str, app: &AppRecord) -> StateValues {
    let write = write_pinned_run_record(
        paths,
        instance,
        &paths.chroots().join(instance),
        100,
        101,
        app,
    )
    .unwrap();
    read_run_record(&write.text, &write.path).unwrap()
}

fn families(paths: &Installation, deployments: &[&AppRecord]) -> Vec<DeploymentFamily> {
    let entry = |path: FsPath| DeploymentEntry {
        path,
        is_directory: true,
        has_marker: true,
    };
    vec![
        DeploymentFamily {
            path: paths.app("org.example.App"),
            has_marker: false,
            entries: deployments
                .iter()
                .map(|app| entry(absolute(paths, &app.app_dir)))
                .collect(),
        },
        DeploymentFamily {
            path: paths.runtimes().join("org.example.Platform-stable"),
            has_marker: false,
            entries: deployments
                .iter()
                .map(|app| entry(absolute(paths, &app.runtime_dir)))
                .collect(),
        },
    ]
}

#[test]
fn concurrent_run_records_are_distinct_and_cleanup_is_isolated() {
    let paths = paths();
    let second_root = paths.chroots().join("org.example.App/second");
    let first = write_run_record(
        &paths,
        "org.example.App",
        "first",
        &paths.chroots().join("org.example.App/first"),
        100,
        101,
    )
    .unwrap();
    let second = write_run_record(
        &paths,
        "org.example.App",
        "second",
        &second_root,
        200,
        201,
    )
    .unwrap();

    assert_ne!(first.path, second.path);
    let remaining = read_run_record(&second.text, &second.path).unwrap();
    assert_eq!(remaining.get("instance_id").as_deref(), Some("second"));
    assert_eq!(
        remaining.get("root").as_deref(),
        Some(second_root.as_str())
    );
    assert_eq!(
        remaining.get("_path").as_deref(),
        Some(second.path.as_str())
    );
}

#[test]
fn multiple_pinned_generations_retire_after_their_last_run() {
    let paths = paths();
    let first = app(&paths, "app-a", "runtime-1");
    let second = app(&paths, "app-b", "runtime-2");
    let current = app(&paths, "app-c", "runtime-3");
    let families = families(&paths, &[&first, &second, &current]);
    let runtimes = [RuntimeRecord {
        runtime_ref: current.runtime_ref.clone(),
        runtime_commit: current.runtime_commit.clone(),
        runtime_dir: current.runtime_dir.clone(),
    }];
    let cleanup = |runs: &[StateValues]| {
        let used = protected_deployments(
            &paths,
            std::slice::from_ref(&current),
            &runtimes,
            runs,
        );
        cleanup_retired_deployments(&families, &used).retired
    };

    let both = [
        run(&paths, "first", &first),
        run(&paths, "second", &second),
    ];
    assert!(cleanup(&both).is_empty());
    let gone = cleanup(&both[1..]);
    assert_eq!(
        gone,
        vec![
            absolute(&paths, &first.app_dir),
            absolute(&paths, &first.runtime_dir)
        ]
    );
    assert_eq!(cleanup(&[]).len(), 4);
    assert!(!cleanup(&[]).contains(&absolute(&paths, &current.app_dir)));
}

#[test]
fn recovery_reclaims_generations_after_stale_pin_is_removed() {
    let paths = paths();
    let retired = app(&paths, "app-old", "runtime-old");
    let families = families(&paths, &[&retired]);
    let pinned = [run(&paths, "crashed", &retired)];
    let used = protected_deployments(&paths, &[], &[], &pinned);
    assert!(cleanup_retired_deployments(&families, &used)
        .retired
        .is_empty());
    assert_eq!(
        cleanup_retired_deployments(&families, &[]).retired.len(),
        2
    );
}

#[test]
fn shared_runtime_activation_updates_every_future_launch_record() {
    let paths = paths();
    let first = app(&paths, "app-one", "runtime-1");
    let mut second = app(&paths, "app-two", "runtime-1");
    second.app_id = "org.example.Other".to_string();
    let new_runtime_dir = paths
        .runtimes()
        .join("org.example.Platform-stable/runtime-2");
    let current = || {
        Some(RuntimeRecord {
            runtime_ref: first.runtime_ref.clone(),
            runtime_commit: "runtime-2".to_string(),
            runtime_dir: paths.relative_data_path(&new_runtime_dir).unwrap(),
        })
    };
    let changed = reconcile_runtime_bindings(
        &[first.clone(), second.clone()],
        &[current(), current()],
    );
    assert_eq!(changed.len(), 2);
    assert_eq!(changed[0].runtime_commit, "runtime-2");
    assert_eq!(changed[1].runtime_commit, "runtime-2");
    assert_eq!(absolute(&paths, &changed[0].runtime_dir), new_runtime_dir);
    assert_eq!(changed[0].runtime_dir, changed[1].runtime_dir);
    assert!(reconcile_runtime_bindings(&changed[..1], &[current()]).is_empty());
    assert!(reconcile_runtime_bindings(&[first], &[None]).is_empty());
}

#[test]
fn projection_publishes_active_flatpak_layout_without_touching_data_home() {
    let paths = paths();
    let checkout = paths.app("org.example.App").join("commit");
    let record = app(&paths, "commit", "runtime");
    let sandbox = FsPath::new("/base/sandbox");
    let projection =
        FlatpakInstallationProjection::prepare(&sandbox, &paths, &[record.clone()]).unwrap();
    let expected_root = paths.data_home.join("flatpak/app");
    assert_eq!(
        projection.target_root,
        expected_root.strip_prefix(&FsPath::new("/")).unwrap()
    );
    assert_eq!(projection.deployments.len(), 1);
    assert_eq!(projection.deployments[0].source, checkout);
    assert_eq!(
        projection.deployments[0].target,
        projection
            .target_root
            .join("org.example.App/current/active")
    );
    assert_eq!(
        projection.skeleton[1],
        projection
            .source_root
            .join("org.example.App/current/active")
    );
    let mut invalid = record;
    invalid.app_id = "a/b".into();
    assert!(matches!(
        FlatpakInstallationProjection::prepare(&sandbox, &paths, &[invalid]),
        Err(ProjectionError::InvalidAppId(_))
    ));
    let mut relative = paths;
    relative.data_home = FsPath::new("share");
    assert!(matches!(
        FlatpakInstallationProjection::prepare(&sandbox, &relative, &[]),
        Err(ProjectionError::RelativeDataHome(_))
    ));
}

#[test]
fn a_record_is_read_back_as_it_was_written() {
    let paths = paths();
    let record = app(&paths, "a", "r");
    let write = write_app(&paths, &record).unwrap();
    assert_eq!(
        write.path,
        FsPath::new("/base/data/refs/apps/org.example.App.ini")
    );
    assert!(write.text.starts_with("app_id=org.example.App\napp_ref="));
    let read = read_app(&write.text, &write.path).unwrap();
    assert_eq!(read.command, record.command);
    assert_eq!(read.app_dir, record.app_dir);
    assert_eq!(
        get_app(&paths, "org.example.App", Some(&write.text))
            .unwrap()
            .app_commit,
        "a"
    );
    let runtime = RuntimeRecord {
        runtime_ref: "p/x/1".into(),
        runtime_commit: "c".into(),
        runtime_dir: FsPath::new("runtimes/p"),
    };
    let write = write_runtime(&paths, &runtime);
    assert_eq!(
        write.path,
        FsPath::new("/base/data/refs/runtimes/p_x_1.ini")
    );
    assert_eq!(
        get_runtime(&paths, "p/x/1", Some(&write.text))
            .unwrap()
            .unwrap()
            .runtime_ref,
        "p/x/1"
    );
    assert!(get_runtime(&paths, "p/x/1", None).unwrap().is_none());
    assert_eq!(
        get_runtime(&paths, "p/x/1", Some("broken"))
            .unwrap_err()
            .message(),
        "invalid state line in /base/data/refs/runtimes/p_x_1.ini: broken"
    );
}

#[test]
fn records_that_cannot_be_read_are_refused() {
    let paths = paths();
    let file = FsPath::new("/base/data/x.ini");
    let invalid = read_values("# remark\n\nkey\n", &file).unwrap_err();
    assert!(matches!(
        &invalid,
        StateError::InvalidLine(path, line) if *path == file && line == "key"
    ));
    assert_eq!(
        invalid.message(),
        "invalid state line in /base/data/x.ini: key"
    );
    assert!(matches!(
        read_app("app_id=a\n", &file),
        Err(StateError::Missing(key)) if key == "app_ref"
    ));
    assert!(matches!(
        get_app(&paths, "a/b", None),
        Err(StateError::InvalidName(_))
    ));
    let missing = get_app(&paths, "a", None).unwrap_err();
    assert_eq!(missing.message(), "a is not installed");
    assert!(app_record_path(&paths, "a/b").is_err());
    assert_eq!(
        read_values("k=1\nk=2=3\n", &file)
            .unwrap()
            .get("k")
            .as_deref(),
        Some("2=3")
    );
}

#[test]
fn an_installation_writes_the_runtime_before_the_application() {
    let paths = paths();
    let installed = |app_id: &str, app_dir: FsPath| InstalledApp {
        app_id: app_id.into(),
        app_ref: "app/a/x/1".into(),
        app_commit: "c".into(),
        app_dir,
        arch: "x".into(),
        branch: "1".into(),
        runtime_ref: "p/x/1".into(),
        runtime_commit: "rc".into(),
        runtime_dir: paths.runtimes().join("p/rc"),
        command: "cmd".into(),
    };
    let outcome = record_install(&paths, &installed("a", paths.app("a").join("c")));
    assert_eq!(outcome.writes.len(), 2);
    assert!(outcome.writes[0].path.as_str().contains("/runtimes/"));
    assert_eq!(
        outcome.record.unwrap().app_dir,
        FsPath::new("apps/a/c")
    );
    let outcome = record_install(&paths, &installed("a", FsPath::new("/elsewhere")));
    assert!(outcome.writes.is_empty());
    assert!(matches!(
        outcome.record,
        Err(StateError::OutsideDataRoot(_))
    ));
    let outcome = record_install(&paths, &installed("a/b", paths.app("a").join("c")));
    assert_eq!(outcome.writes.len(), 1);
    assert!(matches!(outcome.record, Err(StateError::InvalidName(_))));
}

#[test]
fn white_space_at_the_end_of_a_value_is_lost_and_nothing_else() {
    let paths = paths();
    let mut pinned = app(&paths, "a", "r");
    pinned.command = "run \t".into();
    let write = write_pinned_run_record_with_extensions(
        &paths,
        "one",
        &FsPath::new("/root \r"),
        1,
        2,
        &pinned,
        &[],
    )
    .unwrap();
    let values = read_run_record(&write.text, &write.path).unwrap();
    assert_eq!(values.get("root").as_deref(), Some("/root"));
    assert_eq!(values.get("command").as_deref(), Some("run"));
    assert_eq!(values.get("instance_id").as_deref(), Some("one"));
    assert_eq!(values.get("app_commit").as_deref(), Some("a"));
    assert_eq!(values.get("extension_refs"), None);
    let broken = write_run_record(&paths, "a", "one", &FsPath::new("/x\ny"), 1, 2).unwrap();
    assert!(read_run_record(&broken.text, &broken.path).is_err());
    let beside = write_run_record(&paths, "a", "two", &FsPath::new("/z"), 1, 2).unwrap();
    assert!(broken.path != beside.path);
    let values = read_run_record(&beside.text, &beside.path).unwrap();
    assert_eq!(values.get("root").as_deref(), Some("/z"));
}

#[test]
fn run_records_tell_of_the_deployment_that_they_pin() {
    let paths = paths();
    let pinned = app(&paths, "a", "r");
    let write = write_pinned_run_record_with_extensions(
        &paths,
        "one",
        &FsPath::new("/root"),
        1,
        2,
        &pinned,
        &["x".to_string(), "y".to_string()],
    )
    .unwrap();
    assert_eq!(
        write.path,
        run_record_path(&paths, "org.example.App", "one").unwrap()
    );
    let values = read_run_record(&write.text, &write.path).unwrap();
    assert_eq!(values.get("extension_refs").as_deref(), Some("x;y"));
    assert_eq!(
        app_from_run_record(&paths, &values, None)
            .unwrap()
            .runtime_dir,
        pinned.runtime_dir
    );
    let plain = write_run_record(&paths, "org.example.App", "two", &FsPath::new("/r"), 1, 2)
        .unwrap();
    let values = read_values(&plain.text, &plain.path).unwrap();
    assert!(matches!(
        app_from_run_record(&paths, &values, None),
        Err(StateError::NotInstalled(_))
    ));
    let installed = write_app(&paths, &pinned).unwrap();
    assert_eq!(
        app_from_run_record(&paths, &values, Some(&installed.text))
            .unwrap()
            .app_commit,
        "a"
    );
    assert!(run_record_path(&paths, "a", "b/c").is_err());
}

#[test]
fn exports_are_read_back_without_remarks() {
    let paths = paths();
    let exported = [FsPath::new("/a/b.desktop"), FsPath::new("/c")];
    let write = write_export_record(&paths, "app", &exported).unwrap();
    assert_eq!(write.path, export_record_path(&paths, "app").unwrap());
    assert_eq!(read_export_record(Some(&write.text)), exported);
    assert_eq!(
        read_export_record(Some("# x\n\n /y \n")),
        vec![FsPath::new("/y")]
    );
    assert!(read_export_record(None).is_empty());
}

#[test]
fn deployments_are_known_by_their_marks() {
    let paths = paths();
    assert!(deployment_marker(None).unwrap().is_none());
    assert!(matches!(
        deployment_marker(Some("")),
        Err(StateError::MarkerWithoutRef)
    ));
    assert!(matches!(
        deployment_marker(Some("runtime/p\n")),
        Err(StateError::MarkerWithoutCommit)
    ));
    assert_eq!(
        checkout_ref(Some("app/a/x/1\nc\n")).unwrap().as_deref(),
        Some("app/a/x/1")
    );
    let record = app(&paths, "a", "r");
    let pinned = pinned_deployment_for_app(
        &paths,
        record,
        &FsPath::new("/elsewhere"),
        &paths.runtimes().join("p/2"),
        Some("app/new/x/1\nnew\n"),
        Some("runtime/p/x/2\nrc\n"),
    )
    .unwrap();
    assert_eq!(pinned.app_dir, FsPath::new("/elsewhere"));
    assert_eq!(pinned.app_ref, "app/new/x/1");
    assert_eq!(pinned.runtime_dir, FsPath::new("runtimes/p/2"));
    assert_eq!(pinned.runtime_ref, "p/x/2");
    let found = runtime_deployment_from_path(
        &paths,
        &paths.runtimes().join("p"),
        Some("runtime/p/x/2\nrc\n"),
    )
    .unwrap()
    .unwrap();
    assert_eq!(found.runtime_ref, "p/x/2");
    assert!(runtime_deployment_from_path(&paths, &paths.apps(), Some("app/a\nc\n"))
        .unwrap()
        .is_none());
    let listed = list_runtime_deployments(vec![found.clone(), found]);
    assert_eq!(listed.len(), 1);
}

#[test]
fn lists_are_put_in_order() {
    let paths = paths();
    let mut first = app(&paths, "a", "r");
    first.app_id = "b".into();
    let mut second = app(&paths, "a", "r");
    second.app_id = "a".into();
    let file = |write: StateWrite| StateFile {
        path: write.path,
        text: write.text,
    };
    let files = [
        file(write_app(&paths, &first).unwrap()),
        file(write_app(&paths, &second).unwrap()),
    ];
    let apps = list_apps(&files).unwrap();
    assert_eq!(apps[0].app_id, "a");
    let broken = StateFile {
        path: FsPath::new("/x.ini"),
        text: "broken".to_string(),
    };
    assert_eq!(
        list_apps(&[broken]).unwrap_err().message(),
        "invalid state line in /x.ini: broken"
    );
    let runtime = |name: &str| {
        file(write_runtime(
            &paths,
            &RuntimeRecord {
                runtime_ref: name.into(),
                runtime_commit: "c".into(),
                runtime_dir: FsPath::new("d"),
            },
        ))
    };
    assert_eq!(
        list_runtimes(&[runtime("z"), runtime("y")]).unwrap()[0].runtime_ref,
        "y"
    );
    assert!(runtime_is_required(&apps, &[], &first.runtime_ref));
    assert!(runtime_is_required(
        &[],
        &["[Application]\nruntime=p/x/1\n".to_string()],
        "p/x/1"
    ));
    assert!(!runtime_is_required(&apps, &[], "other"));
    assert_eq!(ensure_layout(&paths).len(), 3);
}

#[test]
fn a_superseded_checkout_loses_its_payload_and_keeps_its_generations() {
    let entry = |path: &str, is_directory, has_marker| DeploymentEntry {
        path: FsPath::new(path),
        is_directory,
        has_marker,
    };
    let family = DeploymentFamily {
        path: FsPath::new("/d/f"),
        has_marker: true,
        entries: vec![
            entry("/d/f/files", true, false),
            entry("/d/f/new", true, true),
            entry("/d/f/.ostree-commit", false, false),
        ],
    };
    let outcome = cleanup_retired_deployments(&[family], &[FsPath::new("/d/f/new")]);
    assert_eq!(
        outcome.removals,
        vec![FsPath::new("/d/f/files"), FsPath::new("/d/f/.ostree-commit")]
    );
    assert_eq!(outcome.retired, vec![FsPath::new("/d/f")]);
}

#[test]
fn only_managed_paths_are_removed() {
    let paths = paths();
    let deployment = paths.app("a").join("c");
    assert_eq!(
        safe_remove_dir(&paths, &FsPath::new("apps/a/c"), true).unwrap(),
        Some(deployment.clone())
    );
    assert_eq!(safe_remove_dir(&paths, &deployment, false).unwrap(), None);
    assert!(safe_remove_dir(&paths, &paths.apps(), true).is_err());
    assert!(safe_remove_dir(&paths, &FsPath::new("/etc"), true)
        .unwrap_err()
        .message()
        .ends_with(": /etc"));
    assert!(safe_remove_dir(&paths, &paths.chroots().join("x"), true).is_ok());
    let unmanaged = paths.chroots().join("x");
    assert_eq!(
        remove_managed_path(&paths, &unmanaged)
            .unwrap_err()
            .message(),
        format!("refusing to remove unmanaged path: {}", unmanaged.as_str())
    );
    assert_eq!(
        safe_remove_dir(&paths, &FsPath::new("/etc"), true)
            .unwrap_err()
            .message(),
        "refusing to remove path outside managed runtime data: /etc"
    );
    assert!(remove_managed_path(&paths, &deployment).is_ok());
}

#[test]
fn files_are_written_beside_their_place() {
    assert_eq!(
        temporary_path(&FsPath::new("/a/b.ini"), 12, 3),
        FsPath::new("/a/.b.ini.12.3.tmp")
    );
}

#[test]
fn user_installations_follow_the_directories_of_the_user() {
    let home = FsPath::new("/home/u");
    let paths = Installation::for_user(
        home.clone(),
        None,
        Some(FsPath::new("")),
        FsPath::new("/run/user/1"),
    );
    assert_eq!(
        paths.data_root,
        FsPath::new("/home/u/.local/share/freebsd-flatpak")
    );
    assert_eq!(
        paths.cache_root,
        FsPath::new("/home/u/.cache/freebsd-flatpak")
    );
    assert_eq!(
        paths.runtime_root,
        FsPath::new("/run/user/1/freebsd-flatpak")
    );
    assert_eq!(
        paths.app_data("a").unwrap(),
        FsPath::new("/home/u/.var/app/a")
    );
    assert!(matches!(
        paths.app_data(""),
        Err(PathError::InvalidAppId(_))
    ));
    assert!(matches!(
        paths.relative_data_path(&FsPath::new("/x")),
        Err(PathError::OutsideDataRoot(_))
    ));
}

#[test]
fn a_refused_application_id_is_shown_with_escapes() {
    assert_eq!(
        ProjectionError::InvalidAppId("a/\"b\"\n".to_string()).message(),
        "invalid installed application id: \"a/\\\"b\\\"\\n\""
    );
    assert_eq!(
        ProjectionError::InvalidAppId(String::new()).message(),
        "invalid installed application id: \"\""
    );
    assert_eq!(
        invalid_app_id_message("\"a\""),
        "invalid installed application id: \"a\""
    );
}

#[test]
fn a_nested_sandbox_is_written_down_with_its_parent() {
    let paths = paths();
    let parent = paths.chroots().join("org.example.App/one");
    let root = paths.chroots().join("org.example.App/one-nested-7-1");
    let write = write_nested_run_record(
        &paths,
        "org.example.App",
        "one-nested-7-1",
        &root,
        &parent,
        77,
    )
    .unwrap();
    assert_eq!(
        write.path,
        run_record_path(&paths, "org.example.App", "one-nested-7-1").unwrap()
    );
    let values = read_run_record(&write.text, &write.path).unwrap();
    assert_eq!(values.get("app_id").unwrap(), "org.example.App");
    assert_eq!(values.get("instance_id").unwrap(), "one-nested-7-1");
    assert_eq!(values.get("launcher_pid").unwrap(), "77");
    let record = ownership_record(&values, true);
    assert_eq!(record.root.unwrap(), root);
    assert_eq!(record.parent_root.unwrap(), parent);
    assert_eq!(record.path.unwrap(), write.path);
    assert!(record.launcher_active);
    assert!(write_nested_run_record(&paths, "a/b", "one", &root, &parent, 1).is_err());
}

#[test]
fn a_pinned_record_names_processes_and_extensions() {
    let paths = paths();
    let root = paths.chroots().join("one");
    let pinned = app(&paths, "app-a", "runtime-a");
    let refs = ["runtime/a".to_string(), "runtime/b".to_string()];
    let write =
        write_pinned_run_record_with_extensions(&paths, "one", &root, 100, 101, &pinned, &refs)
            .unwrap();
    let values = read_run_record(&write.text, &write.path).unwrap();
    assert_eq!(values.get("root").unwrap(), root.as_str());
    assert_eq!(values.get("launcher_pid").unwrap(), "100");
    assert_eq!(values.get("child_pid").unwrap(), "101");
    assert_eq!(values.get("extension_refs").unwrap(), "runtime/a;runtime/b");
    let without = run(&paths, "one", &pinned);
    assert!(without.get("extension_refs").is_none());
}
