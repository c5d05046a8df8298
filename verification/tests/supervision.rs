use freebsd_flatpak::mount_operations::OwnedMount;
use freebsd_flatpak::mount_policy::{
    admits_mount_caller, check_document_filesystem, check_instance_gone, filesystem_name, mounted_filesystem_named, nmount_nullfs, nmount_special, sandbox_runtime_root,
    tmpfs_base_options, validate_orphaned_document_mountpoint, validate_sandbox_owner,
    ChrootsFacts,
};
use freebsd_flatpak::mount_target::{
    check_place_kind, mount_place, protect_regular_file_parent, PlaceError, Protection,
};
use freebsd_flatpak::nested_client::{
    account_groups, group_list_step, is_safe_daemon_directory, run_nested_client,
    run_nested_daemon, ClientRefusal, GroupList,
};
use freebsd_flatpak::launch_request::JailMode;
use freebsd_flatpak::mount_commands::{
    recover_orphaned_document_unmount_command, special_command, tmpfs_command,
};
use freebsd_flatpak::path::FsPath;
use freebsd_flatpak::process_signals::Signal;
use freebsd_flatpak::process_supervision::{
    force_stop_launcher, is_reaped, subtree_for_descendant, subtree_pids, subtree_root_runs,
    terminate_with_signal_mode, wait_for_exit_with_signal, Descendant, ExitWait, ForceStopResult,
    ForceStopStep, LauncherReply, Sighting, Termination, TerminationAction, WaitAction,
};
use freebsd_flatpak::secure_mount::SpecialKind;
use freebsd_flatpak::spawn_broker::{
    spawn_in_existing_sandbox, spawn_launch_request, SandboxExecutionContext, SpawnRefusal,
};
use freebsd_flatpak::spawn_protocol::{control_fds, SpawnRequest};
use freebsd_flatpak::unmounting::{
    recover_orphaned_document_mount, recovery_failure, OrphanUnmount,
};

#[test]
fn a_launcher_is_signalled_only_while_it_is_the_one_that_was_meant() {
    assert_eq!(
        force_stop_launcher(false, None, None, None),
        ForceStopStep::Finished(ForceStopResult::Stale)
    );
    let present = Some(LauncherReply::Present { reaper: true });
    assert_eq!(
        force_stop_launcher(true, None, None, None),
        ForceStopStep::Inspect
    );
    assert_eq!(
        force_stop_launcher(true, present, None, None),
        ForceStopStep::CheckIdentityAgain
    );
    assert_eq!(
        force_stop_launcher(true, present, Some(true), None),
        ForceStopStep::Signal
    );
    assert_eq!(
        force_stop_launcher(true, present, Some(true), present),
        ForceStopStep::Finished(ForceStopResult::Signaled)
    );
    assert_eq!(
        force_stop_launcher(true, Some(LauncherReply::Gone), None, None),
        ForceStopStep::Finished(ForceStopResult::Exited)
    );
}

#[test]
fn a_program_that_outlives_its_time_is_killed() {
    let seen = |now, status| Sighting {
        status,
        processes_remain: true,
        requested: Some(Signal::Terminate),
        now,
    };
    let wait = ExitWait {
        status: None,
        termination: None,
    };
    let (wait, action) = wait_for_exit_with_signal(wait, seen(100, None));
    assert_eq!(action, WaitAction::SignalAndPause(Signal::Terminate));
    let (wait, _) = wait_for_exit_with_signal(wait, seen(2100, Some(3)));
    let (wait, action) = wait_for_exit_with_signal(wait, seen(2200, None));
    assert_eq!(action, WaitAction::SignalAndPause(Signal::Kill));
    let gone = Sighting {
        processes_remain: false,
        ..seen(2300, None)
    };
    assert_eq!(wait_for_exit_with_signal(wait, gone).1, WaitAction::Ended(3));
}

#[test]
fn a_subtree_is_asked_before_it_is_killed() {
    let first = Termination {
        signal: Signal::Interrupt,
        deadline: 10,
        last: false,
    };
    assert_eq!(
        terminate_with_signal_mode(first, true, 5).1,
        TerminationAction::SignalAndPause(Signal::Interrupt)
    );
    let (second, action) = terminate_with_signal_mode(first, true, 10);
    assert_eq!(action, TerminationAction::SignalAndLook(Signal::Interrupt));
    assert_eq!(second.signal, Signal::Kill);
    assert_eq!(
        terminate_with_signal_mode(second, true, second.deadline).1,
        TerminationAction::SignalAndGiveUp(Signal::Kill)
    );
    assert_eq!(
        terminate_with_signal_mode(first, false, 5).1,
        TerminationAction::Ended
    );
}

#[test]
fn descendants_belong_to_subtrees() {
    let processes = [
        Descendant { pid: 5, subtree: 5 },
        Descendant { pid: 6, subtree: 5 },
        Descendant { pid: 9, subtree: 8 },
    ];
    assert_eq!(subtree_for_descendant(&processes, 6), Some(5));
    assert_eq!(subtree_for_descendant(&processes, 7), None);
    assert!(subtree_root_runs(&processes, 5));
    assert!(!subtree_root_runs(&processes, 8));
    assert_eq!(subtree_pids(&processes, 5), vec![5, 6]);
    assert!(!is_reaped(5, 5, false));
    assert!(is_reaped(6, 5, false));
}

#[test]
fn orphaned_documents_are_forced_only_while_they_are_mounted() {
    let again = recover_orphaned_document_mount(OrphanUnmount::Try, false);
    assert_eq!(again, OrphanUnmount::LookAgain);
    assert_eq!(
        recover_orphaned_document_mount(again, false),
        OrphanUnmount::Done
    );
    let force = recover_orphaned_document_mount(again, true);
    assert_eq!(force, OrphanUnmount::TryForce);
    assert_eq!(
        recover_orphaned_document_mount(force, false),
        OrphanUnmount::Failed
    );
    assert_eq!(recovery_failure(&[]), None);
    assert_eq!(
        recovery_failure(&["a".to_string(), "b".to_string()]).unwrap(),
        "stale mount recovery failed:\na\nb"
    );
}

#[test]
fn the_place_of_a_mount_has_a_parent_and_a_name() {
    let place = mount_place(&FsPath::new("a/b/c")).unwrap();
    assert_eq!(place.parent, Some(FsPath::new("a/b")));
    assert_eq!(place.name, "c");
    assert_eq!(mount_place(&FsPath::new("c")).unwrap().parent, None);
    assert_eq!(
        mount_place(&FsPath::new("../c")).unwrap_err(),
        PlaceError::NotNormalized
    );
    assert_eq!(
        PlaceError::NotNormalized.message(),
        "mount target must be a non-empty normalized relative path"
    );
    assert!(mount_place(&FsPath::new("")).is_err());
    assert_eq!(
        check_place_kind(false, false).unwrap_err(),
        PlaceError::WrongKind
    );
    assert!(check_place_kind(false, true).is_ok());
}

#[test]
fn the_parent_of_a_file_is_locked_or_cannot_be_written_anyway() {
    let locking = protect_regular_file_parent(Protection::TakingOver, 0o777, true, false);
    assert_eq!(locking, Protection::Locking { mode: 0o555 });
    assert_eq!(
        protect_regular_file_parent(locking, 0o777, true, false),
        Protection::Locked
    );
    let restoring = protect_regular_file_parent(locking, 0o777, false, false);
    assert_eq!(
        protect_regular_file_parent(restoring, 0o777, true, false),
        Protection::Failed
    );
    let asking = protect_regular_file_parent(Protection::TakingOver, 0o777, false, true);
    assert_eq!(
        protect_regular_file_parent(asking, 0o777, true, false),
        Protection::ReadOnly
    );
}

#[test]
fn only_callers_without_rights_ask_for_nested_sandboxes() {
    assert_eq!(run_nested_client(0, None), Some(ClientRefusal::RootCaller));
    assert_eq!(
        run_nested_client(5, Some(JailMode::Direct)),
        Some(ClientRefusal::NotNested)
    );
    assert_eq!(run_nested_client(5, Some(JailMode::Sandbox)), None);
    assert!(run_nested_daemon(0, 0));
    assert!(!run_nested_daemon(0, 5));
    assert_eq!(group_list_step(0, 3), GroupList::Complete);
    assert_eq!(group_list_step(-1, 20), GroupList::Grow(20));
    assert_eq!(group_list_step(-1, 2000), GroupList::Invalid);
    assert_eq!(account_groups(&[1, 2], 3), vec![1, 2, 3]);
    assert!(is_safe_daemon_directory(0, 0o40755));
    assert!(!is_safe_daemon_directory(0, 0o40775));
    assert!(!is_safe_daemon_directory(5, 0o40755));
}

#[test]
fn the_mount_helper_serves_neither_root_nor_without_its_rights() {
    assert_eq!(
        admits_mount_caller(5, 5).unwrap_err().message(),
        "secure mount helper must run as root"
    );
    assert_eq!(
        admits_mount_caller(0, 0).unwrap_err().message(),
        "secure mount helper does not accept root callers"
    );
    assert!(admits_mount_caller(0, 5).is_ok());
    assert_eq!(
        check_instance_gone(true).unwrap_err().message(),
        "refusing recovery for an existing sandbox instance"
    );
    assert!(check_instance_gone(false).is_ok());
    assert_eq!(
        check_document_filesystem(b"tmpfs").unwrap_err().message(),
        "orphaned document mount is not nullfs"
    );
    assert!(check_document_filesystem(b"nullfs").is_ok());
}

fn context() -> SandboxExecutionContext {
    SandboxExecutionContext {
        app_id: "app.id".into(),
        root: FsPath::new("/run/chroots/app.id/i"),
        runtime_root: FsPath::new("/run"),
        uid: 1,
        gid: 2,
        supplementary_gids: vec![3],
        environment: vec![("A".into(), "1".into())],
        mounts: Vec::<OwnedMount>::new(),
        nested_mounts: Vec::new(),
    }
}

fn spawn(flags: u32, cwd: Option<&[u8]>) -> SpawnRequest {
    SpawnRequest {
        cwd: cwd.map(|text| text.to_vec()),
        flags,
        argv: vec![b"/bin/true".to_vec()],
        caller_pid: 9,
        environment: vec![(b"B".to_vec(), b"2".to_vec())],
        targets: vec![7],
    }
}

#[test]
fn a_program_is_spawned_with_the_environment_of_its_sandbox() {
    let plan = spawn_in_existing_sandbox(&context(), spawn(0, Some(b"/app"))).unwrap();
    assert_eq!(
        plan.environment,
        vec![
            ("A".to_string(), "1".to_string()),
            ("B".to_string(), "2".to_string())
        ]
    );
    assert!(!plan.nested_sandbox);
    let launch = spawn_launch_request(
        &context(),
        plan,
        b"/run/chroots/app.id/i".to_vec(),
        b"/run".to_vec(),
        1,
        2,
    );
    assert_eq!(launch.uid, 1);
    assert_eq!(launch.mapped_fds, vec![7]);
    let cleared = spawn_in_existing_sandbox(&context(), spawn(1, None)).unwrap();
    assert_eq!(
        cleared.environment,
        vec![("B".to_string(), "2".to_string())]
    );
    assert_eq!(
        spawn_in_existing_sandbox(&context(), spawn(0x80, None)).unwrap_err(),
        SpawnRefusal::UnsupportedFlags
    );
    assert_eq!(
        spawn_in_existing_sandbox(&context(), spawn(0, Some(b"app"))).unwrap_err(),
        SpawnRefusal::RelativeDirectory
    );
    assert_eq!(control_fds(0, 8), Some(2));
}

#[test]
fn mounts_are_made_only_for_the_owner_of_a_sandbox() {
    assert!(validate_sandbox_owner(5, 0o700, 5, true, 5, 5).is_none());
    assert!(validate_sandbox_owner(6, 0o700, 5, true, 5, 5).is_some());
    assert!(validate_sandbox_owner(5, 0o777, 5, true, 5, 5).is_some());
    assert_eq!(
        sandbox_runtime_root(&FsPath::new("/run/chroots/app/i")).unwrap(),
        FsPath::new("/run")
    );
    assert!(sandbox_runtime_root(&FsPath::new("/run/other/app/i")).is_err());
    let facts = ChrootsFacts {
        chroots: FsPath::new("/run/chroots"),
        runtime_uid: 5,
        runtime_mode: 0o700,
        chroots_uid: 5,
    };
    assert!(validate_orphaned_document_mountpoint(
        &facts,
        &FsPath::new("/run/chroots/app/i/run/user/5/doc/grant/file"),
        5
    )
    .is_ok());
    assert!(validate_orphaned_document_mountpoint(
        &facts,
        &FsPath::new("/run/chroots/app/i/usr"),
        5
    )
    .is_err());
}

#[test]
fn mount_requests_name_their_kind() {
    assert!(tmpfs_command(b"/r", (1, 2), b"tmp", "mode=0700").is_ok());
    assert!(special_command(b"/r", (1, 2), b"dev", "devfs", "devfs").is_ok());
    assert!(recover_orphaned_document_unmount_command(b"/c", (1, 2), b"/c/x", true).is_ok());
    assert!(recover_orphaned_document_unmount_command(b"/c", (1, 2), b"x", true).is_err());
    assert_eq!(nmount_nullfs(b"/src", b"name").len(), 4);
    assert!(!nmount_special(SpecialKind::Devfs).is_empty());
    assert!(!tmpfs_base_options().is_empty());
    assert!(filesystem_name(1, 2).contains('1'));
    assert_eq!(
        mounted_filesystem_named(&[b"/a".to_vec(), b"/b".to_vec()], b"/b"),
        Some(1)
    );
}
