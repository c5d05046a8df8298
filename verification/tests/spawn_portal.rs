use freebsd_flatpak::broker_connection::{
    admits, cleanup_exited_watch_bus_owner, descriptor_test_answer, handle_connection,
    lifecycle_accepted, lifecycle_exited, lifecycle_step, open_connection, pong,
    resolve_watch_bus_owner, spawn_started_payload, spawn_started_relative_pid,
    spawn_termination_signal, wait_for_spawn_started, watch_bus_termination_requested,
    BrokerConnections, BusState, LifecycleStep, Opening, OwnerCleanup, ServedRequest,
    ServiceAction, ServiceEvent, Stage,
};
use freebsd_flatpak::chroot_instance::nested_mount_plan;
use freebsd_flatpak::installation::Installation;
use freebsd_flatpak::mount_operations::OwnedMount;
use freebsd_flatpak::path::FsPath;
use freebsd_flatpak::process_signals::Signal;
use freebsd_flatpak::spawn_broker::{
    broker_path, copy_unmounted_tree, is_internal_mount_staging, merge_environment,
    nested_instance, populate, restricted_flatpak_info, set_env, spawn_flags_supported, step_mount,
    CopyAction, EntryKind, NestedStep, SPAWN_EXPOSE_PIDS, SPAWN_NOTIFY_START,
};
use freebsd_flatpak::spawn_protocol::{
    frame, packet, parse_frame, parse_spawn, receive_packet, FD_OK, FD_TEST,
    LIFECYCLE_TEST_ACCEPTED, LIFECYCLE_TEST_EXITED, LIFECYCLE_TEST_START, PING, PONG,
    SPAWN_ACCEPTED, SPAWN_STARTED, SPAWN_TERMINATE,
};

#[test]
fn spawn_supports_exposed_pids_and_start_notification() {
    let nested_flags = 0x04 | SPAWN_EXPOSE_PIDS | SPAWN_NOTIFY_START;

    assert!(spawn_flags_supported(nested_flags));
    assert!(!spawn_flags_supported(1 << 7));
}

#[test]
fn spawn_started_maps_external_to_sandbox_pid() {
    let pid = 1234;
    let relative_pid = 5678;
    let payload = spawn_started_payload(pid, relative_pid);

    assert_eq!(u32::from_be_bytes(payload[..4].try_into().unwrap()), pid);
    assert_eq!(
        u32::from_be_bytes(payload[4..].try_into().unwrap()),
        relative_pid
    );
}

#[test]
fn notify_start_without_expose_pids_reports_zero_relpid() {
    assert_eq!(spawn_started_relative_pid(false, 5678), 0);
}

#[test]
fn expose_pids_reports_started_relative_pid() {
    assert_eq!(spawn_started_relative_pid(true, 5678), 5678);
}

#[test]
fn sandbox_mount_plan_drops_parent_extra_filesystem_grants() {
    let runtime = OwnedMount {
        path: FsPath::new("/sandbox/usr"),
        read_only: true,
    };
    let host_grant = OwnedMount {
        path: FsPath::new("/sandbox/home/user"),
        read_only: false,
    };

    assert_eq!(
        nested_mount_plan(
            &[runtime.clone(), host_grant.clone()],
            std::slice::from_ref(&host_grant.path),
        )
        .iter()
        .map(|mount| mount.path.as_str())
        .collect::<Vec<_>>(),
        vec![runtime.path.as_str()]
    );
}

#[test]
fn readiness_notification_is_required_before_spawn_started() {
    assert_eq!(wait_for_spawn_started(&5678u32.to_be_bytes()), Some(5678));
    assert_eq!(wait_for_spawn_started(&[]), None);
    assert_eq!(wait_for_spawn_started(&[0, 0, 1]), None);
}

#[test]
fn nested_spawn_metadata_marks_the_child_restricted() {
    let info = "[Application]\nname=org.example.App\n\n[Instance]\ninstance-id=one\n";
    let nested = restricted_flatpak_info(info);

    assert!(nested.contains("[Instance]\nsandbox=true\ninstance-id=one\n"));
    assert_eq!(restricted_flatpak_info(&nested), nested);
}

#[test]
fn nested_spawn_ignores_parent_staging_and_preserves_mountpoints() {
    assert!(is_internal_mount_staging(&FsPath::new(
        ".freebsd-flatpak-mount-sources"
    )));
    assert!(is_internal_mount_staging(&FsPath::new(
        ".freebsd-flatpak-mount-sources/0"
    )));
    assert!(!is_internal_mount_staging(&FsPath::new("home/regueiro")));

    let source = FsPath::new("/source");
    let mounts = [OwnedMount {
        path: source.join("usr"),
        read_only: true,
    }];
    assert_eq!(
        copy_unmounted_tree("usr", &source.join("usr"), EntryKind::Directory, &mounts),
        CopyAction::MakeDirectory { recurse: false }
    );
    assert_eq!(
        copy_unmounted_tree("etc", &source.join("etc"), EntryKind::Directory, &mounts),
        CopyAction::MakeDirectory { recurse: true }
    );
}

#[test]
fn accepted_notify_start_emits_started_even_when_pid_mapping_fails() {
    let setup = ServedRequest {
        request: 1,
        watch_bus: false,
        expose_pids: true,
    };
    let accepting = Stage::Tracking {
        pid: 1234,
        notify: true,
    };
    let (stage, action) = handle_connection(setup, accepting, ServiceEvent::Done);
    let ServiceAction::Send(sent) = action else {
        panic!("the start of the program is accepted first");
    };
    assert_eq!(parse_frame(&sent).unwrap(), (SPAWN_ACCEPTED, 1, 4, 0));
    let (stage, action) = handle_connection(setup, stage, ServiceEvent::Done);
    assert!(matches!(action, ServiceAction::AwaitStart));
    let (_, action) = handle_connection(setup, stage, ServiceEvent::Started { reported: None });
    let ServiceAction::Send(sent) = action else {
        panic!("the start of the program is told");
    };
    assert_eq!(parse_frame(&sent).unwrap(), (SPAWN_STARTED, 1, 8, 0));
    assert_eq!(u32::from_be_bytes(sent[20..24].try_into().unwrap()), 1234);
    assert_eq!(u32::from_be_bytes(sent[24..28].try_into().unwrap()), 0);
}

#[test]
fn watch_bus_termination_requires_the_matching_spawn_request() {
    let matching = BusState::Packet(frame(SPAWN_TERMINATE, 41, &[], 0), 0);
    assert!(watch_bus_termination_requested(&matching, 41));

    let other = BusState::Packet(frame(SPAWN_TERMINATE, 42, &[], 0), 0);
    assert!(!watch_bus_termination_requested(&other, 41));
}

#[test]
fn broker_shutdown_and_watch_bus_keep_their_original_signals() {
    assert_eq!(
        spawn_termination_signal(false, false, true),
        Some(Signal::Terminate)
    );
    let requested = watch_bus_termination_requested(
        &BusState::Packet(frame(SPAWN_TERMINATE, 1, &[], 0), 0),
        1,
    );
    assert_eq!(
        spawn_termination_signal(requested, true, false),
        Some(Signal::Interrupt)
    );
}

#[test]
fn watch_bus_spawn_requires_a_current_authenticated_owner() {
    let mut ordinary_resolved = false;
    assert_eq!(
        resolve_watch_bus_owner(false, 0, |_| {
            ordinary_resolved = true;
            Ok::<Option<u8>, String>(Some(1u8))
        })
        .unwrap(),
        None
    );
    assert!(!ordinary_resolved);

    assert!(resolve_watch_bus_owner(true, 0, |_| Ok::<Option<u8>, String>(Some(1))).is_err());
    assert!(resolve_watch_bus_owner(true, 41, |_| Ok::<Option<u8>, String>(None)).is_err());
    assert_eq!(
        resolve_watch_bus_owner(true, 41, |_| Ok::<Option<u8>, String>(Some(7u8))).unwrap(),
        Some(7)
    );
    assert!(
        resolve_watch_bus_owner(true, 41, |_| Err::<Option<u8>, String>("no".into())).is_err()
    );
}

#[test]
fn ping_has_no_fds() {
    let sent = frame(PING, 42, &[], 0);
    assert!(receive_packet(&sent, &[]));
    assert_eq!(parse_frame(&sent).unwrap().1, 42);
}

#[test]
fn fd_count_mismatch_rejects() {
    assert!(!receive_packet(&frame(PING, 1, &[], 0), &[5]));
}

#[test]
fn missing_fd_rejects() {
    assert!(!receive_packet(&frame(FD_TEST, 1, &[], 1), &[]));
}

#[test]
fn multiple_fds_reject_when_advertised_one() {
    assert!(!receive_packet(&frame(FD_TEST, 1, &[], 1), &[5, 6]));
    assert!(receive_packet(&frame(FD_TEST, 1, &[], 1), &[5]));
}

fn field(payload: &mut Vec<u8>, value: &[u8]) {
    payload.extend_from_slice(&(value.len() as u32).to_be_bytes());
    payload.extend_from_slice(value);
}

#[test]
fn spawn_payload_preserves_cwd_argv_and_environment_overrides() {
    let mut payload = Vec::new();
    field(&mut payload, b"/app");
    payload.extend_from_slice(&2u32.to_be_bytes());
    payload.extend_from_slice(&1u32.to_be_bytes());
    payload.extend_from_slice(&0u32.to_be_bytes());
    payload.extend_from_slice(&0u32.to_be_bytes());
    field(&mut payload, b"/usr/bin/env");
    field(&mut payload, b"marker");
    field(&mut payload, b"PATH");
    field(&mut payload, b"/custom/bin");
    payload.extend_from_slice(&1234u32.to_be_bytes());

    let request = parse_spawn(&payload, 0).unwrap();
    assert_eq!(request.cwd.as_deref(), Some(b"/app".as_slice()));
    assert_eq!(
        request.argv,
        vec![b"/usr/bin/env".to_vec(), b"marker".to_vec()]
    );
    assert_eq!(
        merge_environment(&[("PATH".into(), "/usr/bin".into())], &request.environment),
        Some(vec![("PATH".into(), "/custom/bin".into())])
    );
    assert_eq!(request.caller_pid, 1234);
}

#[test]
fn spawn_payload_rejects_duplicate_fd_targets() {
    let mut payload = Vec::new();
    payload.extend_from_slice(&0u32.to_be_bytes());
    payload.extend_from_slice(&1u32.to_be_bytes());
    payload.extend_from_slice(&0u32.to_be_bytes());
    payload.extend_from_slice(&0u32.to_be_bytes());
    payload.extend_from_slice(&2u32.to_be_bytes());
    payload.extend_from_slice(&1u32.to_be_bytes());
    payload.extend_from_slice(b"x");
    payload.extend_from_slice(&3u32.to_be_bytes());
    payload.extend_from_slice(&3u32.to_be_bytes());
    payload.extend_from_slice(&1234u32.to_be_bytes());
    assert!(parse_spawn(&payload, 2).is_err());
}

#[test]
fn lifecycle_messages_share_one_connection() {
    assert_eq!(
        open_connection(&frame(LIFECYCLE_TEST_START, 91, &[], 0), 0),
        Opening::LifecycleTest { request: 91 }
    );
    assert_eq!(
        parse_frame(&lifecycle_accepted(91)).unwrap(),
        (LIFECYCLE_TEST_ACCEPTED, 91, 4, 0)
    );
    assert_eq!(
        parse_frame(&lifecycle_exited(91)).unwrap(),
        (LIFECYCLE_TEST_EXITED, 91, 8, 0)
    );
}

#[test]
fn the_second_answer_is_sent_only_by_a_broker_that_goes_on() {
    assert_eq!(lifecycle_step(0, false), LifecycleStep::Wait);
    assert_eq!(lifecycle_step(49, false), LifecycleStep::Wait);
    assert_eq!(lifecycle_step(50, false), LifecycleStep::Send);
    assert_eq!(lifecycle_step(50, true), LifecycleStep::Close);
    assert_eq!(lifecycle_step(3, true), LifecycleStep::Close);
}

#[test]
fn a_mark_is_added_and_every_other_line_stays() {
    let info = "[Application]\nname=a\n[Instance]\nid=one\n[Instance]\n";
    assert_eq!(
        restricted_flatpak_info(info),
        "[Application]\nname=a\n[Instance]\nsandbox=true\nid=one\n[Instance]\n"
    );
    assert_eq!(
        restricted_flatpak_info("[Application]\r\nname=a"),
        "[Application]\nname=a\n[Instance]\nsandbox=true\n"
    );
    assert_eq!(restricted_flatpak_info(" sandbox=true"), " sandbox=true");
    assert_eq!(restricted_flatpak_info(""), "[Instance]\nsandbox=true\n");
}

#[test]
fn a_socket_is_named_after_its_instance() {
    let chroots = FsPath::new("/run/chroots");
    let brokers = FsPath::new("/run/brokers");
    let socket = |instance: &str| {
        broker_path(&chroots, &brokers, &chroots.join("app").join(instance))
            .unwrap()
            .as_str()
            .to_string()
    };
    assert_eq!(socket("one"), "/run/brokers/one.sock");
    assert_eq!(socket("one.two"), "/run/brokers/one.sock");
    assert_eq!(socket(".one"), "/run/brokers/.one.sock");
    assert_eq!(socket(".."), "/run/brokers/..");
}

#[test]
fn path_is_per_instance_and_outside_root() {
    let paths = Installation::below(&FsPath::new("/tmp/broker"));
    let a = paths.chroots().join("app.id/a");
    let b = paths.chroots().join("app.id/b");
    let brokers = paths.spawn_brokers();
    let first = broker_path(&paths.chroots(), &brokers, &a).unwrap();
    let second = broker_path(&paths.chroots(), &brokers, &b).unwrap();
    assert_ne!(first, second);
    assert!(!first.starts_with(&a));
    assert!(broker_path(&paths.chroots(), &brokers, &FsPath::new("/elsewhere/x")).is_err());
    assert!(broker_path(&paths.chroots(), &brokers, &a.join("deeper")).is_err());
}

#[test]
fn answers_name_the_request_that_they_answer() {
    assert_eq!(parse_frame(&pong(9)).unwrap(), (PONG, 9, 0, 0));
    assert_eq!(
        parse_frame(&descriptor_test_answer(7, Some(b'F')).unwrap()).unwrap(),
        (FD_OK, 7, 0, 0)
    );
    assert_eq!(descriptor_test_answer(7, Some(b'x')), None);
    assert_eq!(descriptor_test_answer(7, None), None);
}

#[test]
fn a_packet_holds_its_header_and_its_payload() {
    let bytes = packet(SPAWN_ACCEPTED, 3, &[1, 2, 3, 4]);
    assert_eq!(bytes.len(), 24);
    assert_eq!(parse_frame(&bytes).unwrap(), (SPAWN_ACCEPTED, 3, 4, 0));
    assert_eq!(parse_frame(&bytes[..19]), None);
}

#[test]
fn a_closed_broker_admits_nobody() {
    assert!(admits(false, 1, 2, 1, 2));
    assert!(!admits(true, 1, 2, 1, 2));
    assert!(!admits(false, 3, 2, 1, 2));
    let mut connections = BrokerConnections::new();
    connections.retain(5);
    connections.retain(6);
    connections.release(5);
    assert_eq!(connections.stop(), vec![6]);
    assert!(connections.stopping);
    let mut connections = BrokerConnections::new();
    for fd in [5, 6, 5, 7] {
        connections.retain(fd);
    }
    connections.release(5);
    assert_eq!(connections.retained, vec![7, 6, 5]);
    connections.release(9);
    assert_eq!(connections.retained, vec![7, 6, 5]);
}

#[test]
fn the_end_of_an_owner_is_settled_unless_something_is_left() {
    assert!(cleanup_exited_watch_bus_owner(OwnerCleanup::NoSubtree));
    assert!(!cleanup_exited_watch_bus_owner(OwnerCleanup::Finished(false)));
}

#[test]
fn nested_sandboxes_get_the_mounts_of_their_parent() {
    let parent = FsPath::new("/chroots/app/one");
    let nested = nested_instance(&parent, 12, 3).unwrap();
    assert_eq!(nested.instance_id, "one-nested-12-3");
    assert_eq!(nested.root, FsPath::new("/chroots/app/one-nested-12-3"));
    let steps = populate(
        &parent,
        &nested.root,
        vec![OwnedMount {
            path: parent.join("usr"),
            read_only: true,
        }],
    )
    .unwrap();
    assert_eq!(steps.len(), 3);
    assert!(matches!(
        &steps[0],
        NestedStep::Tmpfs { target, options }
            if *target == FsPath::new(".freebsd-flatpak-mount-sources") && options == "mode=0700"
    ));
    assert!(matches!(&steps[1], NestedStep::Stage { source, .. } if *source == parent.join("usr")));
    assert!(matches!(&steps[2], NestedStep::Clone { target, .. } if *target == FsPath::new("usr")));
    let staging = step_mount(&nested.root, &steps[0]);
    assert_eq!(
        staging.path,
        nested.root.join(".freebsd-flatpak-mount-sources")
    );
    assert!(!staging.read_only);
    assert!(step_mount(&nested.root, &steps[2]).read_only);
}

#[test]
fn setting_a_variable_replaces_the_first_of_its_name() {
    let mut env = vec![("A".to_string(), "1".to_string())];
    set_env(&mut env, "A".into(), "2".into());
    set_env(&mut env, "B".into(), "3".into());
    assert_eq!(
        env,
        vec![
            ("A".to_string(), "2".to_string()),
            ("B".to_string(), "3".to_string())
        ]
    );
    assert_eq!(merge_environment(&env, &[(vec![0xff], vec![])]), None);
}
