use freebsd_flatpak::launch_request::{
    command, parse_groups, parse_jail_mode, parse_mapped_fds, split_environment,
    validate_environment, JailMode, LaunchRequest, Request, RequestError,
};
use freebsd_flatpak::nested_launch::{
    exit_from_wait_status, nested_payload, read_status, receive_nested_request, write_status,
    ClientExit,
};
use freebsd_flatpak::numbers::{parse_i32, parse_u32, parse_u64, render_i32, render_u64};
use freebsd_flatpak::order::{order_paths, order_texts, Relation};
use freebsd_flatpak::path::FsPath;
use freebsd_flatpak::process_signals::{handle_signal, requests_termination, Signal};
use freebsd_flatpak::process_supervision::{track, without_own, SandboxProcessSnapshot};
use freebsd_flatpak::secure_launch::{
    admits_caller, check_credentials, check_root_identity, create_nested_jail, is_valid_cwd,
    map_nested_fds, received_descriptor_count, serve_nested_request, validate_place, JailOutcome,
    LaunchRefusal, LaunchStep, RootFacts, Supervision, SupervisionAction, SupervisionEvent,
};
use freebsd_flatpak::text::{
    split_lines, split_text, split_text_at, split_words, trim_text, trim_text_end_of,
};

fn request() -> Request {
    Request {
        root: b"/run/chroots/app/i".to_vec(),
        runtime_root: b"/run".to_vec(),
        root_device: 1,
        root_inode: 2,
        uid: 1001,
        gid: 1001,
        groups: Vec::new(),
        cwd: None,
        jail_mode: JailMode::Direct,
        mapped_fds: Vec::new(),
        environment: vec![b"A=1".to_vec()],
        argv: vec![b"/bin/true".to_vec()],
    }
}

fn facts(root: &str) -> RootFacts {
    RootFacts {
        root: FsPath::new(root),
        runtime_root: FsPath::new("/run"),
        runtime_uid: 1001,
        runtime_mode: 0o700,
        root_device: 1,
        root_inode: 2,
        root_uid: 1001,
        info_uid: 1001,
        info_is_regular: true,
    }
}

#[test]
fn request_rejects_non_instance_roots() {
    let request = request();
    assert!(request
        .validate(1001, 1001, &[], &facts("/run/chroots/app/instance/extra"))
        .is_err());
    assert!(request
        .validate(1001, 1001, &[], &facts("/run/chroots/app/i"))
        .is_ok());
    assert!(request
        .validate(1002, 1001, &[], &facts("/run/chroots/app/i"))
        .is_err());
}

#[test]
fn the_launch_helper_serves_neither_root_nor_without_its_rights() {
    assert_eq!(
        admits_caller(5, 5).unwrap_err().message(),
        "secure launch helper must run set-user-ID root"
    );
    assert_eq!(
        admits_caller(0, 0).unwrap_err().message(),
        "secure launch helper does not accept root callers"
    );
    assert!(admits_caller(0, 5).is_ok());
    assert_eq!(
        check_root_identity((1, 3), 1, 2).unwrap_err().message(),
        "sandbox root changed while preparing secure launch"
    );
    assert!(check_root_identity((1, 2), 1, 2).is_ok());
    assert_eq!(
        check_credentials(0, 5, 5, 5).unwrap_err().message(),
        "secure launch could not drop privilege"
    );
    assert!(check_credentials(5, 6, 5, 6).is_ok());
}

#[test]
fn a_request_is_held_against_its_caller_before_its_root_is_looked_at() {
    let mut request = request();
    request.groups = vec![7];
    assert_eq!(
        request.validate_caller(1002, 1001, &[]),
        Err(LaunchRefusal::CredentialsMismatch)
    );
    assert_eq!(
        request.validate_caller(1001, 1001, &[]),
        Err(LaunchRefusal::GroupNotHeld)
    );
    assert_eq!(request.validate_caller(1001, 1001, &[7]), Ok(()));
    assert_eq!(
        request.validate_peer(1001, 1001, &[7]),
        Err(LaunchRefusal::DirectNotNested)
    );
    request.jail_mode = JailMode::Sandbox;
    assert_eq!(request.validate_peer(1001, 1001, &[7]), Ok(()));
    assert_eq!(
        validate_place(
            &FsPath::new("/elsewhere/app/i"),
            &FsPath::new("/run"),
            1001,
            0o700,
            1001
        ),
        Some(LaunchRefusal::RootOutsideChroots)
    );
    assert_eq!(
        validate_place(
            &FsPath::new("/run/chroots/app/i"),
            &FsPath::new("/run"),
            1001,
            0o755,
            1001
        ),
        Some(LaunchRefusal::RuntimeRootNotPrivate)
    );
}

#[test]
fn a_request_is_read_back_from_its_arguments() {
    let sent = request();
    let read = Request::parse(&sent.wire_arguments()).unwrap();
    assert_eq!(read.root, sent.root);
    assert_eq!(read.argv, sent.argv);
    assert_eq!(read.environment, sent.environment);
    assert_eq!(read.jail_mode, JailMode::Direct);
    assert!(Request::parse(&[]).is_err());
}

#[test]
fn fields_of_a_request_are_checked() {
    assert_eq!(parse_groups(b"1,2").unwrap(), vec![1, 2]);
    assert!(matches!(
        parse_groups(b"1,1"),
        Err(RequestError::DuplicateGroup)
    ));
    assert!(matches!(
        parse_groups(b"x"),
        Err(RequestError::InvalidGroup)
    ));
    assert!(matches!(
        parse_jail_mode(b"other"),
        Err(RequestError::InvalidMode)
    ));
    assert!(parse_mapped_fds(b"3,4").is_ok());
    assert!(parse_mapped_fds(b"3,3").is_err());
    assert!(validate_environment(b"A=1"));
    assert!(!validate_environment(b"=1"));
    assert_eq!(
        split_environment(b"A=1=2"),
        Some((b"A".to_vec(), b"1=2".to_vec()))
    );
}

#[test]
fn a_launch_becomes_a_command_of_the_helper() {
    let launch = LaunchRequest {
        root: b"/run/chroots/app/i".to_vec(),
        runtime_root: b"/run".to_vec(),
        root_device: 1,
        root_inode: 2,
        uid: 1,
        gid: 2,
        supplementary_gids: vec![3],
        mapped_fds: Vec::new(),
        cwd: Some(b"/app".to_vec()),
        nested_sandbox: false,
        no_network: false,
        environment: vec![("A".into(), "1".into())],
        argv: vec![b"/bin/true".to_vec()],
    };
    assert!(launch.has_valid_size());
    assert!(command(&launch).is_ok());
    let empty = LaunchRequest {
        argv: Vec::new(),
        ..launch
    };
    assert!(command(&empty).is_err());
}

#[test]
fn the_end_of_a_program_is_told_as_it_was() {
    assert_eq!(exit_from_wait_status(0), ClientExit::Code(0));
    assert_eq!(exit_from_wait_status(3 << 8), ClientExit::Code(3));
    assert_eq!(exit_from_wait_status(9), ClientExit::Signal(9));
    assert_eq!(exit_from_wait_status(0x80 | 11), ClientExit::Signal(11));
    assert_eq!(read_status(&write_status(0x0102_0304)), Some(0x0102_0304));
    assert_eq!(read_status(&[1, 2]), None);
}

#[test]
fn nested_requests_are_read_back() {
    let args = vec![b"one".to_vec(), Vec::new(), b"three".to_vec()];
    let payload = nested_payload(&args).unwrap();
    assert_eq!(receive_nested_request(&payload).unwrap(), args);
    assert!(receive_nested_request(&payload[..payload.len() - 1]).is_err());
}

#[test]
fn a_launch_gives_up_its_rights_before_the_program_runs() {
    let steps = request().execute_with_mappings(false);
    let place = |wanted: LaunchStep| steps.iter().position(|step| *step == wanted);
    assert!(place(LaunchStep::EnterChroot).unwrap() < place(LaunchStep::DropCredentials).unwrap());
    assert!(
        place(LaunchStep::DropCredentials).unwrap()
            < place(LaunchStep::CheckCredentials).unwrap()
    );
    assert_eq!(steps[0], LaunchStep::OpenRoot);
}

#[test]
fn a_nested_jail_is_supervised_until_its_end() {
    let (state, action) =
        serve_nested_request(Supervision::AwaitingJail, SupervisionEvent::Jail(7));
    assert_eq!(action, SupervisionAction::ClearPersistence { jail: 7 });
    let (state, action) = serve_nested_request(state, SupervisionEvent::Done);
    assert_eq!(action, SupervisionAction::Approve);
    let (state, _) = serve_nested_request(state, SupervisionEvent::Done);
    assert_eq!(state, Supervision::Waiting);
    assert_eq!(
        create_nested_jail(5, 6),
        JailOutcome::Created { jail: 5, owner: 6 }
    );
    assert_eq!(create_nested_jail(-1, 6), JailOutcome::Failed);
    assert_eq!(create_nested_jail(5, -1), JailOutcome::NoOwner);
}

#[test]
fn descriptors_are_counted_and_kept_apart() {
    assert_eq!(received_descriptor_count(8), Some(2));
    assert_eq!(received_descriptor_count(7), None);
    assert!(map_nested_fds(&[3, 9]) > 9);
    assert!(is_valid_cwd(b"/a/b"));
    assert!(!is_valid_cwd(b"/a/../b"));
    assert!(!is_valid_cwd(b"a"));
}

#[test]
fn signals_for_the_launcher_alone_are_not_passed_on() {
    assert!(handle_signal(Signal::Interrupt, 5));
    assert!(!handle_signal(Signal::Interrupt, 0));
    assert!(!handle_signal(Signal::Hangup, 5));
    assert!(requests_termination(Some(Signal::Terminate)));
    assert!(!requests_termination(None));
}

#[test]
fn a_listing_of_open_files_ties_processes_to_directories() {
    let line = |pid: &str, fd: &str, rest: &str, path: &str| {
        format!("{pid:>5} {:<19} {fd:>4} {rest:<29}{path}\n", "sh")
    };
    let listing = format!(
        "{:>5} {:<19} {:>4} {:<29}NAME\n{}{}",
        "PID",
        "COMM",
        "FD",
        "T V FLAGS    REF  OFFSET PRO",
        line("101", "cwd", "v d r-------", "/sandbox/a/work "),
        line("202", "3", "v r r-------", "/sandbox/a/file"),
    );
    let snapshot = SandboxProcessSnapshot::parse(&listing);
    assert!(snapshot.references_root(&FsPath::new("/sandbox/a")));
    assert!(!snapshot.references_root(&FsPath::new("/sandbox/b")));
    assert_eq!(
        snapshot.pids_referencing_root(&FsPath::new("/sandbox/a")),
        vec![101]
    );
    assert_eq!(without_own(vec![1, 2, 3], 2), vec![1, 3]);
    assert_eq!(track(7), Some(7));
    assert_eq!(track(u32::MAX), None);
}

#[test]
fn numbers_are_read_as_they_are_written() {
    assert_eq!(render_u64(0), "0");
    assert_eq!(render_u64(u64::MAX), u64::MAX.to_string());
    assert_eq!(render_i32(i32::MIN), i32::MIN.to_string());
    assert_eq!(parse_u64("18446744073709551615"), Some(u64::MAX));
    assert_eq!(parse_u64("18446744073709551616"), None);
    assert_eq!(parse_u32("+7"), Some(7));
    assert_eq!(parse_u32(""), None);
    assert_eq!(parse_i32("-2147483648"), Some(i32::MIN));
    assert_eq!(parse_i32("2147483648"), None);
}

#[test]
fn texts_are_taken_apart_as_std_takes_them_apart() {
    for text in ["", "a", "a\nb", "a\r\nb\n", "\n\n", "x\r"] {
        assert_eq!(split_lines(text), text.lines().collect::<Vec<_>>());
        assert_eq!(split_words(text), text.split_whitespace().collect::<Vec<_>>());
        assert_eq!(trim_text(text), text.trim());
    }
    for text in ["", ";", "a;b", ";a;;b;"] {
        assert_eq!(split_text(text, ';'), text.split(';').collect::<Vec<_>>());
    }
    assert_eq!(
        split_text_at("a on b on c", " on "),
        Some(("a".to_string(), "b on c".to_string()))
    );
    assert_eq!(split_text_at("abc", "x"), None);
    assert_eq!(trim_text_end_of("a))", ')'), "a");
}

#[test]
fn paths_are_taken_apart_as_std_takes_them_apart() {
    let texts = [
        "/", "", ".", "./a", "a/./b", "/a//b/", "..", "/../a", "a/..", "//x", "a/b/c",
    ];
    for left in texts {
        let ours = FsPath::new(left);
        let theirs = std::path::Path::new(left);
        assert_eq!(ours.is_absolute(), theirs.is_absolute());
        assert_eq!(
            ours.components(),
            theirs
                .components()
                .map(|part| part.as_os_str().to_str().unwrap().to_string())
                .collect::<Vec<_>>()
        );
        assert_eq!(
            ours.parent().map(|parent| parent.text),
            theirs
                .parent()
                .map(|parent| parent.to_str().unwrap().to_string())
        );
        assert_eq!(
            ours.file_name(),
            theirs
                .file_name()
                .map(|name| name.to_str().unwrap().to_string())
        );
        for right in texts {
            let other = FsPath::new(right);
            let std_other = std::path::Path::new(right);
            assert_eq!(ours == other, theirs == std_other);
            assert_eq!(ours.starts_with(&other), theirs.starts_with(std_other));
            assert_eq!(
                ours.join(right).text,
                theirs.join(right).to_str().unwrap()
            );
            assert_eq!(
                ours.strip_prefix(&other).map(|rest| rest.text),
                theirs
                    .strip_prefix(std_other)
                    .ok()
                    .map(|rest| rest.to_str().unwrap().to_string())
            );
            let order = match theirs.cmp(std_other) {
                std::cmp::Ordering::Less => Relation::Before,
                std::cmp::Ordering::Equal => Relation::Same,
                std::cmp::Ordering::Greater => Relation::After,
            };
            assert_eq!(order_paths(&ours, &other), order);
            let order = match left.cmp(right) {
                std::cmp::Ordering::Less => Relation::Before,
                std::cmp::Ordering::Equal => Relation::Same,
                std::cmp::Ordering::Greater => Relation::After,
            };
            assert_eq!(order_texts(left, right), order);
        }
    }
}
