use freebsd_flatpak::installation::Installation;
use freebsd_flatpak::path::FsPath;
use freebsd_flatpak::process_signals::Signal;
use freebsd_flatpak::process_supervision::{
    start_sweep, terminate_processes_with, ProcessReference, SandboxProcessSnapshot, SweepAction,
};
use freebsd_flatpak::recovery_order::is_named;
use freebsd_flatpak::run_records::{read_run_record, write_run_record};
use freebsd_flatpak::stale_sandbox_recovery::{
    active_roots_from_records, active_sandbox_roots, app_has_mounts, belongs_to_any_root,
    chroot_root_for_mount, ensure_mountpoint_free, is_still_stale, launcher_pid, mount_infos,
    mount_points_under, mountpoint_is_read_only, order_sandbox_roots_for_recovery,
    ownership_record, records_of_root, recover_stale_mounts, sort_mountpoints_deepest_first,
    MountInfo, OwnershipRecord,
};
use freebsd_flatpak::state::read_values;
use freebsd_flatpak::unmounting::{
    is_orphaned_regular_document_mount, order_mounts_for_recovery, sandbox_mount_target,
    unmount_mountpoint_with, TargetError, Unmount,
};
use std::collections::{BTreeMap, BTreeSet};

/// Answers the questions of the unmount machine; returns the attempts (whether by force) and the
/// stage it ends in.
fn unmount(
    allow_force: bool,
    mut mounted: bool,
    attempt: impl Fn(bool) -> (bool, bool),
) -> (Vec<bool>, Unmount) {
    let mut attempts = Vec::new();
    let mut stage = Unmount::LookFirst;
    loop {
        let yes = match stage {
            Unmount::LookFirst
            | Unmount::LookAgain
            | Unmount::LookBeforeForce
            | Unmount::LookLast => mounted,
            Unmount::Try | Unmount::TryForce => {
                let force = stage == Unmount::TryForce;
                attempts.push(force);
                let (succeeded, still_mounted) = attempt(force);
                mounted = still_mounted;
                succeeded
            }
            Unmount::Done | Unmount::Failed | Unmount::ForceFailed => return (attempts, stage),
        };
        stage = unmount_mountpoint_with(stage, allow_force, yes);
    }
}

#[test]
fn already_gone_mount_cleanup_is_idempotent() {
    for _ in 0..2 {
        let (attempts, stage) = unmount(true, false, |_| (true, false));
        assert_eq!(attempts.len(), 0);
        assert_eq!(stage, Unmount::Done);
    }
}

#[test]
fn mount_disappearing_after_failed_unmount_is_not_retried_or_forced() {
    let (attempts, stage) = unmount(true, true, |_| (false, false));
    assert_eq!(attempts, vec![false]);
    assert_eq!(stage, Unmount::Done);
}

#[test]
fn force_unmount_requires_a_still_mounted_owned_path() {
    let (attempts, stage) = unmount(true, true, |force| (force, !force));
    assert_eq!(attempts.iter().filter(|force| !**force).count(), 1);
    assert_eq!(attempts.iter().filter(|force| **force).count(), 1);
    assert_eq!(stage, Unmount::Done);
}

#[test]
fn a_writable_mount_is_never_forced() {
    let (attempts, stage) = unmount(false, true, |_| (false, true));
    assert_eq!(attempts, vec![false]);
    assert_eq!(stage, Unmount::Failed);
    let (attempts, stage) = unmount(true, true, |_| (false, true));
    assert_eq!(attempts, vec![false, true]);
    assert_eq!(stage, Unmount::ForceFailed);
}

#[test]
fn active_instance_roots_exclude_only_their_own_mounts_from_recovery() {
    let first = FsPath::new("/chroots/org.example.App/first");
    let second = FsPath::new("/chroots/org.example.App/second");
    let other = FsPath::new("/chroots/org.example.Other/only");
    let active = vec![first.clone(), second.clone()];

    assert!(belongs_to_any_root(&first.join("usr"), &active));
    assert!(belongs_to_any_root(&second.join("proc"), &active));
    assert!(!belongs_to_any_root(&other.join("app"), &active));
}

fn snapshot(references: &[(i32, FsPath)]) -> SandboxProcessSnapshot {
    SandboxProcessSnapshot {
        references: references
            .iter()
            .map(|(pid, path)| ProcessReference {
                pid: *pid,
                path: path.clone(),
            })
            .collect(),
    }
}

fn record(root: &FsPath, parent: Option<&FsPath>, active: bool, path: &str) -> OwnershipRecord {
    OwnershipRecord {
        root: Some(root.clone()),
        parent_root: parent.cloned(),
        launcher_active: active,
        path: Some(FsPath::new(path)),
    }
}

#[test]
fn live_nested_root_is_skipped_by_startup_recovery() {
    let chroots = FsPath::new("/run/chroots");
    let parent = chroots.join("org.example.App/parent");
    let nested = chroots.join("org.example.App/parent-nested-1");
    let records = [
        record(&parent, None, true, "/runs/parent"),
        record(&nested, Some(&parent), true, "/runs/nested"),
    ];
    let none = snapshot(&[]);
    assert!(recover_stale_mounts(&chroots, &records, &[], &[], &none).is_empty());
    let active = active_sandbox_roots(
        &chroots,
        &records,
        &[],
        &[],
        &[parent.clone(), nested.clone()],
        &none,
    );
    assert!(belongs_to_any_root(&parent.join("usr"), &active));
    assert!(belongs_to_any_root(
        &nested.join(".freebsd-flatpak-mount-sources/0"),
        &active
    ));
}

#[test]
fn abandoned_nested_root_is_recovered_before_parent() {
    let chroots = FsPath::new("/run/chroots");
    let parent = chroots.join("org.example.App/parent");
    let nested = chroots.join("org.example.App/parent-nested-1");
    let records = [
        record(&parent, None, false, "/runs/parent"),
        record(&nested, Some(&parent), false, "/runs/nested"),
    ];
    let none = snapshot(&[]);
    assert_eq!(
        recover_stale_mounts(&chroots, &records, &[], &[], &none),
        vec![nested.clone(), parent.clone()]
    );
    assert!(is_still_stale(&parent, &chroots, &records, &[], &[], &none));
    let busy = snapshot(&[(7, nested.join("x"))]);
    assert!(!is_still_stale(&parent, &chroots, &records, &[], &[], &busy));
    assert_eq!(
        records_of_root(&records, &nested),
        vec![FsPath::new("/runs/nested")]
    );
}

#[test]
fn orphaned_regular_document_mounts_are_recovered_only_after_the_instance_is_gone() {
    let chroots = FsPath::new("/base/chroots");
    let mountpoint = chroots.join("org.example.App/dead/run/user/1001/doc/grant/file");

    assert!(is_orphaned_regular_document_mount(
        &chroots,
        &mountpoint,
        false
    ));
    assert!(!is_orphaned_regular_document_mount(
        &chroots,
        &mountpoint,
        true
    ));
    assert!(!is_orphaned_regular_document_mount(
        &chroots,
        &chroots.join("org.example.App/dead/run/user/1001/doc/grant/directory/nested"),
        false
    ));
}

#[test]
fn process_cleanup_signals_the_complete_snapshot_before_escalating() {
    let mut remaining = BTreeSet::from([101, 202]);
    let mut signals = Vec::new();
    let mut sweep = start_sweep();
    loop {
        let (next, action) = terminate_processes_with(sweep, !remaining.is_empty());
        sweep = next;
        match action {
            SweepAction::Gone | SweepAction::Survived => break,
            SweepAction::SignalAll(signal) => {
                for pid in remaining.clone() {
                    signals.push((pid, signal));
                    if signal == Signal::Kill {
                        remaining.remove(&pid);
                    }
                }
            }
        }
    }

    assert!(remaining.is_empty());
    assert!(signals.contains(&(101, Signal::Terminate)));
    assert!(signals.contains(&(202, Signal::Terminate)));
    assert!(signals.contains(&(101, Signal::Kill)));
    assert!(signals.contains(&(202, Signal::Kill)));
}

#[test]
fn process_cleanup_reports_processes_that_survive_sigkill() {
    let survivors = vec![303];
    let mut sweep = start_sweep();
    let mut rounds = 0;
    let survived = loop {
        let (next, action) = terminate_processes_with(sweep, !survivors.is_empty());
        sweep = next;
        match action {
            SweepAction::Gone => break false,
            SweepAction::Survived => break true,
            SweepAction::SignalAll(_) => rounds += 1,
        }
    };
    assert!(survived);
    assert_eq!(rounds, 40);
    assert_eq!(survivors, vec![303]);
}

#[test]
fn live_nested_process_preserves_nested_and_parent_ownership() {
    let parent = FsPath::new("/chroots/org.example.App/parent");
    let nested = FsPath::new("/chroots/org.example.App/parent-nested-1");
    let records = vec![
        record(&parent, None, false, "/runs/parent"),
        record(&nested, Some(&parent), false, "/runs/nested"),
    ];
    let processes = snapshot(&[(42, nested.join("work"))]);

    let active = active_roots_from_records(&records, &processes);
    assert!(is_named(&active, &nested));
    assert!(is_named(&active, &parent));
}

#[test]
fn stale_nested_mount_tree_is_ordered_before_its_sources_and_parent() {
    let chroots = FsPath::new("/base/chroots");
    let parent = chroots.join("org.example.App/parent");
    let nested = chroots.join("org.example.App/nested");
    let instances = [parent.clone(), nested.clone()];
    let mount = |source: &FsPath, mountpoint: FsPath| MountInfo {
        source: source.clone(),
        mountpoint,
        options: "read-only".to_string(),
    };
    let staging = nested.join(".freebsd-flatpak-mount-sources/0");
    let mounts = vec![
        mount(&FsPath::new("/runtime"), parent.join("usr")),
        mount(&parent.join("usr"), staging.clone()),
        mount(&staging, nested.join("usr")),
    ];
    let root_order = order_sandbox_roots_for_recovery(
        &chroots,
        vec![parent.clone(), nested.clone()],
        &[],
        &mounts,
        &instances,
    );
    assert_eq!(root_order, vec![nested.clone(), parent.clone()]);

    let nested_mount_order = order_mounts_for_recovery(&mounts[1..]);
    assert_eq!(nested_mount_order[0].mountpoint, nested.join("usr"));
    assert_eq!(nested_mount_order[1].mountpoint, staging);

    let processes = snapshot(&[(42, nested.join("work"))]);
    let active = active_sandbox_roots(
        &chroots,
        &[],
        &mounts,
        &instances,
        &[parent.clone(), nested.clone()],
        &processes,
    );
    assert!(is_named(&active, &nested));
    assert!(is_named(&active, &parent));
}

#[test]
fn stale_mounts_are_sorted_deepest_first() {
    let mounts = sort_mountpoints_deepest_first(vec![
        FsPath::new("/sandbox/usr"),
        FsPath::new("/sandbox/run/user/1000/doc"),
        FsPath::new("/sandbox/run"),
        FsPath::new("/sandbox/usr/lib/extensions"),
    ]);

    let positions = mounts
        .iter()
        .enumerate()
        .map(|(index, path)| (path.as_str().to_string(), index))
        .collect::<BTreeMap<_, _>>();
    assert!(positions["/sandbox/run/user/1000/doc"] < positions["/sandbox/run"]);
    assert!(positions["/sandbox/usr/lib/extensions"] < positions["/sandbox/usr"]);
}

const TABLE: &str = "/dev/ada0 on / (ufs, local)\n/a on /chroots/app/i/usr (nullfs, local, read-only)\ngarbage\n/b on /chroots/app/i/usr/share (nullfs)\n";

#[test]
fn the_mount_table_is_read_line_by_line() {
    let mounts = mount_infos(TABLE);
    assert_eq!(mounts.len(), 3);
    assert_eq!(mounts[1].source, FsPath::new("/a"));
    assert_eq!(mounts[1].mountpoint, FsPath::new("/chroots/app/i/usr"));
    assert_eq!(mounts[1].options, "nullfs, local, read-only");
    let usr = FsPath::new("/chroots/app/i/usr");
    assert!(mountpoint_is_read_only(&mounts, &usr));
    assert!(!mountpoint_is_read_only(&mounts, &FsPath::new("/")));
    assert_eq!(
        mount_points_under(&mounts, &usr),
        vec![usr.join("share"), usr.clone()]
    );
    assert!(ensure_mountpoint_free(&mounts, &usr.join("x")).is_ok());
    assert_eq!(
        ensure_mountpoint_free(&mounts, &usr).unwrap_err().message(),
        "sandbox mountpoint is already mounted; clean it first: /chroots/app/i/usr"
    );
}

#[test]
fn an_application_has_mounts_in_the_directory_of_its_name() {
    let mounts = mount_infos(TABLE);
    let chroots = FsPath::new("/chroots");
    assert!(app_has_mounts(&chroots, "app", &mounts));
    assert!(!app_has_mounts(&chroots, "ap", &mounts));
}

#[test]
fn a_mount_belongs_to_the_nearest_instance_above_it() {
    let chroots = FsPath::new("/chroots");
    let instance = FsPath::new("/chroots/app/i");
    let known = [instance.clone()];
    assert_eq!(
        chroot_root_for_mount(&chroots, &instance.join("usr/share"), &known),
        Some(instance.clone())
    );
    assert_eq!(chroot_root_for_mount(&chroots, &instance, &known), None);
    assert_eq!(
        chroot_root_for_mount(&chroots, &FsPath::new("/other/usr"), &[FsPath::new("/other")]),
        None
    );
}

#[test]
fn only_places_below_a_sandbox_are_taken_down() {
    let instance = FsPath::new("/chroots/app/i");
    let known = [instance.clone()];
    let (root, relative) = sandbox_mount_target(&instance.join("usr/share"), &known).unwrap();
    assert_eq!(root, instance);
    assert_eq!(relative, FsPath::new("usr/share"));
    assert_eq!(
        sandbox_mount_target(&instance, &known).unwrap_err(),
        TargetError::IsRoot
    );
    let outside = sandbox_mount_target(&FsPath::new("/x"), &known).unwrap_err();
    assert_eq!(outside, TargetError::NoSandbox);
    assert!(outside.message().contains("not below"));
}

#[test]
fn dead_launcher_with_live_child_is_preserved_until_the_child_exits() {
    let paths = Installation::below(&FsPath::new("/base"));
    let root = paths.chroots().join("org.example.App/dead-launcher");
    let write = write_run_record(
        &paths,
        "org.example.App",
        "dead-launcher",
        &root,
        i32::MAX as u32,
        4242,
    )
    .unwrap();
    let values = read_run_record(&write.text, &write.path).unwrap();
    assert_eq!(launcher_pid(&values), Some(i32::MAX));
    let records = [ownership_record(&values, false)];
    let live = snapshot(&[(4242, root.clone())]);
    assert!(recover_stale_mounts(&paths.chroots(), &records, &[], &[], &live).is_empty());
    let none = snapshot(&[]);
    assert_eq!(
        recover_stale_mounts(&paths.chroots(), &records, &[], &[], &none),
        vec![root.clone()]
    );
    assert_eq!(records_of_root(&records, &root), vec![write.path]);
}

#[test]
fn a_launcher_is_named_by_a_positive_number() {
    let file = FsPath::new("/runs/a.ini");
    let pid = |text: &str| launcher_pid(&read_values(text, &file).unwrap());
    assert_eq!(pid("launcher_pid=7\n"), Some(7));
    assert_eq!(pid("launcher_pid=0\n"), None);
    assert_eq!(pid("launcher_pid=-7\n"), None);
    assert_eq!(pid("launcher_pid=x\n"), None);
    assert_eq!(pid("root=/r\n"), None);
}
