//! Taking mounts down: the order, what a mountpoint belongs to, and when force is used.

use crate::path::{
    all_names, components, is_name, joined, lemma_parent, parent_of, path_after, path_texts,
    same_path, within, FsPath,
};
use crate::recovery_order::{is_named, names, recovery_order, topological_path_order, Link};
use crate::stale_sandbox_recovery::{
    lemma_parent_shorter, mount_points, mountpoints, path_set, MountInfo, MountInfoView,
};
use crate::text::{concat, join, join_texts, lemma_views_push, text_eq, texts, views};
use vstd::prelude::*;

verus! {

/// Whether one mount has to be taken down before another: it lies in the other, or shows something
/// that lies in the other.
pub open spec fn rests_on(mount: MountInfoView, other: MountInfoView) -> bool {
    !same_path(mount.mountpoint, other.mountpoint) && (within(mount.mountpoint, other.mountpoint)
        || within(mount.source, other.mountpoint))
}

/// What one mount rests on, among the first `n` mounts.
pub open spec fn supports(mounts: Seq<MountInfoView>, mount: MountInfoView, n: int) -> Seq<
    (Seq<char>, Seq<char>),
>
    decreases n,
{
    if n <= 0 {
        Seq::empty()
    } else {
        let before = supports(mounts, mount, n - 1);
        if rests_on(mount, mounts[n - 1]) {
            before.push((mount.mountpoint, mounts[n - 1].mountpoint))
        } else {
            before
        }
    }
}

/// What each of the first `n` mounts rests on.
pub open spec fn mount_dependencies(mounts: Seq<MountInfoView>, n: int) -> Seq<
    (Seq<char>, Seq<char>),
>
    decreases n,
{
    if n <= 0 {
        Seq::empty()
    } else {
        mount_dependencies(mounts, n - 1) + supports(mounts, mounts[n - 1], mounts.len() as int)
    }
}

/// The order in which mountpoints are taken down.
pub open spec fn mountpoint_order(mounts: Seq<MountInfoView>) -> Seq<Seq<char>> {
    recovery_order(
        path_set(mountpoints(mounts)),
        mount_dependencies(mounts, mounts.len() as int),
    )
}

/// The last mount at a path.
pub open spec fn last_mount_at(mounts: Seq<MountInfoView>, path: Seq<char>) -> Option<MountInfoView>
    decreases mounts.len(),
{
    if mounts.len() == 0 {
        None
    } else if same_path(mounts.last().mountpoint, path) {
        Some(mounts.last())
    } else {
        last_mount_at(mounts.drop_last(), path)
    }
}

/// The last mount at each of the paths.
pub open spec fn mounts_at(mounts: Seq<MountInfoView>, paths: Seq<Seq<char>>) -> Seq<MountInfoView>
    decreases paths.len(),
{
    if paths.len() == 0 {
        Seq::empty()
    } else {
        let before = mounts_at(mounts, paths.drop_last());
        match last_mount_at(mounts, paths.last()) {
            Some(mount) => before.push(mount),
            None => before,
        }
    }
}

fn links_between(mounts: &[MountInfo]) -> (r: Vec<Link>)
    ensures
        views(r@) == mount_dependencies(views(mounts@), mounts@.len() as int),
{
    let ghost all = views(mounts@);
    let mut out: Vec<Link> = Vec::new();
    let mut i: usize = 0;
    assert(views(out@) =~= mount_dependencies(all, 0));
    while i < mounts.len()
        invariant
            i <= mounts@.len(),
            all == views(mounts@),
            views(out@) == mount_dependencies(all, i as int),
        decreases mounts@.len() - i,
    {
        let ghost start = views(out@);
        assert(all[i as int] == mounts@[i as int]@);
        let mut j: usize = 0;
        assert(start + supports(all, all[i as int], 0) =~= start);
        while j < mounts.len()
            invariant
                i < mounts@.len(),
                j <= mounts@.len(),
                all == views(mounts@),
                all[i as int] == mounts@[i as int]@,
                views(out@) == start + supports(all, all[i as int], j as int),
            decreases mounts@.len() - j,
        {
            assert(all[j as int] == mounts@[j as int]@);
            let mount = &mounts[i];
            let other = &mounts[j];
            if !mount.mountpoint.same_as(&other.mountpoint) && (mount.mountpoint.starts_with(
                &other.mountpoint,
            ) || mount.source.starts_with(&other.mountpoint)) {
                let link = Link {
                    user: mount.mountpoint.clone(),
                    needed: other.mountpoint.clone(),
                };
                proof {
                    lemma_views_push(out@, link);
                }
                out.push(link);
            }
            assert(views(out@) =~= start + supports(all, all[i as int], j + 1));
            j += 1;
        }
        i += 1;
    }
    out
}

/// The last mount at a path.
fn find_last_mount(mounts: &[MountInfo], path: &FsPath) -> (r: Option<MountInfo>)
    ensures
        match r {
            Some(mount) => last_mount_at(views(mounts@), path@) == Some(mount@),
            None => last_mount_at(views(mounts@), path@) is None,
        },
{
    let ghost all = views(mounts@);
    let mut i: usize = mounts.len();
    assert(all.take(i as int) =~= all);
    while i > 0
        invariant
            i <= mounts@.len(),
            all == views(mounts@),
            last_mount_at(all, path@) == last_mount_at(all.take(i as int), path@),
        decreases i,
    {
        let ghost now = all.take(i as int);
        assert(now.drop_last() =~= all.take(i - 1));
        assert(now.last() == mounts@[i - 1]@);
        if mounts[i - 1].mountpoint.same_as(path) {
            return Some(mounts[i - 1].clone());
        }
        i -= 1;
    }
    None
}

/// The order in which the mounts of a sandbox are taken down: one that lies in another, or shows
/// something of it, before that other.
pub fn order_mounts_for_recovery(mounts: &[MountInfo]) -> (r: Vec<MountInfo>)
    ensures
        views(r@) == mounts_at(views(mounts@), mountpoint_order(views(mounts@))),
{
    let ghost all = views(mounts@);
    let points = mount_points(mounts);
    let dependencies = links_between(mounts);
    let ordered = topological_path_order(points, dependencies.as_slice());
    let ghost order = mountpoint_order(all);
    assert(path_texts(ordered@) == order);
    let mut out: Vec<MountInfo> = Vec::new();
    let mut i: usize = 0;
    assert(views(out@) =~= mounts_at(all, order.take(0)));
    while i < ordered.len()
        invariant
            i <= ordered@.len(),
            all == views(mounts@),
            order == path_texts(ordered@),
            views(out@) == mounts_at(all, order.take(i as int)),
        decreases ordered@.len() - i,
    {
        let ghost next = order.take(i + 1);
        assert(next.drop_last() =~= order.take(i as int));
        assert(next.last() == ordered@[i as int]@);
        if let Some(mount) = find_last_mount(mounts, &ordered[i]) {
            proof {
                lemma_views_push(out@, mount);
            }
            out.push(mount);
        }
        i += 1;
    }
    assert(order.take(i as int) =~= order);
    out
}

/// The nearest directory that is an instance, from a path upwards.
pub open spec fn nearest_instance(path: Seq<char>, instances: Seq<Seq<char>>) -> Option<Seq<char>>
    decreases components(path).len(),
{
    if names(instances, path) {
        Some(path)
    } else {
        match parent_of(path) {
            None => None,
            Some(parent) => {
                proof {
                    lemma_parent_shorter(path);
                }
                nearest_instance(parent, instances)
            },
        }
    }
}

/// The instance that a path belongs to is the path or lies above it.
pub proof fn lemma_nearest_instance(path: Seq<char>, instances: Seq<Seq<char>>)
    ensures
        nearest_instance(path, instances) matches Some(root) ==> within(path, root) && names(
            instances,
            root,
        ),
    decreases components(path).len(),
{
    if !names(instances, path) {
        lemma_parent(path);
        lemma_parent_shorter(path);
        if let Some(parent) = parent_of(path) {
            lemma_nearest_instance(parent, instances);
            if let Some(root) = nearest_instance(parent, instances) {
                let n = components(root).len() as int;
                assert(components(path).take(n) =~= components(parent).take(n));
            }
        }
    } else {
        assert(components(path).take(components(path).len() as int) =~= components(path));
    }
}

fn find_instance(path: &FsPath, instances: &[FsPath]) -> (r: Option<FsPath>)
    ensures
        match r {
            Some(root) => nearest_instance(path@, path_texts(instances@)) == Some(root@),
            None => nearest_instance(path@, path_texts(instances@)) is None,
        },
    decreases components(path@).len(),
{
    if is_named(instances, path) {
        return Some(path.clone());
    }
    match path.parent() {
        None => None,
        Some(parent) => {
            proof {
                lemma_parent_shorter(path@);
            }
            find_instance(&parent, instances)
        },
    }
}

#[derive(Debug, Clone, Copy, PartialEq, Eq, Structural)]
pub enum TargetError {
    /// The mountpoint lies in no sandbox.
    NoSandbox,
    /// The mountpoint is the sandbox itself.
    IsRoot,
}

impl TargetError {
    pub fn message(&self) -> (r: String)
        ensures
            r@ == (match self {
                TargetError::NoSandbox =>
                    "mountpoint is not below a freebsd-flatpak sandbox root"@,
                TargetError::IsRoot => "refusing to unmount sandbox root"@,
            }),
    {
        match self {
            TargetError::NoSandbox => "mountpoint is not below a freebsd-flatpak sandbox root".to_string(),
            TargetError::IsRoot => "refusing to unmount sandbox root".to_string(),
        }
    }
}

/// The sandbox that a mountpoint lies in, and what remains of the mountpoint below it.
pub fn sandbox_mount_target(mountpoint: &FsPath, instances: &[FsPath]) -> (r: Result<
    (FsPath, FsPath),
    TargetError,
>)
    ensures
        match (r, nearest_instance(mountpoint@, path_texts(instances@))) {
            (Ok((root, relative)), Some(instance)) => {
                &&& root@ == instance
                &&& relative@ == path_after(mountpoint@, components(instance).len())
                &&& relative@.len() > 0
            },
            (Err(TargetError::NoSandbox), None) => true,
            (Err(TargetError::IsRoot), Some(instance)) => path_after(
                mountpoint@,
                components(instance).len(),
            ).len() == 0,
            _ => false,
        },
{
    proof {
        lemma_nearest_instance(mountpoint@, path_texts(instances@));
    }
    match find_instance(mountpoint, instances) {
        None => Err(TargetError::NoSandbox),
        Some(root) => match mountpoint.strip_prefix(&root) {
            None => Err(TargetError::NoSandbox),
            Some(relative) => if relative.as_str().unicode_len() == 0 {
                Err(TargetError::IsRoot)
            } else {
                Ok((root, relative))
            },
        },
    }
}

/// Whether the components below the directory of all sandboxes are those of a document of which
/// only a file was granted: the application, the instance, `run`, `user`, the user, `doc`, the
/// grant and the file.
pub open spec fn is_document_file(parts: Seq<Seq<char>>) -> bool {
    &&& parts.len() == 8
    &&& forall|i: int| 0 <= i < 8 ==> is_name(#[trigger] parts[i])
    &&& parts[2] == "run"@
    &&& parts[3] == "user"@
    &&& parts[5] == "doc"@
}

/// The instance that a mounted document file belongs to.
pub open spec fn document_instance_of(chroots: Seq<char>, mountpoint: Seq<char>) -> Option<
    Seq<char>,
> {
    let parts = components(mountpoint).skip(components(chroots).len() as int);
    if within(mountpoint, chroots) && is_document_file(parts) {
        Some(joined(joined(chroots, parts[0]), parts[1]))
    } else {
        None
    }
}

/// The instance that a mounted document file belongs to.
pub fn document_instance(chroots: &FsPath, mountpoint: &FsPath) -> (r: Option<FsPath>)
    ensures
        match r {
            Some(path) => document_instance_of(chroots@, mountpoint@) == Some(path@),
            None => document_instance_of(chroots@, mountpoint@) is None,
        },
{
    let relative = match mountpoint.strip_prefix(chroots) {
        Some(relative) => relative,
        None => {
            return None;
        },
    };
    let parts = relative.components();
    let ghost all = texts(parts@);
    assert(all == components(mountpoint@).skip(components(chroots@).len() as int));
    assert(all.len() == parts@.len());
    if parts.len() != 8 || !all_names(parts.as_slice()) {
        return None;
    }
    assert(all[0] == parts@[0]@ && all[1] == parts@[1]@ && all[2] == parts@[2]@ && all[3]
        == parts@[3]@ && all[5] == parts@[5]@);
    if text_eq(&parts[2], "run") && text_eq(&parts[3], "user") && text_eq(&parts[5], "doc") {
        Some(chroots.join(&parts[0]).join(&parts[1]))
    } else {
        None
    }
}

/// Whether a mounted document file has outlived its instance. `instance_exists` tells of the
/// directory that `document_instance` names whether it is there.
pub fn is_orphaned_regular_document_mount(
    chroots: &FsPath,
    mountpoint: &FsPath,
    instance_exists: bool,
) -> (r: bool)
    ensures
        r == (document_instance_of(chroots@, mountpoint@) is Some && !instance_exists),
{
    document_instance(chroots, mountpoint).is_some() && !instance_exists
}

/// Where the taking down of one mount stands.
#[derive(Debug, Clone, Copy, PartialEq, Eq, Structural)]
pub enum Unmount {
    /// Asks whether the path is mounted at all.
    LookFirst,
    /// Tries to unmount.
    Try,
    /// Asks whether the path is still mounted after the attempt failed.
    LookAgain,
    /// Asks once more before force is used.
    LookBeforeForce,
    /// Tries to unmount by force.
    TryForce,
    /// Asks once more before the failure is reported.
    LookLast,
    /// Nothing is mounted there any more.
    Done,
    /// The attempt without force failed, and the path is still mounted.
    Failed,
    /// The attempt by force failed.
    ForceFailed,
}

/// What follows when a question is answered or an attempt has ended; `yes` tells that the path is
/// mounted, or that the attempt succeeded.
pub open spec fn unmount_next(now: Unmount, allow_force: bool, yes: bool) -> Unmount {
    match now {
        Unmount::LookFirst => if yes {
            Unmount::Try
        } else {
            Unmount::Done
        },
        Unmount::Try => if yes {
            Unmount::Done
        } else {
            Unmount::LookAgain
        },
        Unmount::LookAgain => if !yes {
            Unmount::Done
        } else if allow_force {
            Unmount::LookBeforeForce
        } else {
            Unmount::LookLast
        },
        Unmount::LookBeforeForce => if yes {
            Unmount::TryForce
        } else {
            Unmount::LookLast
        },
        Unmount::TryForce => if yes {
            Unmount::Done
        } else {
            Unmount::ForceFailed
        },
        Unmount::LookLast => if yes {
            Unmount::Failed
        } else {
            Unmount::Done
        },
        Unmount::Done => Unmount::Done,
        Unmount::Failed => Unmount::Failed,
        Unmount::ForceFailed => Unmount::ForceFailed,
    }
}

/// What follows when a question is answered or an attempt has ended.
pub fn unmount_mountpoint_with(now: Unmount, allow_force: bool, yes: bool) -> (r: Unmount)
    ensures
        r == unmount_next(now, allow_force, yes),
{
    match now {
        Unmount::LookFirst => if yes {
            Unmount::Try
        } else {
            Unmount::Done
        },
        Unmount::Try => if yes {
            Unmount::Done
        } else {
            Unmount::LookAgain
        },
        Unmount::LookAgain => if !yes {
            Unmount::Done
        } else if allow_force {
            Unmount::LookBeforeForce
        } else {
            Unmount::LookLast
        },
        Unmount::LookBeforeForce => if yes {
            Unmount::TryForce
        } else {
            Unmount::LookLast
        },
        Unmount::TryForce => if yes {
            Unmount::Done
        } else {
            Unmount::ForceFailed
        },
        Unmount::LookLast => if yes {
            Unmount::Failed
        } else {
            Unmount::Done
        },
        Unmount::Done => Unmount::Done,
        Unmount::Failed => Unmount::Failed,
        Unmount::ForceFailed => Unmount::ForceFailed,
    }
}

/// Where the taking down stands after the answers.
pub open spec fn unmount_after(allow_force: bool, answers: Seq<bool>) -> Unmount
    decreases answers.len(),
{
    if answers.len() == 0 {
        Unmount::LookFirst
    } else {
        unmount_next(unmount_after(allow_force, answers.drop_last()), allow_force, answers.last())
    }
}

/// Force is used only where it is allowed, after one attempt without it has failed and the path
/// was seen to be still mounted twice; and there is no second attempt of either kind.
pub proof fn lemma_force_comes_last(allow_force: bool, answers: Seq<bool>)
    ensures
        unmount_after(allow_force, answers) == Unmount::TryForce ==> allow_force && answers
            == seq![true, false, true, true],
        unmount_after(allow_force, answers) == Unmount::Try ==> answers == seq![true],
        unmount_after(allow_force, answers) == Unmount::Failed ==> answers.len() >= 4
            && answers[0] && !answers[1] && answers[2],
    decreases answers.len(),
{
    if answers.len() > 0 {
        let before = answers.drop_last();
        lemma_force_comes_last(allow_force, before);
        lemma_early_stages(allow_force, before);
        assert(answers =~= before.push(answers.last()));
        lemma_early_stages(allow_force, answers);
    }
}

/// What was answered in each stage before the last.
proof fn lemma_early_stages(allow_force: bool, answers: Seq<bool>)
    ensures
        unmount_after(allow_force, answers) == Unmount::LookFirst ==> answers =~= Seq::empty(),
        unmount_after(allow_force, answers) == Unmount::Try ==> answers =~= seq![true],
        unmount_after(allow_force, answers) == Unmount::LookAgain ==> answers =~= seq![
            true,
            false,
        ],
        unmount_after(allow_force, answers) == Unmount::LookBeforeForce ==> allow_force
            && answers =~= seq![true, false, true],
        unmount_after(allow_force, answers) == Unmount::TryForce ==> allow_force && answers
            =~= seq![true, false, true, true],
        unmount_after(allow_force, answers) == Unmount::LookLast ==> answers =~= seq![
            true,
            false,
            true,
        ] || answers =~= seq![true, false, true, false],
    decreases answers.len(),
{
    if answers.len() > 0 {
        let before = answers.drop_last();
        lemma_early_stages(allow_force, before);
        assert(answers =~= before.push(answers.last()));
    }
}

/// What is not mounted is not touched: the first answer ends the matter.
pub proof fn lemma_gone_is_left(allow_force: bool, answers: Seq<bool>)
    requires
        answers.len() > 0,
        !answers[0],
    ensures
        unmount_after(allow_force, answers) == Unmount::Done,
    decreases answers.len(),
{
    let before = answers.drop_last();
    if before.len() > 0 {
        assert(before[0] == answers[0]);
        lemma_gone_is_left(allow_force, before);
    } else {
        assert(unmount_after(allow_force, before) == Unmount::LookFirst);
        assert(answers.last() == answers[0]);
    }
}

/// Where the taking down of a document stands that has outlived its sandbox.
#[derive(Debug, Clone, Copy, PartialEq, Eq, Structural)]
pub enum OrphanUnmount {
    Try,
    /// Asks whether the path is still mounted after the attempt failed.
    LookAgain,
    TryForce,
    Done,
    Failed,
}

/// What follows when a question is answered or an attempt has ended. Nothing of the sandbox is
/// left, so that force is used wherever it takes it.
pub fn recover_orphaned_document_mount(now: OrphanUnmount, yes: bool) -> (r: OrphanUnmount)
    ensures
        r == (match now {
            OrphanUnmount::Try => if yes {
                OrphanUnmount::Done
            } else {
                OrphanUnmount::LookAgain
            },
            OrphanUnmount::LookAgain => if yes {
                OrphanUnmount::TryForce
            } else {
                OrphanUnmount::Done
            },
            OrphanUnmount::TryForce => if yes {
                OrphanUnmount::Done
            } else {
                OrphanUnmount::Failed
            },
            _ => now,
        }),
{
    match now {
        OrphanUnmount::Try => if yes {
            OrphanUnmount::Done
        } else {
            OrphanUnmount::LookAgain
        },
        OrphanUnmount::LookAgain => if yes {
            OrphanUnmount::TryForce
        } else {
            OrphanUnmount::Done
        },
        OrphanUnmount::TryForce => if yes {
            OrphanUnmount::Done
        } else {
            OrphanUnmount::Failed
        },
        OrphanUnmount::Done => OrphanUnmount::Done,
        OrphanUnmount::Failed => OrphanUnmount::Failed,
    }
}

/// What is told to the user where mounts could not be taken down; nothing where all could.
pub fn recovery_failure(errors: &[String]) -> (r: Option<String>)
    ensures
        match r {
            Some(text) => errors@.len() > 0 && text@ == "stale mount recovery failed:\n"@ + join(
                texts(errors@),
                "\n"@,
            ),
            None => errors@.len() == 0,
        },
{
    if errors.len() == 0 {
        return None;
    }
    let all = join_texts(errors, "\n");
    Some(concat("stale mount recovery failed:\n", &all))
}

} // verus!
