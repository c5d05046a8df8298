//! Preparing a sandbox: its name, its record, and everything that is mounted in it.

use crate::application_entrypoint::{sandbox_name, sandbox_name_of};
use crate::extensions::{AppExtension, ExtensionView};
use crate::filesystem_grants::{chroot_relative, refused_target, absolute_to_chroot_relative};
use crate::filesystem_grants::{GrantView, HostPathGrant};
use crate::filesystem_permissions::{AccessMode, FilesystemError};
use crate::flatpak_data_mount_plan::FlatpakDataMountPlan;
use crate::flatpak_installation::{FlatpakInstallationProjection, ProjectedDeployment};
use crate::hexadecimal::{hexadecimal, lemma_hexadecimal, render_hex};
use crate::installation::Installation;
use crate::numbers::{decimal, render_u64};
use crate::order::{deduplicated, order_texts, sort_by, sorted, text_order, Relation};
use crate::path::{components, joined, path_after, path_texts, same_path, within, FsPath};
use crate::run_records::{
    run_entries, run_path, run_refusal, write_pinned_run_record_with_extensions,
};
use crate::state::{record_text, AppRecord, AppView, StateError, StateWrite};
use crate::text::{
    concat, concat3, lemma_texts_push, lemma_views_push, text_eq, texts, views,
};
use vstd::prelude::*;

verus! {

/// The sandboxes of an installation, made of a changed root and of mounts that show directories.
#[derive(Debug)]
pub struct ChrootNullfsBackend {
    pub paths: Installation,
}

/// The name of an instance: the time, a number that no other instance of the process has, and the
/// process.
pub open spec fn instance_name(nonce: nat, sequence: nat, pid: nat) -> Seq<char> {
    hexadecimal(nonce) + "-"@ + hexadecimal(sequence) + "-"@ + decimal(pid)
}

/// The name of an instance. The process comes last: what recovers the resources of processes that
/// are gone looks for it there.
pub fn new_instance_id(nonce: u128, sequence: u64, pid: u32) -> (r: String)
    ensures
        r@ == instance_name(nonce as nat, sequence as nat, pid as nat),
{
    let time = render_hex(nonce);
    let number = render_hex(sequence as u128);
    let process = render_u64(pid as u64);
    let mut out = concat3(&time, "-", &number);
    out.append("-");
    out.append(&process);
    out
}

/// Instances of one process have different names, whatever the clock says.
pub proof fn lemma_instances_distinct(
    first_time: nat,
    second_time: nat,
    first: nat,
    second: nat,
    pid: nat,
)
    requires
        first != second,
    ensures
        instance_name(first_time, first, pid) != instance_name(second_time, second, pid),
{
    reveal_strlit("-");
    let a = instance_name(first_time, first, pid);
    let b = instance_name(second_time, second, pid);
    let (t, u) = (hexadecimal(first_time), hexadecimal(second_time));
    let (x, y) = (hexadecimal(first), hexadecimal(second));
    lemma_hexadecimal(first_time, second_time);
    lemma_hexadecimal(second_time, first_time);
    lemma_hexadecimal(first, second);
    lemma_hexadecimal(second, first);
    if a == b {
        assert(a[t.len() as int] == '-');
        assert(b[u.len() as int] == '-');
        if t.len() < u.len() {
            assert(b[t.len() as int] == u[t.len() as int]);
        } else if u.len() < t.len() {
            assert(a[u.len() as int] == t[u.len() as int]);
        }
        assert(t.len() == u.len());
        let n = t.len() as int + 1;
        let process = decimal(pid);
        assert(a.len() == t.len() + 1 + x.len() + 1 + process.len());
        assert(b.len() == u.len() + 1 + y.len() + 1 + process.len());
        assert(a.subrange(n, n + x.len()) =~= x);
        assert(b.subrange(n, n + y.len()) =~= y);
    }
}

impl ChrootNullfsBackend {
    pub fn new(paths: Installation) -> (r: ChrootNullfsBackend)
        ensures
            r.paths == paths,
    {
        ChrootNullfsBackend { paths }
    }

    /// The root directory of an instance.
    pub fn instance_root(&self, app_id: &str, instance_id: &str) -> (r: FsPath)
        ensures
            r@ == joined(
                joined(self.paths.spec_chroots(), sandbox_name_of(app_id@)),
                instance_id@,
            ),
    {
        let name = sandbox_name(app_id);
        self.paths.chroots().join(&name).join(instance_id)
    }
}

/// The record of an instance that is being prepared. It is removed again unless the instance is
/// taken over.
#[derive(Debug)]
pub struct PendingRunRecord {
    pub path: FsPath,
    pub deployment: AppRecord,
    pub instance_id: String,
    pub root: FsPath,
    pub extension_refs: Vec<String>,
    pub committed: bool,
}

/// What is written down of an instance that is being prepared: no program of it runs yet.
pub open spec fn pending_text(
    deployment: AppView,
    instance_id: Seq<char>,
    root: Seq<char>,
    launcher_pid: u32,
    extension_refs: Seq<Seq<char>>,
) -> Seq<char> {
    record_text(
        run_entries(
            deployment.app_id,
            instance_id,
            root,
            launcher_pid,
            0,
            Some(deployment),
            extension_refs,
        ),
    )
}

impl PendingRunRecord {
    /// The record, and what has to be written for it.
    pub fn new(
        paths: &Installation,
        deployment: AppRecord,
        instance_id: &str,
        root: &FsPath,
        launcher_pid: u32,
    ) -> (r: Result<(PendingRunRecord, StateWrite), StateError>)
        ensures
            match r {
                Ok((pending, write)) => {
                    &&& run_refusal(deployment@.app_id, instance_id@) is None
                    &&& write@ == (
                        run_path(*paths, deployment@.app_id, instance_id@),
                        pending_text(
                            deployment@,
                            instance_id@,
                            root@,
                            launcher_pid,
                            Seq::empty(),
                        ),
                    )
                    &&& pending.path@ == write@.0
                    &&& pending.deployment == deployment
                    &&& pending.instance_id@ == instance_id@
                    &&& pending.root@ == root@
                    &&& pending.extension_refs@.len() == 0
                    &&& !pending.committed
                },
                Err(error) => run_refusal(deployment@.app_id, instance_id@) == Some(error@),
            },
    {
        let none: Vec<String> = Vec::new();
        assert(texts(none@) =~= Seq::<Seq<char>>::empty());
        let write = write_pinned_run_record_with_extensions(
            paths,
            instance_id,
            root,
            launcher_pid,
            0,
            &deployment,
            none.as_slice(),
        )?;
        let pending = PendingRunRecord {
            path: write.path.clone(),
            deployment,
            instance_id: instance_id.to_string(),
            root: root.clone(),
            extension_refs: none,
            committed: false,
        };
        Ok((pending, write))
    }

    /// What has to be written so that the record names the extensions.
    pub fn set_extensions(
        &mut self,
        paths: &Installation,
        launcher_pid: u32,
        extension_refs: Vec<String>,
    ) -> (r: Result<StateWrite, StateError>)
        ensures
            match r {
                Ok(write) => {
                    &&& run_refusal(old(self).deployment@.app_id, old(self).instance_id@) is None
                    &&& write@ == (
                        run_path(*paths, old(self).deployment@.app_id, old(self).instance_id@),
                        pending_text(
                            old(self).deployment@,
                            old(self).instance_id@,
                            old(self).root@,
                            launcher_pid,
                            texts(extension_refs@),
                        ),
                    )
                    &&& *final(self) == (PendingRunRecord { extension_refs, ..*old(self) })
                },
                Err(error) => run_refusal(
                    old(self).deployment@.app_id,
                    old(self).instance_id@,
                ) == Some(error@) && *final(self) == *old(self),
            },
    {
        let write = write_pinned_run_record_with_extensions(
            paths,
            &self.instance_id,
            &self.root,
            launcher_pid,
            0,
            &self.deployment,
            extension_refs.as_slice(),
        )?;
        self.extension_refs = extension_refs;
        Ok(write)
    }

    /// Hands the record over to the instance.
    pub fn commit(self) -> (r: (FsPath, AppRecord, Vec<String>))
        ensures
            r == (self.path, self.deployment, self.extension_refs),
    {
        (self.path, self.deployment, self.extension_refs)
    }
}

/// Adds the texts of a list.
fn push_all(out: &mut Vec<String>, more: &[String])
    ensures
        texts(final(out)@) == texts(old(out)@) + texts(more@),
{
    crate::application_entrypoint::push_texts(out, more);
}

/// References are put in the order of their texts.
pub open spec fn text_le(a: Seq<char>, b: Seq<char>) -> bool {
    text_order(a, b) != Relation::After
}

fn text_at_most(a: &String, b: &String) -> (r: bool)
    ensures
        r == text_le(a@, b@),
{
    match order_texts(a, b) {
        Relation::After => false,
        _ => true,
    }
}

/// The texts in order, each once.
pub open spec fn text_set(s: Seq<Seq<char>>) -> Seq<Seq<char>> {
    deduplicated(
        sorted(s, |a: Seq<char>, b: Seq<char>| text_le(a, b)),
        |a: Seq<char>, b: Seq<char>| a == b,
    )
}

/// The references of the extensions that an instance uses, each once: those of the graphics, of
/// the video acceleration and of the application.
pub fn collect_extension_refs(graphics: &[String], video: &[String], application: &[String]) -> (r:
    Vec<String>)
    ensures
        texts(r@) == text_set(texts(graphics@) + texts(video@) + texts(application@)),
{
    let mut all: Vec<String> = Vec::new();
    push_all(&mut all, graphics);
    push_all(&mut all, video);
    push_all(&mut all, application);
    assert(texts(all@) =~= texts(graphics@) + texts(video@) + texts(application@));
    let ordered = sort_by(
        all,
        text_at_most,
        Ghost(|a: Seq<char>, b: Seq<char>| text_le(a, b)),
    );
    let ghost seen = texts(ordered@);
    let ghost same = |a: Seq<char>, b: Seq<char>| a == b;
    let mut out: Vec<String> = Vec::new();
    let mut i: usize = 0;
    assert(texts(out@) =~= deduplicated(seen.take(0), same));
    while i < ordered.len()
        invariant
            i <= ordered@.len(),
            seen == texts(ordered@),
            same == (|a: Seq<char>, b: Seq<char>| a == b),
            texts(out@) == deduplicated(seen.take(i as int), same),
        decreases ordered@.len() - i,
    {
        let ghost next = seen.take(i + 1);
        assert(next.drop_last() =~= seen.take(i as int));
        assert(next.last() == ordered@[i as int]@);
        assert(texts(out@).len() == out@.len());
        let n: usize = out.len();
        assert(n > 0 ==> texts(out@).last() == out@[n - 1]@);
        if n > 0 && text_eq(&ordered[i], &out[n - 1]) {
        } else {
            let text = ordered[i].clone();
            proof {
                lemma_texts_push(out@, text);
            }
            out.push(text);
        }
        i += 1;
    }
    assert(seen.take(i as int) =~= seen);
    out
}

/// One step of filling a sandbox.
#[derive(Debug)]
pub enum SetupStep {
    CreateDirectory(FsPath),
    /// Writes the directories of the user into the configuration of the application.
    WriteUserDirs(FsPath),
    /// Shows a directory at a place in the sandbox.
    Show { source: FsPath, target: FsPath, read_only: bool },
    /// Mounts a file system in memory at a place in the sandbox.
    Tmpfs { target: FsPath, options: String },
    /// Mounts a file system of the system's own at a place in the sandbox.
    Special { target: FsPath, fs_type: String },
    /// Makes the documents portal serve the sandbox.
    AttachPortal,
}

pub ghost enum SetupView {
    CreateDirectory(Seq<char>),
    WriteUserDirs(Seq<char>),
    Show { source: Seq<char>, target: Seq<char>, read_only: bool },
    Tmpfs { target: Seq<char>, options: Seq<char> },
    Special { target: Seq<char>, fs_type: Seq<char> },
    AttachPortal,
}

impl View for SetupStep {
    type V = SetupView;

    open spec fn view(&self) -> SetupView {
        match self {
            SetupStep::CreateDirectory(path) => SetupView::CreateDirectory(path@),
            SetupStep::WriteUserDirs(path) => SetupView::WriteUserDirs(path@),
            SetupStep::Show { source, target, read_only } => SetupView::Show {
                source: source@,
                target: target@,
                read_only: *read_only,
            },
            SetupStep::Tmpfs { target, options } => SetupView::Tmpfs {
                target: target@,
                options: options@,
            },
            SetupStep::Special { target, fs_type } => SetupView::Special {
                target: target@,
                fs_type: fs_type@,
            },
            SetupStep::AttachPortal => SetupView::AttachPortal,
        }
    }
}

/// Something of the host that the sandbox shows under a path of its own.
#[derive(Debug)]
pub struct HostMount {
    pub host_path: FsPath,
    pub sandbox_path: FsPath,
}

impl View for HostMount {
    type V = (Seq<char>, Seq<char>);

    open spec fn view(&self) -> (Seq<char>, Seq<char>) {
        (self.host_path@, self.sandbox_path@)
    }
}

/// Something that the sandbox shows at a place that is given from its root.
#[derive(Debug)]
pub struct RuntimeMount {
    pub source: FsPath,
    pub target: FsPath,
}

impl View for RuntimeMount {
    type V = (Seq<char>, Seq<char>);

    open spec fn view(&self) -> (Seq<char>, Seq<char>) {
        (self.source@, self.target@)
    }
}

/// A path that cannot be a place in the sandbox.
#[derive(Debug)]
pub enum SetupError {
    /// The path under which something of the host is shown.
    Grant(FilesystemError),
    RelativePath(FsPath),
    RootDirectory,
}

/// The path that stopped the preparation, and whether it is one of a grant.
pub ghost struct Refused {
    pub grant: bool,
    pub path: Seq<char>,
}

/// Whether an error tells of what stopped the preparation.
pub open spec fn tells(error: SetupError, refused: Refused) -> bool {
    match error {
        SetupError::Grant(inner) => refused.grant && refused_target(inner, refused.path),
        SetupError::RelativePath(path) => !refused.grant && path@ == refused.path && !within(
            refused.path,
            "/"@,
        ),
        SetupError::RootDirectory => !refused.grant && within(refused.path, "/"@),
    }
}

/// Where a path of the sandbox lies below its root.
pub open spec fn below_root(path: Seq<char>) -> Option<Seq<char>> {
    if within(path, "/"@) && path_after(path, components("/"@).len()).len() > 0 {
        Some(path_after(path, components("/"@).len()))
    } else {
        None
    }
}

fn place_below_root(path: &FsPath) -> (r: Result<FsPath, SetupError>)
    ensures
        match r {
            Ok(relative) => below_root(path@) == Some(relative@),
            Err(error) => below_root(path@) is None && tells(
                error,
                Refused { grant: false, path: path@ },
            ),
        },
{
    match path.strip_prefix(&FsPath::new("/")) {
        None => Err(SetupError::RelativePath(path.clone())),
        Some(relative) => if relative.as_str().unicode_len() == 0 {
            Err(SetupError::RootDirectory)
        } else {
            Ok(relative)
        },
    }
}

fn grant_target(path: &FsPath) -> (r: Result<FsPath, SetupError>)
    ensures
        match r {
            Ok(relative) => chroot_relative(path@) == Some(relative@),
            Err(error) => chroot_relative(path@) is None && tells(
                error,
                Refused { grant: true, path: path@ },
            ),
        },
{
    match absolute_to_chroot_relative(path) {
        Ok(relative) => Ok(relative),
        Err(error) => Err(SetupError::Grant(error)),
    }
}

/// The steps of one part and then of the next; what stops a part stops the rest.
pub open spec fn and_then(
    first: Result<Seq<SetupView>, Refused>,
    second: Result<Seq<SetupView>, Refused>,
) -> Result<Seq<SetupView>, Refused> {
    match (first, second) {
        (Err(refused), _) => Err(refused),
        (Ok(_), Err(refused)) => Err(refused),
        (Ok(a), Ok(b)) => Ok(a + b),
    }
}

fn push_step(steps: &mut Vec<SetupStep>, step: SetupStep)
    ensures
        views(final(steps)@) == views(old(steps)@).push(step@),
{
    proof {
        lemma_views_push(steps@, step);
    }
    steps.push(step);
}

/// The runtime, the application, and what the application keeps.
pub open spec fn base_steps(app_dir: Seq<char>, runtime_dir: Seq<char>, app_data: Seq<char>) -> Seq<
    SetupView,
> {
    seq![
        SetupView::Show { source: joined(runtime_dir, "files"@), target: "usr"@, read_only: true },
        SetupView::Show { source: joined(app_dir, "files"@), target: "app"@, read_only: true },
        SetupView::CreateDirectory(joined(app_data, "data"@)),
        SetupView::CreateDirectory(joined(app_data, "config"@)),
        SetupView::CreateDirectory(joined(app_data, "cache"@)),
        SetupView::WriteUserDirs(joined(app_data, "config"@)),
        SetupView::Show {
            source: joined(app_data, "data"@),
            target: joined("var"@, "data"@),
            read_only: false,
        },
        SetupView::Show {
            source: joined(app_data, "config"@),
            target: joined("var"@, "config"@),
            read_only: false,
        },
        SetupView::Show {
            source: joined(app_data, "cache"@),
            target: joined("var"@, "cache"@),
            read_only: false,
        },
    ]
}

fn add_base(steps: &mut Vec<SetupStep>, app_dir: &FsPath, runtime_dir: &FsPath, app_data: &FsPath)
    ensures
        views(final(steps)@) == views(old(steps)@) + base_steps(
            app_dir@,
            runtime_dir@,
            app_data@,
        ),
{
    let ghost start = views(steps@);
    let var = FsPath::new("var");
    push_step(
        steps,
        SetupStep::Show {
            source: runtime_dir.join("files"),
            target: FsPath::new("usr"),
            read_only: true,
        },
    );
    push_step(
        steps,
        SetupStep::Show {
            source: app_dir.join("files"),
            target: FsPath::new("app"),
            read_only: true,
        },
    );
    push_step(steps, SetupStep::CreateDirectory(app_data.join("data")));
    push_step(steps, SetupStep::CreateDirectory(app_data.join("config")));
    push_step(steps, SetupStep::CreateDirectory(app_data.join("cache")));
    push_step(steps, SetupStep::WriteUserDirs(app_data.join("config")));
    push_step(
        steps,
        SetupStep::Show {
            source: app_data.join("data"),
            target: var.join("data"),
            read_only: false,
        },
    );
    push_step(
        steps,
        SetupStep::Show {
            source: app_data.join("config"),
            target: var.join("config"),
            read_only: false,
        },
    );
    push_step(
        steps,
        SetupStep::Show {
            source: app_data.join("cache"),
            target: var.join("cache"),
            read_only: false,
        },
    );
    assert(views(steps@) =~= start + base_steps(app_dir@, runtime_dir@, app_data@));
}

/// The extensions of the application.
pub open spec fn extension_steps(extensions: Seq<ExtensionView>) -> Seq<SetupView> {
    Seq::new(
        extensions.len(),
        |i: int|
            SetupView::Show {
                source: joined(extensions[i].checkout, "files"@),
                target: joined("app"@, extensions[i].mount),
                read_only: true,
            },
    )
}

fn add_extensions(steps: &mut Vec<SetupStep>, extensions: &[AppExtension])
    ensures
        views(final(steps)@) == views(old(steps)@) + extension_steps(views(extensions@)),
{
    let ghost start = views(steps@);
    let ghost all = extension_steps(views(extensions@));
    let app = FsPath::new("app");
    let mut i: usize = 0;
    assert(start + all.take(0) =~= start);
    while i < extensions.len()
        invariant
            i <= extensions@.len(),
            all == extension_steps(views(extensions@)),
            app@ == "app"@,
            views(steps@) == start + all.take(i as int),
        decreases extensions@.len() - i,
    {
        push_step(
            steps,
            SetupStep::Show {
                source: extensions[i].checkout_dir.join("files"),
                target: app.join_path(&extensions[i].app_mount_relative),
                read_only: true,
            },
        );
        assert(views(extensions@)[i as int] == extensions@[i as int]@);
        assert(views(steps@) =~= start + all.take(i + 1));
        i += 1;
    }
    assert(all.take(i as int) =~= all);
}

/// Things of the host, where nothing can be written. One whose place is taken is left out.
pub open spec fn host_steps(mounts: Seq<(Seq<char>, Seq<char>)>, taken: Option<Seq<char>>) -> Result<
    Seq<SetupView>,
    Refused,
>
    decreases mounts.len(),
{
    if mounts.len() == 0 {
        Ok(Seq::empty())
    } else {
        match host_steps(mounts.drop_last(), taken) {
            Err(refused) => Err(refused),
            Ok(before) => match chroot_relative(mounts.last().1) {
                None => Err(Refused { grant: true, path: mounts.last().1 }),
                Some(target) => if taken is Some && same_path(target, taken->0) {
                    Ok(before)
                } else {
                    Ok(
                        before.push(
                            SetupView::Show { source: mounts.last().0, target, read_only: true },
                        ),
                    )
                },
            },
        }
    }
}

proof fn lemma_host_refused(
    mounts: Seq<(Seq<char>, Seq<char>)>,
    taken: Option<Seq<char>>,
    n: int,
)
    requires
        0 <= n <= mounts.len(),
        host_steps(mounts.take(n), taken) is Err,
    ensures
        host_steps(mounts, taken) == host_steps(mounts.take(n), taken),
    decreases mounts.len(),
{
    if n == mounts.len() {
        assert(mounts.take(n) =~= mounts);
    } else {
        assert(mounts.drop_last().take(n) =~= mounts.take(n));
        lemma_host_refused(mounts.drop_last(), taken, n);
    }
}

pub open spec fn taken_place(taken: Option<&FsPath>) -> Option<Seq<char>> {
    match taken {
        Some(path) => Some(path@),
        None => None,
    }
}

/// Whether adding a part did what the part is: its steps, or why it stopped.
pub open spec fn added(
    before: Seq<SetupView>,
    after: Seq<SetupView>,
    result: Result<(), SetupError>,
    part: Result<Seq<SetupView>, Refused>,
) -> bool {
    match (result, part) {
        (Ok(_), Ok(more)) => after == before + more,
        (Err(error), Err(refused)) => tells(error, refused),
        _ => false,
    }
}

fn add_host_mounts(steps: &mut Vec<SetupStep>, mounts: &[HostMount], taken: Option<&FsPath>) -> (r:
    Result<(), SetupError>)
    ensures
        added(
            views(old(steps)@),
            views(final(steps)@),
            r,
            host_steps(views(mounts@), taken_place(taken)),
        ),
{
    let ghost start = views(steps@);
    let ghost all = views(mounts@);
    let ghost place = taken_place(taken);
    let mut i: usize = 0;
    let ghost more = Seq::<SetupView>::empty();
    assert(all.take(0) =~= Seq::<(Seq<char>, Seq<char>)>::empty());
    assert(start + more =~= start);
    while i < mounts.len()
        invariant
            i <= mounts@.len(),
            all == views(mounts@),
            place == taken_place(taken),
            start == views(old(steps)@),
            host_steps(all.take(i as int), place) == Ok::<Seq<SetupView>, Refused>(more),
            views(steps@) == start + more,
        decreases mounts@.len() - i,
    {
        let ghost next = all.take(i + 1);
        assert(next.drop_last() =~= all.take(i as int));
        assert(next.last() == mounts@[i as int]@);
        let target = match grant_target(&mounts[i].sandbox_path) {
            Ok(target) => target,
            Err(error) => {
                proof {
                    lemma_host_refused(all, place, i + 1);
                }
                return Err(error);
            },
        };
        let skip = match taken {
            Some(path) => target.same_as(path),
            None => false,
        };
        if !skip {
            let step = SetupStep::Show {
                source: mounts[i].host_path.clone(),
                target,
                read_only: true,
            };
            let ghost before = more;
            proof {
                more = more.push(step@);
                assert((start + before).push(step@) =~= start + more);
            }
            push_step(steps, step);
        }
        i += 1;
    }
    assert(all.take(i as int) =~= all);
    Ok(())
}

/// What the application was granted.
pub open spec fn grant_steps(grants: Seq<GrantView>) -> Result<Seq<SetupView>, Refused>
    decreases grants.len(),
{
    if grants.len() == 0 {
        Ok(Seq::empty())
    } else {
        match grant_steps(grants.drop_last()) {
            Err(refused) => Err(refused),
            Ok(before) => match chroot_relative(grants.last().sandbox_path) {
                None => Err(Refused { grant: true, path: grants.last().sandbox_path }),
                Some(target) => Ok(
                    before.push(
                        SetupView::Show {
                            source: grants.last().host_path,
                            target,
                            read_only: grants.last().access == AccessMode::ReadOnly,
                        },
                    ),
                ),
            },
        }
    }
}

proof fn lemma_grant_refused(grants: Seq<GrantView>, n: int)
    requires
        0 <= n <= grants.len(),
        grant_steps(grants.take(n)) is Err,
    ensures
        grant_steps(grants) == grant_steps(grants.take(n)),
    decreases grants.len(),
{
    if n == grants.len() {
        assert(grants.take(n) =~= grants);
    } else {
        assert(grants.drop_last().take(n) =~= grants.take(n));
        lemma_grant_refused(grants.drop_last(), n);
    }
}

fn add_grants(steps: &mut Vec<SetupStep>, grants: &[HostPathGrant]) -> (r: Result<(), SetupError>)
    ensures
        added(views(old(steps)@), views(final(steps)@), r, grant_steps(views(grants@))),
{
    let ghost start = views(steps@);
    let ghost all = views(grants@);
    let mut i: usize = 0;
    let ghost more = Seq::<SetupView>::empty();
    assert(all.take(0) =~= Seq::<GrantView>::empty());
    assert(start + more =~= start);
    while i < grants.len()
        invariant
            i <= grants@.len(),
            all == views(grants@),
            start == views(old(steps)@),
            grant_steps(all.take(i as int)) == Ok::<Seq<SetupView>, Refused>(more),
            views(steps@) == start + more,
        decreases grants@.len() - i,
    {
        let ghost next = all.take(i + 1);
        assert(next.drop_last() =~= all.take(i as int));
        assert(next.last() == grants@[i as int]@);
        let target = match grants[i].sandbox_target_relative() {
            Ok(target) => target,
            Err(error) => {
                proof {
                    lemma_grant_refused(all, i + 1);
                }
                return Err(SetupError::Grant(error));
            },
        };
        let step = SetupStep::Show {
            source: grants[i].host_path().clone(),
            target,
            read_only: grants[i].access().is_read_only(),
        };
        let ghost before = more;
        proof {
            more = more.push(step@);
            assert((start + before).push(step@) =~= start + more);
        }
        push_step(steps, step);
        i += 1;
    }
    assert(all.take(i as int) =~= all);
    Ok(())
}

/// The options under which only the user can look into a directory in memory.
pub open spec fn mask_options(uid: u32, gid: u32) -> Seq<char> {
    "mode=0700,uid="@ + decimal(uid as nat) + ",gid="@ + decimal(gid as nat)
}

/// The directories that are hidden behind empty ones.
pub open spec fn mask_steps(roots: Seq<Seq<char>>, options: Seq<char>) -> Result<
    Seq<SetupView>,
    Refused,
>
    decreases roots.len(),
{
    if roots.len() == 0 {
        Ok(Seq::empty())
    } else {
        match mask_steps(roots.drop_last(), options) {
            Err(refused) => Err(refused),
            Ok(before) => match below_root(roots.last()) {
                None => Err(Refused { grant: false, path: roots.last() }),
                Some(target) => Ok(before.push(SetupView::Tmpfs { target, options })),
            },
        }
    }
}

proof fn lemma_mask_refused(roots: Seq<Seq<char>>, options: Seq<char>, n: int)
    requires
        0 <= n <= roots.len(),
        mask_steps(roots.take(n), options) is Err,
    ensures
        mask_steps(roots, options) == mask_steps(roots.take(n), options),
    decreases roots.len(),
{
    if n == roots.len() {
        assert(roots.take(n) =~= roots);
    } else {
        assert(roots.drop_last().take(n) =~= roots.take(n));
        lemma_mask_refused(roots.drop_last(), options, n);
    }
}

fn add_masks(steps: &mut Vec<SetupStep>, roots: &[FsPath], options: &str) -> (r: Result<
    (),
    SetupError,
>)
    ensures
        added(
            views(old(steps)@),
            views(final(steps)@),
            r,
            mask_steps(path_texts(roots@), options@),
        ),
{
    let ghost start = views(steps@);
    let ghost all = path_texts(roots@);
    let mut i: usize = 0;
    let ghost more = Seq::<SetupView>::empty();
    assert(all.take(0) =~= Seq::<Seq<char>>::empty());
    assert(start + more =~= start);
    while i < roots.len()
        invariant
            i <= roots@.len(),
            all == path_texts(roots@),
            start == views(old(steps)@),
            mask_steps(all.take(i as int), options@) == Ok::<Seq<SetupView>, Refused>(more),
            views(steps@) == start + more,
        decreases roots@.len() - i,
    {
        let ghost next = all.take(i + 1);
        assert(next.drop_last() =~= all.take(i as int));
        assert(next.last() == roots@[i as int]@);
        let target = match place_below_root(&roots[i]) {
            Ok(target) => target,
            Err(error) => {
                proof {
                    lemma_mask_refused(all, options@, i + 1);
                }
                return Err(error);
            },
        };
        let step = SetupStep::Tmpfs { target, options: options.to_string() };
        let ghost before = more;
        proof {
            more = more.push(step@);
            assert((start + before).push(step@) =~= start + more);
        }
        push_step(steps, step);
        i += 1;
    }
    assert(all.take(i as int) =~= all);
    Ok(())
}

/// What the application keeps, under the name that it has on the host.
pub open spec fn app_data_steps(app_data: Seq<char>) -> Result<Seq<SetupView>, Refused> {
    match below_root(app_data) {
        None => Err(Refused { grant: false, path: app_data }),
        Some(target) => Ok(
            seq![SetupView::Show { source: app_data, target, read_only: false }],
        ),
    }
}

fn add_app_data(steps: &mut Vec<SetupStep>, app_data: &FsPath) -> (r: Result<(), SetupError>)
    ensures
        added(views(old(steps)@), views(final(steps)@), r, app_data_steps(app_data@)),
{
    let ghost start = views(steps@);
    let target = place_below_root(app_data)?;
    push_step(
        steps,
        SetupStep::Show { source: app_data.clone(), target, read_only: false },
    );
    assert(views(steps@) =~= start + app_data_steps(app_data@)->Ok_0);
    Ok(())
}

/// The data of the user and what hides the rest of it: what lies around the hidden directories
/// before them, and what lies in them after.
pub open spec fn data_steps(plan: FlatpakDataMountPlan, uid: u32, gid: u32) -> Result<
    Seq<SetupView>,
    Refused,
> {
    let options = mask_options(uid, gid);
    let before = grant_steps(views(plan.grants_before_mask@));
    let reserved = mask_steps(path_texts(plan.reserved_roots_to_mask@), options);
    let root = if plan.mask_app_data_root {
        mask_steps(seq![plan.app_data_root@], options)
    } else {
        Ok(Seq::empty())
    };
    let after = grant_steps(views(plan.grants_after_mask@));
    and_then(
        and_then(and_then(and_then(before, reserved), root), after),
        app_data_steps(plan.app_data@),
    )
}

fn add_data(steps: &mut Vec<SetupStep>, plan: &FlatpakDataMountPlan, uid: u32, gid: u32) -> (r:
    Result<(), SetupError>)
    ensures
        added(views(old(steps)@), views(final(steps)@), r, data_steps(*plan, uid, gid)),
{
    let ghost start = views(steps@);
    let user = render_u64(uid as u64);
    let group = render_u64(gid as u64);
    let mut options = concat3("mode=0700,uid=", &user, ",gid=");
    options.append(&group);
    add_grants(steps, plan.grants_before_mask.as_slice())?;
    let ghost a = grant_steps(views(plan.grants_before_mask@))->Ok_0;
    add_masks(steps, plan.reserved_roots_to_mask.as_slice(), &options)?;
    let ghost b = mask_steps(path_texts(plan.reserved_roots_to_mask@), options@)->Ok_0;
    assert(views(steps@) =~= start + (a + b));
    let ghost mut c = Seq::<SetupView>::empty();
    if plan.mask_app_data_root {
        let mut roots: Vec<FsPath> = Vec::new();
        roots.push(plan.app_data_root.clone());
        assert(path_texts(roots@) =~= seq![plan.app_data_root@]);
        add_masks(steps, roots.as_slice(), &options)?;
        proof {
            c = mask_steps(seq![plan.app_data_root@], options@)->Ok_0;
        }
    }
    assert(views(steps@) =~= start + (a + b + c));
    add_grants(steps, plan.grants_after_mask.as_slice())?;
    let ghost d = grant_steps(views(plan.grants_after_mask@))->Ok_0;
    assert(views(steps@) =~= start + (a + b + c + d));
    add_app_data(steps, &plan.app_data)?;
    assert(views(steps@) =~= start + (a + b + c + d + app_data_steps(plan.app_data@)->Ok_0));
    Ok(())
}

/// What else is installed, where the application may see it.
pub open spec fn projection_steps(projection: Option<FlatpakInstallationProjection>) -> Seq<
    SetupView,
> {
    match projection {
        None => Seq::empty(),
        Some(p) => seq![
            SetupView::Show { source: p.source_root@, target: p.target_root@, read_only: true },
        ] + deployment_steps(views(p.deployments@)),
    }
}

/// The deployments that are shown.
pub open spec fn deployment_steps(deployments: Seq<(Seq<char>, Seq<char>)>) -> Seq<SetupView> {
    Seq::new(
        deployments.len(),
        |i: int|
            SetupView::Show {
                source: deployments[i].0,
                target: deployments[i].1,
                read_only: true,
            },
    )
}

fn add_projection(steps: &mut Vec<SetupStep>, projection: &Option<FlatpakInstallationProjection>)
    ensures
        views(final(steps)@) == views(old(steps)@) + projection_steps(*projection),
{
    let ghost start = views(steps@);
    if let Some(p) = projection {
        push_step(
            steps,
            SetupStep::Show {
                source: p.source_root.clone(),
                target: p.target_root.clone(),
                read_only: true,
            },
        );
        let ghost first = views(steps@);
        let ghost all = deployment_steps(views(p.deployments@));
        let mut i: usize = 0;
        assert(first + all.take(0) =~= first);
        while i < p.deployments.len()
            invariant
                i <= p.deployments@.len(),
                all == deployment_steps(views(p.deployments@)),
                views(steps@) == first + all.take(i as int),
            decreases p.deployments@.len() - i,
        {
            let deployment: &ProjectedDeployment = &p.deployments[i];
            push_step(
                steps,
                SetupStep::Show {
                    source: deployment.source.clone(),
                    target: deployment.target.clone(),
                    read_only: true,
                },
            );
            assert(views(p.deployments@)[i as int] == p.deployments@[i as int]@);
            assert(views(steps@) =~= first + all.take(i + 1));
            i += 1;
        }
        assert(all.take(i as int) =~= all);
    }
    assert(views(steps@) =~= start + projection_steps(*projection));
}

/// What a sandbox shows of the session: its directory for what runs, and the documents that the
/// portal hands out.
pub open spec fn session_steps(xdg_runtime_dir: Seq<char>, doc_dir: Option<Seq<char>>, uid: u32) -> Seq<
    SetupView,
> {
    let place = "run/user/"@ + decimal(uid as nat);
    let session = SetupView::Show {
        source: xdg_runtime_dir,
        target: place,
        read_only: false,
    };
    match doc_dir {
        None => seq![session],
        Some(directory) => seq![
            session,
            SetupView::Show { source: directory, target: place + "/doc"@, read_only: true },
            SetupView::AttachPortal,
        ],
    }
}

/// What a sandbox has of the system.
pub open spec fn system_steps() -> Seq<SetupView> {
    seq![
        SetupView::Show { source: "/tmp"@, target: "tmp"@, read_only: false },
        SetupView::Special { target: "dev"@, fs_type: "devfs"@ },
        SetupView::Special { target: "dev/fd"@, fs_type: "fdescfs"@ },
        SetupView::Tmpfs { target: "dev/shm"@, options: "mode=1777"@ },
        SetupView::Special { target: "proc"@, fs_type: "linprocfs"@ },
        SetupView::Special { target: "sys"@, fs_type: "linsysfs"@ },
    ]
}

fn add_session(
    steps: &mut Vec<SetupStep>,
    xdg_runtime_dir: &FsPath,
    doc_dir: &Option<FsPath>,
    uid: u32,
)
    ensures
        views(final(steps)@) == views(old(steps)@) + session_steps(
            xdg_runtime_dir@,
            crate::mount_operations::optional_text(*doc_dir),
            uid,
        ),
{
    let ghost start = views(steps@);
    let id = render_u64(uid as u64);
    let place = concat("run/user/", &id);
    push_step(
        steps,
        SetupStep::Show {
            source: xdg_runtime_dir.clone(),
            target: FsPath::new(&place),
            read_only: false,
        },
    );
    if let Some(directory) = doc_dir {
        let documents = concat(&place, "/doc");
        push_step(
            steps,
            SetupStep::Show {
                source: directory.clone(),
                target: FsPath { text: documents },
                read_only: true,
            },
        );
        push_step(steps, SetupStep::AttachPortal);
    }
    assert(views(steps@) =~= start + session_steps(
        xdg_runtime_dir@,
        crate::mount_operations::optional_text(*doc_dir),
        uid,
    ));
}

fn add_system(steps: &mut Vec<SetupStep>)
    ensures
        views(final(steps)@) == views(old(steps)@) + system_steps(),
{
    let ghost start = views(steps@);
    push_step(
        steps,
        SetupStep::Show {
            source: FsPath::new("/tmp"),
            target: FsPath::new("tmp"),
            read_only: false,
        },
    );
    push_step(
        steps,
        SetupStep::Special { target: FsPath::new("dev"), fs_type: "devfs".to_string() },
    );
    push_step(
        steps,
        SetupStep::Special { target: FsPath::new("dev/fd"), fs_type: "fdescfs".to_string() },
    );
    push_step(
        steps,
        SetupStep::Tmpfs { target: FsPath::new("dev/shm"), options: "mode=1777".to_string() },
    );
    push_step(
        steps,
        SetupStep::Special { target: FsPath::new("proc"), fs_type: "linprocfs".to_string() },
    );
    push_step(
        steps,
        SetupStep::Special { target: FsPath::new("sys"), fs_type: "linsysfs".to_string() },
    );
    assert(views(steps@) =~= start + system_steps());
}

/// Whether one of the things of the host is shown at a place.
pub open spec fn shows_at(mounts: Seq<(Seq<char>, Seq<char>)>, target: Seq<char>) -> bool {
    exists|i: int|
        0 <= i < mounts.len() && (chroot_relative((#[trigger] mounts[i]).1) matches Some(place)
            && same_path(place, target))
}

/// What makes the network work, unless its place is taken already.
pub open spec fn network_steps(
    network: Option<(Seq<char>, Seq<char>)>,
    compat_target: Seq<char>,
    graphics: Seq<(Seq<char>, Seq<char>)>,
) -> Result<Seq<SetupView>, Refused> {
    match network {
        None => Ok(Seq::empty()),
        Some((source, path)) => match chroot_relative(path) {
            None => Err(Refused { grant: true, path }),
            Some(target) => if same_path(target, compat_target) || shows_at(graphics, target) {
                Ok(Seq::empty())
            } else {
                Ok(seq![SetupView::Show { source, target, read_only: true }])
            },
        },
    }
}

pub open spec fn host_mount_view(mount: Option<HostMount>) -> Option<(Seq<char>, Seq<char>)> {
    match mount {
        Some(mount) => Some(mount@),
        None => None,
    }
}

fn is_shown_at(mounts: &[HostMount], target: &FsPath) -> (r: bool)
    ensures
        r == shows_at(views(mounts@), target@),
{
    let ghost all = views(mounts@);
    let mut i: usize = 0;
    while i < mounts.len()
        invariant
            i <= mounts@.len(),
            all == views(mounts@),
            forall|j: int|
                0 <= j < i ==> !(chroot_relative((#[trigger] all[j]).1) matches Some(place)
                    && same_path(place, target@)),
        decreases mounts@.len() - i,
    {
        assert(all[i as int] == mounts@[i as int]@);
        if let Ok(place) = absolute_to_chroot_relative(&mounts[i].sandbox_path) {
            if place.same_as(target) {
                return true;
            }
        }
        i += 1;
    }
    false
}

fn add_network(
    steps: &mut Vec<SetupStep>,
    network: &Option<HostMount>,
    compat_target: &FsPath,
    graphics: &[HostMount],
) -> (r: Result<(), SetupError>)
    ensures
        added(
            views(old(steps)@),
            views(final(steps)@),
            r,
            network_steps(host_mount_view(*network), compat_target@, views(graphics@)),
        ),
{
    let ghost start = views(steps@);
    if let Some(mount) = network {
        let target = grant_target(&mount.sandbox_path)?;
        if !target.same_as(compat_target) && !is_shown_at(graphics, &target) {
            push_step(
                steps,
                SetupStep::Show { source: mount.host_path.clone(), target, read_only: true },
            );
        }
    }
    assert(views(steps@) =~= start + network_steps(
        host_mount_view(*network),
        compat_target@,
        views(graphics@),
    )->Ok_0);
    Ok(())
}

/// What is to be mounted in a sandbox.
#[derive(Debug)]
pub struct SetupInputs {
    pub app_dir: FsPath,
    pub runtime_dir: FsPath,
    pub app_data: FsPath,
    pub uid: u32,
    pub gid: u32,
    pub app_extensions: Vec<AppExtension>,
    /// What lets programs for Linux run.
    pub linux_compat: RuntimeMount,
    pub graphics: Vec<HostMount>,
    pub network: Option<HostMount>,
    pub system_bus: Option<RuntimeMount>,
    pub video: Vec<HostMount>,
    pub data_plan: FlatpakDataMountPlan,
    /// What else is installed, where the application may see it.
    pub projection: Option<FlatpakInstallationProjection>,
    pub cursor: Vec<HostMount>,
    pub fonts: Vec<HostMount>,
    pub xdg_runtime_dir: FsPath,
    pub doc_dir: Option<FsPath>,
    pub sysfs: Vec<HostMount>,
}

/// One thing that is shown where nothing can be written.
pub open spec fn shown_once(mount: (Seq<char>, Seq<char>)) -> Seq<SetupView> {
    seq![SetupView::Show { source: mount.0, target: mount.1, read_only: true }]
}

/// What lets programs for Linux run on the host: the compatibility, the graphics, the network, the
/// system bus and the video acceleration.
pub open spec fn resource_steps(inputs: SetupInputs) -> Result<Seq<SetupView>, Refused> {
    let compat = inputs.linux_compat@;
    let graphics = host_steps(views(inputs.graphics@), Some(compat.1));
    let network = network_steps(
        host_mount_view(inputs.network),
        compat.1,
        views(inputs.graphics@),
    );
    let bus = match inputs.system_bus {
        Some(mount) => shown_once(mount@),
        None => Seq::empty(),
    };
    let video = host_steps(views(inputs.video@), None);
    and_then(
        and_then(and_then(and_then(Ok(shown_once(compat)), graphics), network), Ok(bus)),
        video,
    )
}

/// Everything that is mounted in a sandbox, in order.
pub open spec fn setup_steps(inputs: SetupInputs) -> Result<Seq<SetupView>, Refused> {
    let base = base_steps(inputs.app_dir@, inputs.runtime_dir@, inputs.app_data@)
        + extension_steps(views(inputs.app_extensions@));
    let data = data_steps(inputs.data_plan, inputs.uid, inputs.gid);
    let projection = projection_steps(inputs.projection);
    let cursor = host_steps(views(inputs.cursor@), None);
    let fonts = host_steps(views(inputs.fonts@), None);
    let rest = session_steps(
        inputs.xdg_runtime_dir@,
        crate::mount_operations::optional_text(inputs.doc_dir),
        inputs.uid,
    ) + system_steps();
    let sysfs = host_steps(views(inputs.sysfs@), None);
    and_then(
        and_then(
            and_then(
                and_then(
                    and_then(and_then(and_then(Ok(base), resource_steps(inputs)), data), Ok(projection)),
                    cursor,
                ),
                fonts,
            ),
            Ok(rest),
        ),
        sysfs,
    )
}

fn add_resources(steps: &mut Vec<SetupStep>, inputs: &SetupInputs) -> (r: Result<(), SetupError>)
    ensures
        added(views(old(steps)@), views(final(steps)@), r, resource_steps(*inputs)),
{
    let ghost start = views(steps@);
    let compat = &inputs.linux_compat;
    push_step(
        steps,
        SetupStep::Show {
            source: compat.source.clone(),
            target: compat.target.clone(),
            read_only: true,
        },
    );
    let ghost a = shown_once(compat@);
    assert(views(steps@) =~= start + a);
    add_host_mounts(steps, inputs.graphics.as_slice(), Some(&compat.target))?;
    let ghost b = host_steps(views(inputs.graphics@), Some(compat@.1))->Ok_0;
    assert(views(steps@) =~= start + (a + b));
    add_network(steps, &inputs.network, &compat.target, inputs.graphics.as_slice())?;
    let ghost c = network_steps(
        host_mount_view(inputs.network),
        compat@.1,
        views(inputs.graphics@),
    )->Ok_0;
    assert(views(steps@) =~= start + (a + b + c));
    let ghost mut d = Seq::<SetupView>::empty();
    if let Some(mount) = &inputs.system_bus {
        push_step(
            steps,
            SetupStep::Show {
                source: mount.source.clone(),
                target: mount.target.clone(),
                read_only: true,
            },
        );
        proof {
            d = shown_once(mount@);
        }
    }
    assert(views(steps@) =~= start + (a + b + c + d));
    add_host_mounts(steps, inputs.video.as_slice(), None)?;
    assert(views(steps@) =~= start + (a + b + c + d + host_steps(
        views(inputs.video@),
        None,
    )->Ok_0));
    Ok(())
}

impl ChrootNullfsBackend {
    /// Everything that is mounted in a sandbox, in order.
    pub fn prepare(inputs: &SetupInputs) -> (r: Result<Vec<SetupStep>, SetupError>)
        ensures
            match (r, setup_steps(*inputs)) {
                (Ok(steps), Ok(plan)) => views(steps@) == plan,
                (Err(error), Err(refused)) => tells(error, refused),
                _ => false,
            },
    {
        let mut steps: Vec<SetupStep> = Vec::new();
        assert(views(steps@) =~= Seq::<SetupView>::empty());
        add_base(&mut steps, &inputs.app_dir, &inputs.runtime_dir, &inputs.app_data);
        add_extensions(&mut steps, inputs.app_extensions.as_slice());
        let ghost a = views(steps@);
        assert(a =~= base_steps(inputs.app_dir@, inputs.runtime_dir@, inputs.app_data@)
            + extension_steps(views(inputs.app_extensions@)));
        add_resources(&mut steps, inputs)?;
        add_data(&mut steps, &inputs.data_plan, inputs.uid, inputs.gid)?;
        add_projection(&mut steps, &inputs.projection);
        add_host_mounts(&mut steps, inputs.cursor.as_slice(), None)?;
        add_host_mounts(&mut steps, inputs.fonts.as_slice(), None)?;
        let ghost b = views(steps@);
        add_session(&mut steps, &inputs.xdg_runtime_dir, &inputs.doc_dir, inputs.uid);
        add_system(&mut steps);
        assert(views(steps@) =~= b + (session_steps(
            inputs.xdg_runtime_dir@,
            crate::mount_operations::optional_text(inputs.doc_dir),
            inputs.uid,
        ) + system_steps()));
        add_host_mounts(&mut steps, inputs.sysfs.as_slice(), None)?;
        Ok(steps)
    }
}

/// Whether a step shows something where nothing can be written.
pub open spec fn shows_read_only(step: SetupView) -> bool {
    step matches SetupView::Show { read_only, .. } && read_only
}

/// Nothing can be written through what a sandbox shows of the resources of the host.
pub proof fn lemma_resources_read_only(
    mounts: Seq<(Seq<char>, Seq<char>)>,
    taken: Option<Seq<char>>,
)
    ensures
        host_steps(mounts, taken) matches Ok(steps) ==> steps.len() <= mounts.len() && forall|i: int|
            0 <= i < steps.len() ==> shows_read_only(#[trigger] steps[i]),
    decreases mounts.len(),
{
    if mounts.len() > 0 {
        lemma_resources_read_only(mounts.drop_last(), taken);
    }
}

/// A grant can be written through if and only if it says so, and is shown where it says.
pub proof fn lemma_grants_keep_their_access(grants: Seq<GrantView>)
    ensures
        grant_steps(grants) matches Ok(steps) ==> steps.len() == grants.len() && forall|i: int|
            0 <= i < grants.len() ==> #[trigger] steps[i] == (SetupView::Show {
                source: grants[i].host_path,
                target: chroot_relative(grants[i].sandbox_path)->0,
                read_only: grants[i].access == AccessMode::ReadOnly,
            }),
    decreases grants.len(),
{
    if grants.len() > 0 {
        let head = grants.drop_last();
        lemma_grants_keep_their_access(head);
        if let Ok(steps) = grant_steps(grants) {
            let before = grant_steps(head)->Ok_0;
            assert forall|i: int| 0 <= i < grants.len() implies #[trigger] steps[i] == (
            SetupView::Show {
                source: grants[i].host_path,
                target: chroot_relative(grants[i].sandbox_path)->0,
                read_only: grants[i].access == AccessMode::ReadOnly,
            }) by {
                if i < head.len() {
                    assert(steps[i] == before[i]);
                    assert(head[i] == grants[i]);
                }
            }
        }
    }
}

/// Every directory that is hidden is hidden behind an empty one of its own.
pub proof fn lemma_masks_cover(roots: Seq<Seq<char>>, options: Seq<char>)
    ensures
        mask_steps(roots, options) matches Ok(steps) ==> steps.len() == roots.len() && forall|
            i: int,
        |
            0 <= i < roots.len() ==> #[trigger] steps[i] == (SetupView::Tmpfs {
                target: below_root(roots[i])->0,
                options,
            }),
    decreases roots.len(),
{
    if roots.len() > 0 {
        let head = roots.drop_last();
        lemma_masks_cover(head, options);
        if let Ok(steps) = mask_steps(roots, options) {
            let before = mask_steps(head, options)->Ok_0;
            assert forall|i: int| 0 <= i < roots.len() implies #[trigger] steps[i] == (
            SetupView::Tmpfs { target: below_root(roots[i])->0, options }) by {
                if i < head.len() {
                    assert(steps[i] == before[i]);
                    assert(head[i] == roots[i]);
                }
            }
        }
    }
}

/// The directories that are hidden, the directory of all applications' data last.
pub open spec fn hidden_roots(plan: FlatpakDataMountPlan) -> Seq<Seq<char>> {
    if plan.mask_app_data_root {
        path_texts(plan.reserved_roots_to_mask@).push(plan.app_data_root@)
    } else {
        path_texts(plan.reserved_roots_to_mask@)
    }
}

/// What lies around the hidden directories is mounted before these are hidden, and what was
/// granted in them after; the application's own data comes last, and can be written.
pub proof fn lemma_hidden_between_grants(plan: FlatpakDataMountPlan, uid: u32, gid: u32)
    requires
        data_steps(plan, uid, gid) is Ok,
    ensures
        ({
            let steps = data_steps(plan, uid, gid)->Ok_0;
            let before = views(plan.grants_before_mask@);
            let hidden = hidden_roots(plan);
            let after = views(plan.grants_after_mask@);
            let n = before.len() as int;
            let m = n + hidden.len();
            &&& steps.len() == m + after.len() + 1
            &&& forall|i: int|
                0 <= i < before.len() ==> #[trigger] steps[i] == grant_steps(before)->Ok_0[i]
            &&& forall|i: int|
                n <= i < m ==> #[trigger] steps[i] == (SetupView::Tmpfs {
                    target: below_root(hidden[i - n])->0,
                    options: mask_options(uid, gid),
                })
            &&& forall|i: int|
                m <= i < m + after.len() ==> #[trigger] steps[i] == grant_steps(after)->Ok_0[i - m]
            &&& steps.last() == (SetupView::Show {
                source: plan.app_data@,
                target: below_root(plan.app_data@)->0,
                read_only: false,
            })
        }),
{
    let options = mask_options(uid, gid);
    let before = views(plan.grants_before_mask@);
    let reserved = path_texts(plan.reserved_roots_to_mask@);
    let after = views(plan.grants_after_mask@);
    lemma_grants_keep_their_access(before);
    lemma_grants_keep_their_access(after);
    lemma_masks_cover(reserved, options);
    lemma_masks_cover(seq![plan.app_data_root@], options);
    let a = grant_steps(before)->Ok_0;
    let b = mask_steps(reserved, options)->Ok_0;
    let c = if plan.mask_app_data_root {
        mask_steps(seq![plan.app_data_root@], options)->Ok_0
    } else {
        Seq::empty()
    };
    let d = grant_steps(after)->Ok_0;
    let e = app_data_steps(plan.app_data@)->Ok_0;
    let steps = data_steps(plan, uid, gid)->Ok_0;
    assert(steps == a + b + c + d + e);
    let hidden = hidden_roots(plan);
    let n = before.len() as int;
    let m = n + hidden.len();
    assert((b + c).len() == hidden.len());
    assert forall|i: int| n <= i < m implies #[trigger] steps[i] == (SetupView::Tmpfs {
        target: below_root(hidden[i - n])->0,
        options,
    }) by {
        if i - n < reserved.len() {
            assert(steps[i] == b[i - n]);
            assert(hidden[i - n] == reserved[i - n]);
        } else {
            assert(steps[i] == c[i - n - reserved.len()]);
            assert(c[0] == (SetupView::Tmpfs {
                target: below_root(seq![plan.app_data_root@][0])->0,
                options,
            }));
        }
    }
}

} // verus!
