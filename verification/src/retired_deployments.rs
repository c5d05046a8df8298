//! Which deployments are used by whom, and which are removed.

use crate::flatpak_metadata::{last_value, value, value_of};
use crate::installation::Installation;
use crate::path::{joined, path_texts, same_path, within, FsPath};
use crate::recovery_order::{is_named, names};
use crate::state::{AppRecord, AppView, RuntimeRecord, RuntimeView, StateValues};
use crate::text::{concat, lemma_views_push, text_eq, views};
use vstd::prelude::*;

verus! {

/// The path that was written down.
pub fn absolute(paths: &Installation, path: &FsPath) -> (r: FsPath)
    ensures
        r@ == joined(paths.data_root@, path@),
{
    paths.absolute_data_path(path)
}

pub open spec fn optional_runtime(runtime: Option<RuntimeRecord>) -> Option<RuntimeView> {
    match runtime {
        Some(runtime) => Some(runtime@),
        None => None,
    }
}

/// An application pointed at the current deployment of its runtime, where it is not already.
pub open spec fn rebound(app: AppView, current: Option<RuntimeView>) -> Option<AppView> {
    match current {
        None => None,
        Some(runtime) => if app.runtime_commit == runtime.runtime_commit && same_path(
            app.runtime_dir,
            runtime.runtime_dir,
        ) {
            None
        } else {
            Some(
                AppView {
                    runtime_commit: runtime.runtime_commit,
                    runtime_dir: runtime.runtime_dir,
                    ..app
                },
            )
        },
    }
}

/// The first `n` applications that have to be written down anew.
pub open spec fn rebound_apps(
    apps: Seq<AppView>,
    current: Seq<Option<RuntimeView>>,
    n: int,
) -> Seq<AppView>
    decreases n,
{
    if n <= 0 {
        Seq::empty()
    } else {
        let before = rebound_apps(apps, current, n - 1);
        match rebound(apps[n - 1], current[n - 1]) {
            Some(app) => before.push(app),
            None => before,
        }
    }
}

/// What is current for each application.
pub open spec fn current_views(current: Seq<Option<RuntimeRecord>>) -> Seq<Option<RuntimeView>> {
    Seq::new(current.len(), |i: int| optional_runtime(current[i]))
}

/// The applications that have to be written down anew so that each points at the current
/// deployment of its runtime; `current` is the record of the runtime of each.
pub fn reconcile_runtime_bindings(apps: &[AppRecord], current: &[Option<RuntimeRecord>]) -> (r: Vec<
    AppRecord,
>)
    requires
        apps@.len() == current@.len(),
    ensures
        views(r@) == rebound_apps(views(apps@), current_views(current@), apps@.len() as int),
{
    let ghost all = views(apps@);
    let ghost now = current_views(current@);
    let mut out: Vec<AppRecord> = Vec::new();
    let mut i: usize = 0;
    assert(views(out@) =~= rebound_apps(all, now, 0));
    while i < apps.len()
        invariant
            i <= apps@.len(),
            apps@.len() == current@.len(),
            all == views(apps@),
            now == current_views(current@),
            views(out@) == rebound_apps(all, now, i as int),
        decreases apps@.len() - i,
    {
        assert(all[i as int] == apps@[i as int]@);
        assert(now[i as int] == optional_runtime(current@[i as int]));
        if let Some(runtime) = &current[i] {
            let app = &apps[i];
            if !(text_eq(&app.runtime_commit, &runtime.runtime_commit) && app.runtime_dir.same_as(
                &runtime.runtime_dir,
            )) {
                let mut changed = app.clone();
                changed.runtime_commit = runtime.runtime_commit.clone();
                changed.runtime_dir = runtime.runtime_dir.clone();
                proof {
                    lemma_views_push(out@, changed);
                }
                out.push(changed);
            }
        }
        i += 1;
    }
    out
}

/// After reconciling, an application points at the current deployment of its runtime, and nothing
/// else of it has changed; doing so again changes nothing.
pub proof fn lemma_rebound(app: AppView, runtime: RuntimeView)
    ensures
        ({
            let after = match rebound(app, Some(runtime)) {
                Some(changed) => changed,
                None => app,
            };
            &&& after.runtime_commit == runtime.runtime_commit
            &&& same_path(after.runtime_dir, runtime.runtime_dir)
            &&& after == (AppView {
                runtime_commit: after.runtime_commit,
                runtime_dir: after.runtime_dir,
                ..app
            })
            &&& rebound(after, Some(runtime)) is None
        }),
{
}

/// Whether metadata of an application names a runtime.
pub open spec fn names_runtime(metadata: Seq<char>, runtime_ref: Seq<char>) -> bool {
    value_of(metadata, "Application"@, "runtime"@) == Some(runtime_ref)
}

/// Whether an application needs a runtime: one with a record, or one that is only deployed, by its
/// metadata.
pub fn runtime_is_required(apps: &[AppRecord], metadata: &[String], runtime_ref: &str) -> (r: bool)
    ensures
        r == ((exists|i: int|
            0 <= i < apps@.len() && (#[trigger] apps@[i])@.runtime_ref == runtime_ref@) || (exists|
            i: int,
        |
            0 <= i < metadata@.len() && names_runtime((#[trigger] metadata@[i])@, runtime_ref@))),
{
    let mut i: usize = 0;
    while i < apps.len()
        invariant
            i <= apps@.len(),
            forall|j: int| 0 <= j < i ==> (#[trigger] apps@[j])@.runtime_ref != runtime_ref@,
        decreases apps@.len() - i,
    {
        if text_eq(&apps[i].runtime_ref, runtime_ref) {
            assert(apps@[i as int]@.runtime_ref == runtime_ref@);
            return true;
        }
        i += 1;
    }
    let mut i: usize = 0;
    while i < metadata.len()
        invariant
            i <= metadata@.len(),
            forall|j: int|
                0 <= j < apps@.len() ==> (#[trigger] apps@[j])@.runtime_ref != runtime_ref@,
            forall|j: int|
                0 <= j < i ==> !names_runtime((#[trigger] metadata@[j])@, runtime_ref@),
        decreases metadata@.len() - i,
    {
        if let Some(named) = value(&metadata[i], "Application", "runtime") {
            if text_eq(&named, runtime_ref) {
                assert(names_runtime(metadata@[i as int]@, runtime_ref@));
                return true;
            }
        }
        i += 1;
    }
    false
}

/// The directories that applications use.
pub open spec fn app_directories(paths: Installation, apps: Seq<AppView>) -> Seq<Seq<char>>
    decreases apps.len(),
{
    if apps.len() == 0 {
        Seq::empty()
    } else {
        app_directories(paths, apps.drop_last()).push(
            joined(paths.data_root@, apps.last().app_dir),
        ).push(joined(paths.data_root@, apps.last().runtime_dir))
    }
}

/// The directories of runtimes.
pub open spec fn runtime_directories(paths: Installation, runtimes: Seq<RuntimeView>) -> Seq<
    Seq<char>,
> {
    Seq::new(runtimes.len(), |i: int| joined(paths.data_root@, runtimes[i].runtime_dir))
}

/// The directory that a record names under a key.
pub open spec fn named_directory(
    paths: Installation,
    run: Seq<(Seq<char>, Seq<char>)>,
    key: Seq<char>,
) -> Seq<Seq<char>> {
    match last_value(run, key) {
        Some(path) => seq![joined(paths.data_root@, path)],
        None => Seq::empty(),
    }
}

/// The directories that running instances use.
pub open spec fn run_directories(
    paths: Installation,
    runs: Seq<Seq<(Seq<char>, Seq<char>)>>,
) -> Seq<Seq<char>>
    decreases runs.len(),
{
    if runs.len() == 0 {
        Seq::empty()
    } else {
        run_directories(paths, runs.drop_last()) + named_directory(
            paths,
            runs.last(),
            "app_dir"@,
        ) + named_directory(paths, runs.last(), "runtime_dir"@)
    }
}

/// The directories that something uses: an application, a runtime that is installed, or a running
/// instance.
pub open spec fn used_directories(
    paths: Installation,
    apps: Seq<AppView>,
    runtimes: Seq<RuntimeView>,
    runs: Seq<Seq<(Seq<char>, Seq<char>)>>,
) -> Seq<Seq<char>> {
    app_directories(paths, apps) + runtime_directories(paths, runtimes) + run_directories(
        paths,
        runs,
    )
}

fn push_path(out: &mut Vec<FsPath>, path: FsPath)
    ensures
        path_texts(final(out)@) == path_texts(old(out)@).push(path@),
{
    proof {
        lemma_views_push(out@, path);
    }
    out.push(path);
}

fn push_named(out: &mut Vec<FsPath>, paths: &Installation, run: &StateValues, key: &str)
    ensures
        path_texts(final(out)@) == path_texts(old(out)@) + named_directory(*paths, run@, key@),
{
    let ghost start = path_texts(out@);
    if let Some(path) = run.get(key) {
        push_path(out, absolute(paths, &FsPath { text: path }));
    }
    assert(path_texts(out@) =~= start + named_directory(*paths, run@, key@));
}

/// The directories that something uses.
pub fn protected_deployments(
    paths: &Installation,
    apps: &[AppRecord],
    runtimes: &[RuntimeRecord],
    runs: &[StateValues],
) -> (r: Vec<FsPath>)
    ensures
        path_texts(r@) == used_directories(
            *paths,
            views(apps@),
            views(runtimes@),
            views(runs@),
        ),
{
    let ghost a = views(apps@);
    let ghost b = views(runtimes@);
    let ghost c = views(runs@);
    let mut out: Vec<FsPath> = Vec::new();
    let mut i: usize = 0;
    assert(path_texts(out@) =~= app_directories(*paths, a.take(0)));
    while i < apps.len()
        invariant
            i <= apps@.len(),
            a == views(apps@),
            path_texts(out@) == app_directories(*paths, a.take(i as int)),
        decreases apps@.len() - i,
    {
        let ghost next = a.take(i + 1);
        assert(next.drop_last() =~= a.take(i as int));
        assert(next.last() == apps@[i as int]@);
        push_path(&mut out, absolute(paths, &apps[i].app_dir));
        push_path(&mut out, absolute(paths, &apps[i].runtime_dir));
        i += 1;
    }
    assert(a.take(i as int) =~= a);
    let ghost first = path_texts(out@);
    let ghost dirs = runtime_directories(*paths, b);
    let mut i: usize = 0;
    assert(first + dirs.take(0) =~= first);
    while i < runtimes.len()
        invariant
            i <= runtimes@.len(),
            b == views(runtimes@),
            dirs == runtime_directories(*paths, b),
            path_texts(out@) == first + dirs.take(i as int),
        decreases runtimes@.len() - i,
    {
        push_path(&mut out, absolute(paths, &runtimes[i].runtime_dir));
        assert(b[i as int] == runtimes@[i as int]@);
        assert(path_texts(out@) =~= first + dirs.take(i + 1));
        i += 1;
    }
    assert(dirs.take(i as int) =~= dirs);
    let ghost second = path_texts(out@);
    let mut i: usize = 0;
    assert(second + run_directories(*paths, c.take(0)) =~= second);
    while i < runs.len()
        invariant
            i <= runs@.len(),
            c == views(runs@),
            path_texts(out@) == second + run_directories(*paths, c.take(i as int)),
        decreases runs@.len() - i,
    {
        let ghost next = c.take(i + 1);
        assert(next.drop_last() =~= c.take(i as int));
        assert(next.last() == runs@[i as int]@);
        push_named(&mut out, paths, &runs[i], "app_dir");
        push_named(&mut out, paths, &runs[i], "runtime_dir");
        assert(path_texts(out@) =~= second + run_directories(*paths, next));
        i += 1;
    }
    assert(c.take(i as int) =~= c);
    out
}

/// Something in the directory of an application or a runtime.
#[derive(Debug)]
pub struct DeploymentEntry {
    pub path: FsPath,
    pub is_directory: bool,
    pub has_marker: bool,
}

pub ghost struct EntryView {
    pub path: Seq<char>,
    pub is_directory: bool,
    pub has_marker: bool,
}

impl View for DeploymentEntry {
    type V = EntryView;

    open spec fn view(&self) -> EntryView {
        EntryView {
            path: self.path@,
            is_directory: self.is_directory,
            has_marker: self.has_marker,
        }
    }
}

/// The directory of an application or a runtime. It holds a deployment for each commit, and may be
/// one itself, from the time before there were several.
#[derive(Debug)]
pub struct DeploymentFamily {
    pub path: FsPath,
    pub has_marker: bool,
    pub entries: Vec<DeploymentEntry>,
}

pub ghost struct FamilyView {
    pub path: Seq<char>,
    pub has_marker: bool,
    pub entries: Seq<EntryView>,
}

impl View for DeploymentFamily {
    type V = FamilyView;

    open spec fn view(&self) -> FamilyView {
        FamilyView {
            path: self.path@,
            has_marker: self.has_marker,
            entries: views(self.entries@),
        }
    }
}

/// Whether an entry is a deployment of its own.
pub open spec fn is_generation(entry: EntryView) -> bool {
    entry.is_directory && entry.has_marker
}

/// The deployments that nothing uses.
pub open spec fn retired_generations(entries: Seq<EntryView>, used: Seq<Seq<char>>) -> Seq<Seq<char>>
    decreases entries.len(),
{
    if entries.len() == 0 {
        Seq::empty()
    } else {
        let before = retired_generations(entries.drop_last(), used);
        if is_generation(entries.last()) && !names(used, entries.last().path) {
            before.push(entries.last().path)
        } else {
            before
        }
    }
}

/// What belongs to the deployment that a family is itself.
pub open spec fn payload(entries: Seq<EntryView>) -> Seq<Seq<char>>
    decreases entries.len(),
{
    if entries.len() == 0 {
        Seq::empty()
    } else {
        let before = payload(entries.drop_last());
        if is_generation(entries.last()) {
            before
        } else {
            before.push(entries.last().path)
        }
    }
}

/// Whether a family is itself a deployment that nothing uses.
pub open spec fn family_retired(family: FamilyView, used: Seq<Seq<char>>) -> bool {
    family.has_marker && !names(used, family.path)
}

/// What is removed, in order.
pub open spec fn removals(families: Seq<FamilyView>, used: Seq<Seq<char>>) -> Seq<Seq<char>>
    decreases families.len(),
{
    if families.len() == 0 {
        Seq::empty()
    } else {
        let family = families.last();
        removals(families.drop_last(), used) + retired_generations(family.entries, used) + (
        if family_retired(family, used) {
            payload(family.entries)
        } else {
            Seq::empty()
        })
    }
}

/// The deployments that are gone after that.
pub open spec fn retired(families: Seq<FamilyView>, used: Seq<Seq<char>>) -> Seq<Seq<char>>
    decreases families.len(),
{
    if families.len() == 0 {
        Seq::empty()
    } else {
        let family = families.last();
        retired(families.drop_last(), used) + retired_generations(family.entries, used) + (
        if family_retired(family, used) {
            seq![family.path]
        } else {
            Seq::empty()
        })
    }
}

fn collect_generations(entries: &[DeploymentEntry], used: &[FsPath]) -> (r: Vec<FsPath>)
    ensures
        path_texts(r@) == retired_generations(views(entries@), path_texts(used@)),
{
    let ghost all = views(entries@);
    let ghost known = path_texts(used@);
    let mut out: Vec<FsPath> = Vec::new();
    let mut i: usize = 0;
    assert(path_texts(out@) =~= retired_generations(all.take(0), known));
    while i < entries.len()
        invariant
            i <= entries@.len(),
            all == views(entries@),
            known == path_texts(used@),
            path_texts(out@) == retired_generations(all.take(i as int), known),
        decreases entries@.len() - i,
    {
        let ghost next = all.take(i + 1);
        assert(next.drop_last() =~= all.take(i as int));
        assert(next.last() == entries@[i as int]@);
        let entry = &entries[i];
        if entry.is_directory && entry.has_marker && !is_named(used, &entry.path) {
            push_path(&mut out, entry.path.clone());
        }
        i += 1;
    }
    assert(all.take(i as int) =~= all);
    out
}

fn collect_payload(entries: &[DeploymentEntry]) -> (r: Vec<FsPath>)
    ensures
        path_texts(r@) == payload(views(entries@)),
{
    let ghost all = views(entries@);
    let mut out: Vec<FsPath> = Vec::new();
    let mut i: usize = 0;
    assert(path_texts(out@) =~= payload(all.take(0)));
    while i < entries.len()
        invariant
            i <= entries@.len(),
            all == views(entries@),
            path_texts(out@) == payload(all.take(i as int)),
        decreases entries@.len() - i,
    {
        let ghost next = all.take(i + 1);
        assert(next.drop_last() =~= all.take(i as int));
        assert(next.last() == entries@[i as int]@);
        let entry = &entries[i];
        if !(entry.is_directory && entry.has_marker) {
            push_path(&mut out, entry.path.clone());
        }
        i += 1;
    }
    assert(all.take(i as int) =~= all);
    out
}

fn push_paths(out: &mut Vec<FsPath>, more: &[FsPath])
    ensures
        path_texts(final(out)@) == path_texts(old(out)@) + path_texts(more@),
{
    let ghost start = path_texts(out@);
    let ghost all = path_texts(more@);
    let mut i: usize = 0;
    assert(start + all.take(0) =~= start);
    while i < more.len()
        invariant
            i <= more@.len(),
            all == path_texts(more@),
            path_texts(out@) == start + all.take(i as int),
        decreases more@.len() - i,
    {
        push_path(out, more[i].clone());
        assert(all[i as int] == more@[i as int]@);
        assert(path_texts(out@) =~= start + all.take(i + 1));
        i += 1;
    }
    assert(all.take(i as int) =~= all);
}

/// What is removed, in order, and the deployments that are gone after that.
#[derive(Debug)]
pub struct RetiredDeployments {
    pub removals: Vec<FsPath>,
    pub retired: Vec<FsPath>,
}

/// Removes the deployments that nothing uses. Where a family is itself such a deployment, what
/// belongs to it is removed, and the deployments that it holds are judged for themselves.
pub fn cleanup_retired_deployments(families: &[DeploymentFamily], used: &[FsPath]) -> (r:
    RetiredDeployments)
    ensures
        path_texts(r.removals@) == removals(views(families@), path_texts(used@)),
        path_texts(r.retired@) == retired(views(families@), path_texts(used@)),
{
    let ghost all = views(families@);
    let ghost known = path_texts(used@);
    let mut gone: Vec<FsPath> = Vec::new();
    let mut left: Vec<FsPath> = Vec::new();
    let mut i: usize = 0;
    assert(path_texts(gone@) =~= removals(all.take(0), known));
    assert(path_texts(left@) =~= retired(all.take(0), known));
    while i < families.len()
        invariant
            i <= families@.len(),
            all == views(families@),
            known == path_texts(used@),
            path_texts(gone@) == removals(all.take(i as int), known),
            path_texts(left@) == retired(all.take(i as int), known),
        decreases families@.len() - i,
    {
        let ghost next = all.take(i + 1);
        assert(next.drop_last() =~= all.take(i as int));
        assert(next.last() == families@[i as int]@);
        let family = &families[i];
        let generations = collect_generations(family.entries.as_slice(), used);
        push_paths(&mut gone, generations.as_slice());
        push_paths(&mut left, generations.as_slice());
        if family.has_marker && !is_named(used, &family.path) {
            let rest = collect_payload(family.entries.as_slice());
            push_paths(&mut gone, rest.as_slice());
            push_path(&mut left, family.path.clone());
        }
        assert(path_texts(gone@) =~= removals(next, known));
        assert(path_texts(left@) =~= retired(next, known));
        i += 1;
    }
    assert(all.take(i as int) =~= all);
    RetiredDeployments { removals: gone, retired: left }
}

/// Whether a path is one that is removed, or below one of the directories for that.
pub open spec fn lies_in(path: Seq<char>, root: Seq<char>) -> bool {
    within(path, root) && !same_path(path, root)
}

/// Whether a path lies in what the installation manages.
pub open spec fn is_managed(paths: Installation, path: Seq<char>, sandboxes: bool) -> bool {
    lies_in(path, paths.spec_apps()) || lies_in(path, paths.spec_runtimes()) || (sandboxes
        && lies_in(path, paths.spec_chroots())) || lies_in(path, paths.spec_extensions())
}

/// A path that is not removed because the installation does not manage it.
#[derive(Debug)]
pub enum Unmanaged {
    /// A directory that is no sandbox, no deployment and no extension.
    Directory(FsPath),
    /// Something that does not belong to a deployment.
    Path(FsPath),
}

impl Unmanaged {
    pub fn message(&self) -> (r: String)
        ensures
            r@ == (match self {
                Unmanaged::Directory(path) =>
                    "refusing to remove path outside managed runtime data: "@ + path@,
                Unmanaged::Path(path) => "refusing to remove unmanaged path: "@ + path@,
            }),
    {
        match self {
            Unmanaged::Directory(path) => concat(
                "refusing to remove path outside managed runtime data: ",
                path.as_str(),
            ),
            Unmanaged::Path(path) => concat("refusing to remove unmanaged path: ", path.as_str()),
        }
    }
}

fn below(path: &FsPath, root: &FsPath) -> (r: bool)
    ensures
        r == lies_in(path@, root@),
{
    path.starts_with(root) && !path.same_as(root)
}

/// The directory to remove, if there is one: a sandbox, a deployment or an extension.
/// `exists` tells of the path that `absolute` gives whether anything stands there.
pub fn safe_remove_dir(paths: &Installation, path: &FsPath, exists: bool) -> (r: Result<
    Option<FsPath>,
    Unmanaged,
>)
    ensures
        match r {
            Ok(None) => !exists,
            Ok(Some(full)) => exists && full@ == joined(paths.data_root@, path@) && is_managed(
                *paths,
                full@,
                true,
            ),
            Err(refused) => exists && (refused matches Unmanaged::Directory(full) && full@
                == joined(paths.data_root@, path@) && !is_managed(*paths, full@, true)),
        },
{
    let full = absolute(paths, path);
    if !exists {
        return Ok(None);
    }
    if below(&full, &paths.apps()) || below(&full, &paths.runtimes()) || below(
        &full,
        &paths.chroots(),
    ) || below(&full, &paths.extensions()) {
        Ok(Some(full))
    } else {
        Err(Unmanaged::Directory(full))
    }
}

/// Whether what belongs to a deployment may be removed.
pub fn remove_managed_path(paths: &Installation, path: &FsPath) -> (r: Result<(), Unmanaged>)
    ensures
        match r {
            Ok(_) => is_managed(*paths, path@, false),
            Err(refused) => !is_managed(*paths, path@, false) && (
            refused matches Unmanaged::Path(p) && p@ == path@),
        },
{
    if below(path, &paths.apps()) || below(path, &paths.runtimes()) || below(
        path,
        &paths.extensions(),
    ) {
        Ok(())
    } else {
        Err(Unmanaged::Path(path.clone()))
    }
}

proof fn lemma_generation_removed(entries: Seq<EntryView>, used: Seq<Seq<char>>, k: int) -> (i: int)
    requires
        0 <= k < retired_generations(entries, used).len(),
    ensures
        0 <= i < entries.len(),
        entries[i].path == retired_generations(entries, used)[k],
        is_generation(entries[i]),
        !names(used, entries[i].path),
    decreases entries.len(),
{
    let before = retired_generations(entries.drop_last(), used);
    if k < before.len() {
        lemma_generation_removed(entries.drop_last(), used, k)
    } else {
        entries.len() - 1
    }
}

proof fn lemma_payload_removed(entries: Seq<EntryView>, k: int) -> (i: int)
    requires
        0 <= k < payload(entries).len(),
    ensures
        0 <= i < entries.len(),
        entries[i].path == payload(entries)[k],
        !is_generation(entries[i]),
    decreases entries.len(),
{
    let before = payload(entries.drop_last());
    if k < before.len() {
        lemma_payload_removed(entries.drop_last(), k)
    } else {
        entries.len() - 1
    }
}

/// Whatever is removed is a deployment that nothing uses, or no deployment at all and belongs to
/// one that nothing uses. So a deployment that something uses is never removed.
pub proof fn lemma_only_retired_removed(
    families: Seq<FamilyView>,
    used: Seq<Seq<char>>,
    k: int,
) -> (at: (int, int))
    requires
        0 <= k < removals(families, used).len(),
    ensures
        0 <= at.0 < families.len(),
        0 <= at.1 < families[at.0].entries.len(),
        families[at.0].entries[at.1].path == removals(families, used)[k],
        is_generation(families[at.0].entries[at.1]) ==> !names(used, removals(families, used)[k]),
        !is_generation(families[at.0].entries[at.1]) ==> family_retired(families[at.0], used),
    decreases families.len(),
{
    let before = removals(families.drop_last(), used);
    let family = families.last();
    let generations = retired_generations(family.entries, used);
    let all = removals(families, used);
    if k < before.len() {
        assert(all[k] == before[k]);
        lemma_only_retired_removed(families.drop_last(), used, k)
    } else if k < before.len() + generations.len() {
        assert(all[k] == generations[k - before.len()]);
        let i = lemma_generation_removed(family.entries, used, k - before.len());
        (families.len() - 1, i)
    } else {
        let n = before.len() + generations.len();
        assert(all[k] == payload(family.entries)[k - n]);
        let i = lemma_payload_removed(family.entries, k - n);
        (families.len() - 1, i)
    }
}

proof fn lemma_app_directory(paths: Installation, apps: Seq<AppView>, i: int) -> (k: int)
    requires
        0 <= i < apps.len(),
    ensures
        0 <= k < app_directories(paths, apps).len() - 1,
        app_directories(paths, apps)[k] == joined(paths.data_root@, apps[i].app_dir),
        app_directories(paths, apps)[k + 1] == joined(paths.data_root@, apps[i].runtime_dir),
    decreases apps.len(),
{
    let before = app_directories(paths, apps.drop_last());
    if i == apps.len() - 1 {
        before.len() as int
    } else {
        let k = lemma_app_directory(paths, apps.drop_last(), i);
        assert(app_directories(paths, apps)[k] == before[k]);
        assert(app_directories(paths, apps)[k + 1] == before[k + 1]);
        k
    }
}

/// The deployment of an installed application and that of its runtime are in use.
pub proof fn lemma_installed_is_used(
    paths: Installation,
    apps: Seq<AppView>,
    runtimes: Seq<RuntimeView>,
    runs: Seq<Seq<(Seq<char>, Seq<char>)>>,
    i: int,
)
    requires
        0 <= i < apps.len(),
    ensures
        names(
            used_directories(paths, apps, runtimes, runs),
            joined(paths.data_root@, apps[i].app_dir),
        ),
        names(
            used_directories(paths, apps, runtimes, runs),
            joined(paths.data_root@, apps[i].runtime_dir),
        ),
{
    let used = used_directories(paths, apps, runtimes, runs);
    let k = lemma_app_directory(paths, apps, i);
    assert(used[k] == joined(paths.data_root@, apps[i].app_dir));
    assert(used[k + 1] == joined(paths.data_root@, apps[i].runtime_dir));
    assert(same_path(used[k], used[k]) && same_path(used[k + 1], used[k + 1]));
}

proof fn lemma_run_directory(
    paths: Installation,
    runs: Seq<Seq<(Seq<char>, Seq<char>)>>,
    i: int,
    key: Seq<char>,
) -> (k: int)
    requires
        0 <= i < runs.len(),
        key == "app_dir"@ || key == "runtime_dir"@,
        last_value(runs[i], key) is Some,
    ensures
        0 <= k < run_directories(paths, runs).len(),
        run_directories(paths, runs)[k] == joined(paths.data_root@, last_value(runs[i], key)->0),
    decreases runs.len(),
{
    let before = run_directories(paths, runs.drop_last());
    let all = run_directories(paths, runs);
    if i == runs.len() - 1 {
        let first = named_directory(paths, runs.last(), "app_dir"@);
        if key == "app_dir"@ {
            assert(all[before.len() as int] == first[0]);
            before.len() as int
        } else {
            let second = named_directory(paths, runs.last(), "runtime_dir"@);
            let at = before.len() as int + first.len() as int;
            assert(all[at] == second[0]);
            at
        }
    } else {
        let k = lemma_run_directory(paths, runs.drop_last(), i, key);
        assert(all[k] == before[k]);
        k
    }
}

/// The deployments that a running instance has written down are in use for as long as its record
/// stands.
pub proof fn lemma_pinned_is_used(
    paths: Installation,
    apps: Seq<AppView>,
    runtimes: Seq<RuntimeView>,
    runs: Seq<Seq<(Seq<char>, Seq<char>)>>,
    i: int,
    key: Seq<char>,
)
    requires
        0 <= i < runs.len(),
        key == "app_dir"@ || key == "runtime_dir"@,
        last_value(runs[i], key) is Some,
    ensures
        names(
            used_directories(paths, apps, runtimes, runs),
            joined(paths.data_root@, last_value(runs[i], key)->0),
        ),
{
    let used = used_directories(paths, apps, runtimes, runs);
    let first = app_directories(paths, apps);
    let second = runtime_directories(paths, runtimes);
    let k = lemma_run_directory(paths, runs, i, key);
    assert(used[first.len() + second.len() + k] == run_directories(paths, runs)[k]);
    assert(same_path(
        used[first.len() + second.len() + k],
        joined(paths.data_root@, last_value(runs[i], key)->0),
    ));
}

} // verus!
