//! How permissions become grants.
//!
//! A builder turns one permission after another into grants. What it must know of the host's
//! files it asks for; each answer brings it to the next question, until none is left.

use crate::filesystem_grants::{
    absolute_to_chroot_relative, authorized, authorized_grant_paths, chroot_relative,
    is_same_mount, lemma_authorized_within, overlap, path_overlaps, refused_target, GrantView,
    HostPathGrant,
};
use crate::filesystem_permissions::{
    has_parent_component, merged_access, names_of, path_names, AccessMode, FilesystemError,
    FilesystemPermission, PermissionView,
};
use crate::order::{order_texts, Relation};
use crate::order::{sort_by, sorted, text_order};
use crate::path::{
    components, is_absolute, joined, lemma_relative_components, path_after, path_texts, same_path,
    within, FsPath,
};
use crate::text::{
    concat, concat3, lemma_texts_push, lemma_views_push, split_once, split_text_once, text_eq,
    texts, views,
};
use crate::xdg_user_dirs::{label_place, place_in, xdg_label, xdg_labels, XdgUserDirs};
use vstd::prelude::*;

verus! {

/// What does not change while grants are made.
#[derive(Debug)]
pub struct GrantSettings {
    pub home: FsPath,
    /// The directory of this program's own state, without symbolic links.
    pub project_root: FsPath,
    /// The directory that becomes the sandbox's root.
    pub sandbox_root: FsPath,
    pub mount_points: Vec<FsPath>,
    pub xdg_dirs: XdgUserDirs,
    /// The user's directories without symbolic links.
    pub xdg_canonical: Vec<FsPath>,
}

impl GrantSettings {
    pub open spec fn wf(&self) -> bool {
        self.xdg_dirs.wf() && self.xdg_canonical@.len() == 8
    }
}

/// A directory that is to be granted.
#[derive(Debug)]
pub struct Candidate {
    pub permission: usize,
    pub label: String,
    pub host_path: FsPath,
    pub sandbox_path: FsPath,
    pub create: bool,
    pub depth: usize,
}

pub ghost struct CandidateView {
    pub permission: int,
    pub label: Seq<char>,
    pub host_path: Seq<char>,
    pub sandbox_path: Seq<char>,
    pub create: bool,
    pub depth: int,
}

impl View for Candidate {
    type V = CandidateView;

    open spec fn view(&self) -> CandidateView {
        CandidateView {
            permission: self.permission as int,
            label: self.label@,
            host_path: self.host_path@,
            sandbox_path: self.sandbox_path@,
            create: self.create,
            depth: self.depth as int,
        }
    }
}

/// What is left to do for a permission.
#[derive(Debug)]
pub enum Task {
    /// Grant a directory of the host, if it is one.
    HostRoot(usize, FsPath),
    /// Grant a directory.
    Resolve(Candidate),
    /// Grant the directories in a directory.
    Expand(Candidate),
}

pub ghost enum TaskView {
    HostRoot(int, Seq<char>),
    Resolve(CandidateView),
    Expand(CandidateView),
}

impl View for Task {
    type V = TaskView;

    open spec fn view(&self) -> TaskView {
        match self {
            Task::HostRoot(permission, path) => TaskView::HostRoot(*permission as int, path@),
            Task::Resolve(candidate) => TaskView::Resolve(candidate@),
            Task::Expand(candidate) => TaskView::Expand(candidate@),
        }
    }
}

/// What the builder asks about the host's files.
#[derive(Debug)]
pub enum HostQuery {
    /// Whether the path is a directory.
    IsDirectory(FsPath),
    /// What the path is once symbolic links are followed; it is made a directory first where it
    /// is missing and `create` is set.
    Resolve { path: FsPath, create: bool },
    /// What the directory holds.
    List(FsPath),
}

/// What a path is once symbolic links are followed.
#[derive(Debug)]
pub enum Resolution {
    Missing,
    NotDirectory(FsPath),
    Directory(FsPath),
}

pub ghost enum ResolutionView {
    Missing,
    NotDirectory(Seq<char>),
    Directory(Seq<char>),
}

impl View for Resolution {
    type V = ResolutionView;

    open spec fn view(&self) -> ResolutionView {
        match self {
            Resolution::Missing => ResolutionView::Missing,
            Resolution::NotDirectory(path) => ResolutionView::NotDirectory(path@),
            Resolution::Directory(path) => ResolutionView::Directory(path@),
        }
    }
}

/// What a directory holds under a name.
#[derive(Debug)]
pub struct DirectoryEntry {
    pub name: String,
    pub is_dir: bool,
}

pub ghost struct EntryView {
    pub name: Seq<char>,
    pub is_dir: bool,
}

impl View for DirectoryEntry {
    type V = EntryView;

    open spec fn view(&self) -> EntryView {
        EntryView { name: self.name@, is_dir: self.is_dir }
    }
}

/// Whether a subpath of a permission is made of names.
pub open spec fn is_plain_subpath(suffix: Seq<char>) -> bool {
    forall|i: int|
        0 <= i < components(suffix).len() ==> #[trigger] components(suffix)[i] != "/"@
            && components(suffix)[i] != ".."@
}

/// The names put below a path one after another.
pub open spec fn below(base: Seq<char>, names: Seq<Seq<char>>) -> Seq<char>
    decreases names.len(),
{
    if names.len() == 0 {
        base
    } else {
        joined(below(base, names.drop_last()), names.last())
    }
}

/// The path that a permission names below a base.
pub open spec fn with_suffix(base: Seq<char>, suffix: Option<Seq<char>>) -> Option<Seq<char>> {
    match suffix {
        None => Some(base),
        Some(text) => if is_plain_subpath(text) {
            Some(below(base, names_of(components(text))))
        } else {
            None
        },
    }
}

/// The path that a permission names below a base.
pub fn append_permission_suffix(base: &FsPath, suffix: Option<&str>) -> (r: Result<
    FsPath,
    FilesystemError,
>)
    ensures
        match with_suffix(
            base@,
            match suffix {
                Some(s) => Some(s@),
                None => None,
            },
        ) {
            Some(p) => r matches Ok(path) && path@ == p,
            None => r matches Err(FilesystemError::InvalidSubpath(text)) && suffix is Some
                && text@ == suffix->0@,
        },
{
    let text = match suffix {
        Some(text) => text,
        None => {
            return Ok(base.clone());
        },
    };
    let path = FsPath::new(text);
    if path.is_absolute() || has_parent_component(&path) {
        proof {
            reveal_strlit("/");
            if is_absolute(text@) {
                assert(components(text@)[0] =~= "/"@);
            }
        }
        return Err(FilesystemError::InvalidSubpath(text.to_owned()));
    }
    proof {
        lemma_relative_components(text@);
    }
    let names = path_names(&path);
    let ghost all = texts(names@);
    let mut out = base.clone();
    let mut i: usize = 0;
    assert(all.take(0) =~= Seq::<Seq<char>>::empty());
    while i < names.len()
        invariant
            i <= names@.len(),
            all == texts(names@),
            out@ == below(base@, all.take(i as int)),
        decreases names@.len() - i,
    {
        proof {
            assert(all.take(i + 1).drop_last() =~= all.take(i as int));
            assert(all.take(i + 1).last() == names@[i as int]@);
        }
        out = out.join(&names[i]);
        i += 1;
    }
    assert(all.take(i as int) =~= all);
    Ok(out)
}

/// What stands below a directory under a suffix; an empty suffix names the directory itself.
pub open spec fn placed_below(directory: Seq<char>, suffix: Seq<char>) -> Seq<char> {
    if suffix.len() == 0 {
        directory
    } else {
        joined(directory, suffix)
    }
}

/// The candidates for a directory and for what is mounted below it.
pub open spec fn candidates(
    permission: int,
    label: Seq<char>,
    host: Seq<char>,
    sandbox: Seq<char>,
    create: bool,
    mounts: Seq<Seq<char>>,
) -> Seq<TaskView> {
    let paths = authorized(seq![host], mounts);
    Seq::new(
        paths.len(),
        |i: int|
            {
                let suffix = path_after(paths[i], components(host).len());
                TaskView::Resolve(
                    CandidateView {
                        permission,
                        label,
                        host_path: paths[i],
                        sandbox_path: placed_below(sandbox, suffix),
                        create: create && suffix.len() == 0,
                        depth: 1,
                    },
                )
            },
    )
}

fn make_candidates(
    permission: usize,
    label: &str,
    host: &FsPath,
    sandbox: &FsPath,
    create: bool,
    mount_points: &[FsPath],
) -> (r: Vec<Task>)
    ensures
        views(r@) == candidates(
            permission as int,
            label@,
            host@,
            sandbox@,
            create,
            path_texts(mount_points@),
        ),
{
    let mut roots: Vec<FsPath> = Vec::new();
    roots.push(host.clone());
    assert(path_texts(roots@) =~= seq![host@]);
    let paths = authorized_grant_paths(roots.as_slice(), mount_points);
    let ghost all = authorized(seq![host@], path_texts(mount_points@));
    let ghost goal = candidates(
        permission as int,
        label@,
        host@,
        sandbox@,
        create,
        path_texts(mount_points@),
    );
    assert(path_texts(paths@).len() == paths@.len());
    let mut out: Vec<Task> = Vec::new();
    let mut i: usize = 0;
    while i < paths.len()
        invariant
            i <= paths@.len(),
            path_texts(paths@) == all,
            all == authorized(seq![host@], path_texts(mount_points@)),
            all.len() == paths@.len(),
            goal == candidates(
                permission as int,
                label@,
                host@,
                sandbox@,
                create,
                path_texts(mount_points@),
            ),
            views(out@) =~= goal.take(i as int),
        decreases paths@.len() - i,
    {
        proof {
            assert(all[i as int] == paths@[i as int]@);
            let j = lemma_authorized_within(seq![host@], path_texts(mount_points@), i as int);
            assert(seq![host@][j] == host@);
        }
        if let Some(suffix) = paths[i].strip_prefix(host) {
            let empty = suffix.as_str().unicode_len() == 0;
            let candidate = Candidate {
                permission,
                label: label.to_owned(),
                host_path: paths[i].clone(),
                sandbox_path: if empty {
                    sandbox.clone()
                } else {
                    sandbox.join_path(&suffix)
                },
                create: create && empty,
                depth: 1,
            };
            let task = Task::Resolve(candidate);
            proof {
                lemma_views_push(out@, task);
                assert(task@ == goal[i as int]);
                assert(goal.take(i + 1) =~= goal.take(i as int).push(goal[i as int]));
            }
            out.push(task);
        }
        i += 1;
    }
    assert(goal.take(i as int) =~= goal);
    out
}

/// The directories of the host that the permission `host` stands for.
pub open spec fn host_roots() -> Seq<Seq<char>> {
    seq!["/home"@, "/media"@, "/mnt"@, "/opt"@, "/run/media"@, "/srv"@]
}

/// What a permission leads to.
pub ghost enum PermissionOutcome {
    Tasks(Seq<TaskView>),
    Warning(Seq<char>),
    Refused(Seq<char>),
}

/// What a permission leads to.
pub open spec fn permission_outcome(
    settings: GrantSettings,
    index: int,
    permission: PermissionView,
) -> PermissionOutcome {
    let (base, suffix) = match split_once(permission.path, '/') {
        Some((base, suffix)) => (base, Some(suffix)),
        None => (permission.path, None),
    };
    let mounts = path_texts(settings.mount_points@);
    if base == "host"@ && suffix is None {
        PermissionOutcome::Tasks(Seq::new(6, |i: int| TaskView::HostRoot(index, host_roots()[i])))
    } else if base == "home"@ || base == "~"@ {
        match with_suffix(settings.home@, suffix) {
            Some(path) => PermissionOutcome::Tasks(
                candidates(index, "home"@, path, path, permission.create, mounts),
            ),
            None => PermissionOutcome::Refused(suffix->0),
        }
    } else {
        match place_in(xdg_labels(), base) {
            Some(i) => {
                let dir = path_texts(settings.xdg_dirs.paths@)[i];
                if same_path(dir, settings.home@) {
                    PermissionOutcome::Warning("disabled XDG filesystem permission: "@ + base)
                } else {
                    match with_suffix(dir, suffix) {
                        Some(path) => PermissionOutcome::Tasks(
                            candidates(index, base, path, path, permission.create, mounts),
                        ),
                        None => PermissionOutcome::Refused(suffix->0),
                    }
                }
            },
            None => PermissionOutcome::Warning(
                "skipping unsupported filesystem permission "@ + permission.original,
            ),
        }
    }
}

enum Outcome {
    Tasks(Vec<Task>),
    Warning(String),
}

fn host_root(i: usize) -> (r: &'static str)
    requires
        i < 6,
    ensures
        r@ == host_roots()[i as int],
{
    if i == 0 {
        "/home"
    } else if i == 1 {
        "/media"
    } else if i == 2 {
        "/mnt"
    } else if i == 3 {
        "/opt"
    } else if i == 4 {
        "/run/media"
    } else {
        "/srv"
    }
}

fn apply_permission(
    settings: &GrantSettings,
    index: usize,
    permission: &FilesystemPermission,
) -> (r: Result<Outcome, FilesystemError>)
    requires
        settings.wf(),
    ensures
        match permission_outcome(*settings, index as int, permission@) {
            PermissionOutcome::Tasks(tasks) => r matches Ok(Outcome::Tasks(got)) && views(got@)
                == tasks,
            PermissionOutcome::Warning(text) => r matches Ok(Outcome::Warning(got)) && got@
                == text,
            PermissionOutcome::Refused(text) => r matches Err(
                FilesystemError::InvalidSubpath(got),
            ) && got@ == text,
        },
{
    let (base, suffix) = match split_text_once(&permission.path, '/') {
        Some((base, suffix)) => (base, Some(suffix)),
        None => (permission.path.clone(), None),
    };
    let suffix_text: Option<&str> = match &suffix {
        Some(text) => Some(text.as_str()),
        None => None,
    };
    if text_eq(&base, "host") && suffix.is_none() {
        let mut tasks: Vec<Task> = Vec::new();
        let mut i: usize = 0;
        let ghost goal = Seq::new(6, |i: int| TaskView::HostRoot(index as int, host_roots()[i]));
        while i < 6
            invariant
                i <= 6,
                goal == Seq::new(6, |i: int| TaskView::HostRoot(index as int, host_roots()[i])),
                views(tasks@) =~= goal.take(i as int),
            decreases 6 - i,
        {
            let task = Task::HostRoot(index, FsPath::new(host_root(i)));
            proof {
                lemma_views_push(tasks@, task);
                assert(goal.take(i + 1) =~= goal.take(i as int).push(goal[i as int]));
            }
            tasks.push(task);
            i += 1;
        }
        assert(goal.take(6) =~= goal);
        return Ok(Outcome::Tasks(tasks));
    }
    if text_eq(&base, "home") || text_eq(&base, "~") {
        return match append_permission_suffix(&settings.home, suffix_text) {
            Ok(path) => Ok(
                Outcome::Tasks(
                    make_candidates(
                        index,
                        "home",
                        &path,
                        &path,
                        permission.create,
                        settings.mount_points.as_slice(),
                    ),
                ),
            ),
            Err(e) => Err(e),
        };
    }
    match label_place(&base) {
        Some(i) => {
            let dir = &settings.xdg_dirs.paths[i];
            assert(path_texts(settings.xdg_dirs.paths@)[i as int] == dir@);
            if dir.same_as(&settings.home) {
                return Ok(
                    Outcome::Warning(concat("disabled XDG filesystem permission: ", &base)),
                );
            }
            match append_permission_suffix(dir, suffix_text) {
                Ok(path) => Ok(
                    Outcome::Tasks(
                        make_candidates(
                            index,
                            &base,
                            &path,
                            &path,
                            permission.create,
                            settings.mount_points.as_slice(),
                        ),
                    ),
                ),
                Err(e) => Err(e),
            }
        },
        None => Ok(
            Outcome::Warning(
                concat("skipping unsupported filesystem permission ", &permission.original),
            ),
        ),
    }
}

/// What becomes of a candidate once it is known what its path is.
pub ghost enum Settled {
    Warning(Seq<char>),
    Expand(Seq<char>, CandidateView),
    Grant(Seq<char>),
    BadTarget,
}

pub open spec fn about(start: Seq<char>, permission: Seq<char>, path: Seq<char>) -> Seq<char> {
    start + permission + ": "@ + path
}

/// What becomes of a candidate once it is known what its path is: a directory is granted, unless
/// it is part of this program's state. One that overlaps the place where it would be mounted is
/// granted by its children.
pub open spec fn settled(
    settings: GrantSettings,
    original: Seq<char>,
    candidate: CandidateView,
    resolution: ResolutionView,
) -> Settled {
    match resolution {
        ResolutionView::Missing => Settled::Warning(
            about("skipping missing host path for "@, original, candidate.host_path),
        ),
        ResolutionView::NotDirectory(path) => Settled::Warning(
            about("skipping non-directory host path for "@, original, path),
        ),
        ResolutionView::Directory(path) => if within(path, settings.project_root@) {
            Settled::Warning(
                "skipping project directory for "@ + original
                    + " to avoid recursive nullfs mount: "@ + path,
            )
        } else {
            match chroot_relative(candidate.sandbox_path) {
                None => Settled::BadTarget,
                Some(relative) => if overlap(path, joined(settings.sandbox_root@, relative)) {
                    if candidate.depth >= 8 {
                        Settled::Warning(
                            about("skipping deeply recursive host path for "@, original, path),
                        )
                    } else {
                        Settled::Expand(
                            "expanding "@ + original
                                + " into child directory mounts to avoid recursive nullfs mount: "@
                                + path,
                            CandidateView {
                                host_path: path,
                                depth: candidate.depth + 1,
                                ..candidate
                            },
                        )
                    }
                } else {
                    Settled::Grant(path)
                },
            }
        },
    }
}

fn about_text(start: &str, permission: &str, path: &FsPath) -> (r: String)
    ensures
        r@ == about(start@, permission@, path@),
{
    let mut out = concat3(start, permission, ": ");
    out.append(path.as_str());
    out
}

enum Verdict {
    Warning(String),
    Expand(String, FsPath),
    Grant(FsPath),
}

fn settle(
    settings: &GrantSettings,
    original: &str,
    candidate: &Candidate,
    resolution: Resolution,
) -> (r: Result<Verdict, FilesystemError>)
    ensures
        match settled(*settings, original@, candidate@, resolution@) {
            Settled::Warning(text) => r matches Ok(Verdict::Warning(got)) && got@ == text,
            Settled::Expand(text, child) => r matches Ok(Verdict::Expand(got, path)) && got@
                == text && child.host_path == path@,
            Settled::Grant(p) => r matches Ok(Verdict::Grant(path)) && path@ == p,
            Settled::BadTarget => r matches Err(e) && refused_target(e, candidate@.sandbox_path),
        },
{
    let path = match resolution {
        Resolution::Missing => {
            return Ok(
                Verdict::Warning(
                    about_text("skipping missing host path for ", original, &candidate.host_path),
                ),
            );
        },
        Resolution::NotDirectory(path) => {
            return Ok(
                Verdict::Warning(
                    about_text("skipping non-directory host path for ", original, &path),
                ),
            );
        },
        Resolution::Directory(path) => path,
    };
    if path.starts_with(&settings.project_root) {
        let mut text = concat3(
            "skipping project directory for ",
            original,
            " to avoid recursive nullfs mount: ",
        );
        text.append(path.as_str());
        return Ok(Verdict::Warning(text));
    }
    let relative = match absolute_to_chroot_relative(&candidate.sandbox_path) {
        Ok(relative) => relative,
        Err(e) => {
            return Err(e);
        },
    };
    let target = settings.sandbox_root.join_path(&relative);
    if path_overlaps(&path, &target) {
        if candidate.depth >= 8 {
            return Ok(
                Verdict::Warning(
                    about_text("skipping deeply recursive host path for ", original, &path),
                ),
            );
        }
        let mut text = concat3(
            "expanding ",
            original,
            " into child directory mounts to avoid recursive nullfs mount: ",
        );
        text.append(path.as_str());
        return Ok(Verdict::Expand(text, path));
    }
    Ok(Verdict::Grant(path))
}

/// The user's directory that a path is.
pub open spec fn xdg_place(canonical: Seq<Seq<char>>, path: Seq<char>, from: int) -> Option<int>
    decreases canonical.len() - from,
{
    if from >= canonical.len() {
        None
    } else if same_path(canonical[from], path) {
        Some(from)
    } else {
        xdg_place(canonical, path, from + 1)
    }
}

/// The name under which a directory is granted: one of the user's directories keeps its own.
pub open spec fn label_for(
    settings: GrantSettings,
    path: Seq<char>,
    label: Seq<char>,
) -> Seq<char> {
    match xdg_place(path_texts(settings.xdg_canonical@), path, 0) {
        Some(i) => xdg_labels()[i],
        None => label,
    }
}

fn label_of(settings: &GrantSettings, path: &FsPath, label: &str) -> (r: String)
    requires
        settings.wf(),
    ensures
        r@ == label_for(*settings, path@, label@),
{
    let ghost all = path_texts(settings.xdg_canonical@);
    let mut i: usize = 0;
    while i < 8
        invariant
            i <= 8,
            settings.wf(),
            all == path_texts(settings.xdg_canonical@),
            xdg_place(all, path@, 0) == xdg_place(all, path@, i as int),
        decreases 8 - i,
    {
        assert(all[i as int] == settings.xdg_canonical@[i as int]@);
        if settings.xdg_canonical[i].same_as(path) {
            return xdg_label(i).to_owned();
        }
        i += 1;
    }
    label.to_owned()
}

/// The place of the grant that mounts the host path at the place.
pub open spec fn mount_place(
    grants: Seq<GrantView>,
    host: Seq<char>,
    sandbox: Seq<char>,
    from: int,
) -> Option<int>
    decreases grants.len() - from,
{
    if from >= grants.len() {
        None
    } else if is_same_mount(grants[from], host, sandbox) {
        Some(from)
    } else {
        mount_place(grants, host, sandbox, from + 1)
    }
}

/// The grants with one more. Where the same mount was granted before, it keeps the more
/// permissive access.
pub open spec fn with_grant(grants: Seq<GrantView>, grant: GrantView) -> Seq<GrantView> {
    match mount_place(grants, grant.host_path, grant.sandbox_path, 0) {
        Some(i) => grants.update(
            i,
            GrantView { access: merged_access(grants[i].access, grant.access), ..grants[i] },
        ),
        None => grants.push(grant),
    }
}

fn add_grant(grants: &mut Vec<HostPathGrant>, grant: HostPathGrant)
    ensures
        views(final(grants)@) == with_grant(views(old(grants)@), grant@),
{
    let ghost all = views(grants@);
    let mut i: usize = 0;
    while i < grants.len()
        invariant
            i <= grants@.len(),
            views(grants@) == all,
            mount_place(all, grant@.host_path, grant@.sandbox_path, 0) == mount_place(
                all,
                grant@.host_path,
                grant@.sandbox_path,
                i as int,
            ),
            all == views(old(grants)@),
        decreases grants@.len() - i,
    {
        assert(all[i as int] == grants@[i as int]@);
        if grants[i].same_mount(&grant.host_path, &grant.sandbox_path) {
            let mut existing = grants[i].clone();
            existing.access = existing.access.merge(grant.access);
            let ghost e = existing@;
            grants.set(i, existing);
            assert(views(grants@) =~= all.update(i as int, e));
            return;
        }
        i += 1;
    }
    proof {
        assert(all.len() == grants@.len());
        lemma_views_push(grants@, grant);
    }
    grants.push(grant);
}

/// The directories among the entries, by name, as candidates below the directory.
pub open spec fn child_candidates(parent: CandidateView, entries: Seq<EntryView>) -> Seq<TaskView>
    decreases entries.len(),
{
    if entries.len() == 0 {
        Seq::empty()
    } else {
        let before = child_candidates(parent, entries.drop_last());
        let entry = entries.last();
        if entry.is_dir {
            before.push(
                TaskView::Resolve(
                    CandidateView {
                        host_path: joined(parent.host_path, entry.name),
                        sandbox_path: joined(parent.sandbox_path, entry.name),
                        create: false,
                        ..parent
                    },
                ),
            )
        } else {
            before
        }
    }
}

pub open spec fn entry_le(a: EntryView, b: EntryView) -> bool {
    text_order(a.name, b.name) != Relation::After
}

fn entry_at_most(a: &DirectoryEntry, b: &DirectoryEntry) -> (r: bool)
    ensures
        r == entry_le(a@, b@),
{
    match order_texts(&a.name, &b.name) {
        Relation::After => false,
        _ => true,
    }
}

fn expand_directory_children(parent: &Candidate, entries: Vec<DirectoryEntry>) -> (r: Vec<Task>)
    ensures
        views(r@) == child_candidates(
            parent@,
            sorted(views(entries@), |a: EntryView, b: EntryView| entry_le(a, b)),
        ),
{
    let ordered = sort_by(
        entries,
        entry_at_most,
        Ghost(|a: EntryView, b: EntryView| entry_le(a, b)),
    );
    let ghost all = views(ordered@);
    let mut out: Vec<Task> = Vec::new();
    let mut i: usize = 0;
    assert(views(out@) =~= child_candidates(parent@, all.take(0)));
    while i < ordered.len()
        invariant
            i <= ordered@.len(),
            all == views(ordered@),
            views(out@) == child_candidates(parent@, all.take(i as int)),
        decreases ordered@.len() - i,
    {
        proof {
            let next = all.take(i + 1);
            assert(next.drop_last() =~= all.take(i as int));
            assert(next.last() == ordered@[i as int]@);
        }
        if ordered[i].is_dir {
            let task = Task::Resolve(
                Candidate {
                    permission: parent.permission,
                    label: parent.label.clone(),
                    host_path: parent.host_path.join(&ordered[i].name),
                    sandbox_path: parent.sandbox_path.join(&ordered[i].name),
                    create: false,
                    depth: parent.depth,
                },
            );
            proof {
                lemma_views_push(out@, task);
            }
            out.push(task);
        }
        i += 1;
    }
    assert(all.take(i as int) =~= all);
    out
}

/// Where the builder stands.
pub ghost struct BuilderView {
    /// The permission that is next.
    pub next: int,
    pub pending: Seq<TaskView>,
    pub grants: Seq<GrantView>,
    pub warnings: Seq<Seq<char>>,
    /// All that was granted so far, one after the other.
    pub given: Seq<GrantView>,
}

/// The builder's state once it has taken up permissions until there is something to ask; the
/// subpath of a permission that is refused otherwise.
pub open spec fn advanced(
    settings: GrantSettings,
    permissions: Seq<PermissionView>,
    state: BuilderView,
) -> Result<BuilderView, Seq<char>>
    decreases permissions.len() - state.next,
{
    if state.pending.len() > 0 || state.next >= permissions.len() {
        Ok(state)
    } else {
        match permission_outcome(settings, state.next, permissions[state.next]) {
            PermissionOutcome::Tasks(tasks) => advanced(
                settings,
                permissions,
                BuilderView { next: state.next + 1, pending: tasks, ..state },
            ),
            PermissionOutcome::Warning(text) => advanced(
                settings,
                permissions,
                BuilderView {
                    next: state.next + 1,
                    warnings: state.warnings.push(text),
                    ..state
                },
            ),
            PermissionOutcome::Refused(suffix) => Err(suffix),
        }
    }
}

/// The state after it is known whether a directory of the host is there.
pub open spec fn after_root(
    settings: GrantSettings,
    permissions: Seq<PermissionView>,
    state: BuilderView,
    is_dir: bool,
) -> BuilderView {
    let rest = state.pending.skip(1);
    match state.pending[0] {
        TaskView::HostRoot(index, path) => BuilderView {
            pending: if is_dir {
                candidates(
                    index,
                    "host"@,
                    path,
                    path,
                    permissions[index].create,
                    path_texts(settings.mount_points@),
                ) + rest
            } else {
                rest
            },
            ..state
        },
        _ => state,
    }
}

/// The grant of a directory.
pub open spec fn made_grant(
    settings: GrantSettings,
    permission: PermissionView,
    candidate: CandidateView,
    path: Seq<char>,
) -> GrantView {
    GrantView {
        label: label_for(settings, path, candidate.label),
        source_permission: permission.original,
        host_path: path,
        canonical_host_path: path,
        sandbox_path: candidate.sandbox_path,
        access: permission.access,
    }
}

/// The state after it is known what a path is; none where its place in the sandbox is refused or
/// the path is not absolute.
pub open spec fn after_resolved(
    settings: GrantSettings,
    permissions: Seq<PermissionView>,
    state: BuilderView,
    resolution: ResolutionView,
) -> Option<BuilderView> {
    let rest = state.pending.skip(1);
    match state.pending[0] {
        TaskView::Resolve(candidate) => {
            let permission = permissions[candidate.permission];
            match settled(settings, permission.original, candidate, resolution) {
                Settled::Warning(text) => Some(
                    BuilderView { pending: rest, warnings: state.warnings.push(text), ..state },
                ),
                Settled::Expand(text, child) => Some(
                    BuilderView {
                        pending: seq![TaskView::Expand(child)] + rest,
                        warnings: state.warnings.push(text),
                        ..state
                    },
                ),
                Settled::Grant(path) => if is_absolute(path) {
                    let grant = made_grant(settings, permission, candidate, path);
                    Some(
                        BuilderView {
                            pending: rest,
                            grants: with_grant(state.grants, grant),
                            given: state.given.push(grant),
                            ..state
                        },
                    )
                } else {
                    None
                },
                Settled::BadTarget => None,
            }
        },
        _ => Some(state),
    }
}

/// The state after it is known what a directory holds.
pub open spec fn after_listing(state: BuilderView, entries: Seq<EntryView>) -> BuilderView {
    match state.pending[0] {
        TaskView::Expand(parent) => BuilderView {
            pending: child_candidates(
                parent,
                sorted(entries, |a: EntryView, b: EntryView| entry_le(a, b)),
            ) + state.pending.skip(1),
            ..state
        },
        _ => state,
    }
}

/// The permission that a task belongs to.
pub open spec fn task_permission(task: TaskView) -> int {
    match task {
        TaskView::HostRoot(index, _) => index,
        TaskView::Resolve(candidate) => candidate.permission,
        TaskView::Expand(candidate) => candidate.permission,
    }
}

pub open spec fn tasks_known(tasks: Seq<TaskView>, count: int) -> bool {
    forall|i: int| 0 <= i < tasks.len() ==> 0 <= task_permission(#[trigger] tasks[i]) < count
}

/// What the first task asks.
pub open spec fn asks(task: TaskView, query: HostQuery) -> bool {
    match (task, query) {
        (TaskView::HostRoot(_, path), HostQuery::IsDirectory(p)) => p@ == path,
        (TaskView::Resolve(candidate), HostQuery::Resolve { path, create }) => path@
            == candidate.host_path && create == candidate.create,
        (TaskView::Expand(candidate), HostQuery::List(p)) => p@ == candidate.host_path,
        _ => false,
    }
}

/// Turns permissions into grants.
pub struct GrantBuilder {
    pub settings: GrantSettings,
    pub permissions: Vec<FilesystemPermission>,
    pub next: usize,
    pub pending: Vec<Task>,
    pub grants: Vec<HostPathGrant>,
    pub warnings: Vec<String>,
    pub given: Ghost<Seq<GrantView>>,
}

impl View for GrantBuilder {
    type V = BuilderView;

    open spec fn view(&self) -> BuilderView {
        BuilderView {
            next: self.next as int,
            pending: views(self.pending@),
            grants: views(self.grants@),
            warnings: texts(self.warnings@),
            given: self.given@,
        }
    }
}

proof fn lemma_children_known(parent: CandidateView, entries: Seq<EntryView>, count: int)
    requires
        0 <= parent.permission < count,
    ensures
        tasks_known(child_candidates(parent, entries), count),
    decreases entries.len(),
{
    if entries.len() > 0 {
        lemma_children_known(parent, entries.drop_last(), count);
    }
}

impl GrantBuilder {
    pub open spec fn wf(&self) -> bool {
        &&& self.settings.wf()
        &&& self.next <= self.permissions@.len()
        &&& tasks_known(self@.pending, self.permissions@.len() as int)
        &&& grants_are_safe(self.settings, self@.grants)
        &&& grants_merge(self@.given, self@.grants)
    }

    /// Whether the rest of the builder is that of `other`.
    pub open spec fn same_setup(&self, other: &GrantBuilder) -> bool {
        self.settings == other.settings && self.permissions@ == other.permissions@
    }

    pub fn new(settings: GrantSettings, permissions: Vec<FilesystemPermission>) -> (r: GrantBuilder)
        requires
            settings.wf(),
        ensures
            r.wf(),
            r.settings == settings,
            r.permissions@ == permissions@,
            r@ == (BuilderView {
                next: 0,
                pending: Seq::empty(),
                grants: Seq::empty(),
                warnings: Seq::empty(),
                given: Seq::empty(),
            }),
    {
        let r = GrantBuilder {
            settings,
            permissions,
            next: 0,
            pending: Vec::new(),
            grants: Vec::new(),
            warnings: Vec::new(),
            given: Ghost(Seq::empty()),
        };
        proof {
            assert(r@.pending =~= Seq::<TaskView>::empty());
            assert(r@.grants =~= Seq::<GrantView>::empty());
            assert(r@.warnings =~= Seq::<Seq<char>>::empty());
        }
        r
    }

    /// What must be known next of the host's files; nothing once all permissions are done.
    pub fn next_query(&mut self) -> (r: Result<Option<HostQuery>, FilesystemError>)
        requires
            old(self).wf(),
        ensures
            final(self).wf(),
            final(self).same_setup(old(self)),
            match advanced(old(self).settings, views(old(self).permissions@), old(self)@) {
                Ok(state) => {
                    &&& final(self)@ == state
                    &&& r matches Ok(query) && match query {
                        Some(q) => state.pending.len() > 0 && asks(state.pending[0], q),
                        None => state.pending.len() == 0,
                    }
                },
                Err(suffix) => {
                    &&& r matches Err(FilesystemError::InvalidSubpath(text)) && text@ == suffix
                    &&& final(self)@.grants == old(self)@.grants
                    &&& final(self)@.given == old(self)@.given
                },
            },
    {
        let ghost goal = advanced(self.settings, views(self.permissions@), self@);
        while self.pending.len() == 0 && self.next < self.permissions.len()
            invariant
                self.wf(),
                self.same_setup(old(self)),
                goal == advanced(old(self).settings, views(old(self).permissions@), old(self)@),
                goal == advanced(self.settings, views(self.permissions@), self@),
                self@.grants == old(self)@.grants,
                self@.given == old(self)@.given,
            decreases self.permissions@.len() - self.next,
        {
            let index: usize = self.next;
            let ghost before = self@;
            assert(self@.pending.len() == self.pending@.len());
            assert(views(self.permissions@)[index as int] == self.permissions@[index as int]@);
            match apply_permission(&self.settings, index, &self.permissions[index]) {
                Ok(Outcome::Tasks(tasks)) => {
                    self.pending = tasks;
                    self.next = index + 1;
                    proof {
                        self.lemma_outcome_known(index as int);
                    }
                },
                Ok(Outcome::Warning(text)) => {
                    proof {
                        lemma_texts_push(self.warnings@, text);
                    }
                    self.warnings.push(text);
                    self.next = index + 1;
                },
                Err(e) => {
                    return Err(e);
                },
            }
        }
        assert(self@.pending.len() == self.pending@.len());
        if self.pending.len() == 0 {
            return Ok(None);
        }
        assert(self@.pending[0] == self.pending@[0]@);
        match &self.pending[0] {
            Task::HostRoot(_, path) => Ok(Some(HostQuery::IsDirectory(path.clone()))),
            Task::Resolve(candidate) => Ok(
                Some(
                    HostQuery::Resolve {
                        path: candidate.host_path.clone(),
                        create: candidate.create,
                    },
                ),
            ),
            Task::Expand(candidate) => Ok(Some(HostQuery::List(candidate.host_path.clone()))),
        }
    }

    proof fn lemma_outcome_known(&self, index: int)
        requires
            0 <= index < self.permissions@.len(),
        ensures
            permission_outcome(
                self.settings,
                index,
                views(self.permissions@)[index],
            ) matches PermissionOutcome::Tasks(tasks) ==> tasks_known(
                tasks,
                self.permissions@.len() as int,
            ),
    {
    }

    /// Whether the directory that was asked for is there.
    pub fn answer_directory(&mut self, is_dir: bool)
        requires
            old(self).wf(),
            old(self)@.pending.len() > 0,
            old(self)@.pending[0] is HostRoot,
        ensures
            final(self).wf(),
            final(self).same_setup(old(self)),
            final(self)@ == after_root(
                old(self).settings,
                views(old(self).permissions@),
                old(self)@,
                is_dir,
            ),
    {
        let ghost before = self@;
        assert(self@.pending.len() == self.pending@.len());
        assert(self@.pending[0] == self.pending@[0]@);
        let task = self.pending.remove(0);
        assert(views(self.pending@) =~= before.pending.skip(1));
        if let Task::HostRoot(index, path) = task {
            if is_dir {
                assert(views(self.permissions@)[index as int] == self.permissions@[index as int]@);
                let mut tasks = make_candidates(
                    index,
                    "host",
                    &path,
                    &path,
                    self.permissions[index].create,
                    self.settings.mount_points.as_slice(),
                );
                let ghost new_tasks = views(tasks@);
                let ghost t = tasks@;
                let ghost rest = self.pending@;
                tasks.append(&mut self.pending);
                assert(views(t + rest) =~= views(t) + views(rest));
                self.pending = tasks;
            }
        }
    }

    /// What the path that was asked for is.
    pub fn answer_resolved(&mut self, resolution: Resolution) -> (r: Result<(), FilesystemError>)
        requires
            old(self).wf(),
            old(self)@.pending.len() > 0,
            old(self)@.pending[0] is Resolve,
        ensures
            final(self).wf(),
            final(self).same_setup(old(self)),
            match after_resolved(
                old(self).settings,
                views(old(self).permissions@),
                old(self)@,
                resolution@,
            ) {
                Some(state) => r is Ok && final(self)@ == state,
                None => {
                    &&& r matches Err(e) && match e {
                        FilesystemError::RelativeHostGrant(p) => resolution@
                            == ResolutionView::Directory(p@) && !is_absolute(p@),
                        _ => refused_target(e, old(self)@.pending[0]->Resolve_0.sandbox_path),
                    }
                    &&& final(self)@ == (BuilderView {
                        pending: old(self)@.pending.skip(1),
                        ..old(self)@
                    })
                },
            },
    {
        let ghost before = self@;
        assert(self@.pending.len() == self.pending@.len());
        assert(self@.pending[0] == self.pending@[0]@);
        let task = self.pending.remove(0);
        assert(views(self.pending@) =~= before.pending.skip(1));
        if let Task::Resolve(candidate) = task {
            let permission = &self.permissions[candidate.permission];
            assert(views(self.permissions@)[candidate.permission as int] == permission@);
            proof {
                lemma_grants_stay_safe(
                    self.settings,
                    views(self.permissions@),
                    before,
                    resolution@,
                );
            }
            match settle(&self.settings, &permission.original, &candidate, resolution) {
                Ok(Verdict::Warning(text)) => {
                    proof {
                        lemma_texts_push(self.warnings@, text);
                    }
                    self.warnings.push(text);
                },
                Ok(Verdict::Expand(text, path)) => {
                    proof {
                        lemma_texts_push(self.warnings@, text);
                    }
                    self.warnings.push(text);
                    let child = Task::Expand(
                        Candidate {
                            permission: candidate.permission,
                            label: candidate.label,
                            host_path: path,
                            sandbox_path: candidate.sandbox_path,
                            create: candidate.create,
                            depth: candidate.depth + 1,
                        },
                    );
                    let ghost rest = self.pending@;
                    self.pending.insert(0, child);
                    assert(views(self.pending@) =~= seq![child@] + views(rest));
                },
                Ok(Verdict::Grant(path)) => {
                    let label = label_of(&self.settings, &path, &candidate.label);
                    let canonical = path.clone();
                    match HostPathGrant::new(
                        &label,
                        &permission.original,
                        path,
                        canonical,
                        candidate.sandbox_path,
                        permission.access,
                    ) {
                        Ok(grant) => {
                            proof {
                                self.given@ = self.given@.push(grant@);
                            }
                            add_grant(&mut self.grants, grant);
                        },
                        Err(e) => {
                            return Err(e);
                        },
                    }
                },
                Err(e) => {
                    return Err(e);
                },
            }
        }
        Ok(())
    }

    /// What the directory that was asked for holds.
    pub fn answer_listing(&mut self, entries: Vec<DirectoryEntry>)
        requires
            old(self).wf(),
            old(self)@.pending.len() > 0,
            old(self)@.pending[0] is Expand,
        ensures
            final(self).wf(),
            final(self).same_setup(old(self)),
            final(self)@ == after_listing(old(self)@, views(entries@)),
    {
        let ghost before = self@;
        assert(self@.pending.len() == self.pending@.len());
        assert(self@.pending[0] == self.pending@[0]@);
        let task = self.pending.remove(0);
        assert(views(self.pending@) =~= before.pending.skip(1));
        if let Task::Expand(parent) = task {
            proof {
                lemma_children_known(
                    parent@,
                    sorted(views(entries@), |a: EntryView, b: EntryView| entry_le(a, b)),
                    self.permissions@.len() as int,
                );
            }
            let mut tasks = expand_directory_children(&parent, entries);
            let ghost t = tasks@;
            let ghost rest = self.pending@;
            tasks.append(&mut self.pending);
            assert(views(t + rest) =~= views(t) + views(rest));
            self.pending = tasks;
        }
    }
}

/// Whether a grant shows nothing of this program's state and cannot contain itself.
pub open spec fn grant_is_safe(settings: GrantSettings, grant: GrantView) -> bool {
    &&& is_absolute(grant.host_path)
    &&& is_absolute(grant.sandbox_path)
    &&& grant.canonical_host_path == grant.host_path
    &&& !within(grant.host_path, settings.project_root@)
    &&& chroot_relative(grant.sandbox_path) matches Some(relative) && !overlap(
        grant.host_path,
        joined(settings.sandbox_root@, relative),
    )
}

/// Whether all grants are safe and no mount is granted twice.
pub open spec fn grants_are_safe(settings: GrantSettings, grants: Seq<GrantView>) -> bool {
    &&& forall|i: int| 0 <= i < grants.len() ==> grant_is_safe(settings, #[trigger] grants[i])
    &&& forall|i: int, j: int|
        #![trigger grants[i], grants[j]]
        0 <= i < j < grants.len() ==> !is_same_mount(
            grants[i],
            grants[j].host_path,
            grants[j].sandbox_path,
        )
}

/// Whether two grants are of the same mount.
pub open spec fn same_mount(a: GrantView, b: GrantView) -> bool {
    is_same_mount(a, b.host_path, b.sandbox_path)
}

/// Whether the mount of a grant that was given is among the grants.
pub open spec fn is_covered(given: Seq<GrantView>, grants: Seq<GrantView>, k: int) -> bool {
    exists|i: int| 0 <= i < grants.len() && same_mount(#[trigger] grants[i], given[k])
}

/// Whether a grant was given, whatever the access.
pub open spec fn was_given(given: Seq<GrantView>, grant: GrantView) -> bool {
    exists|k: int|
        0 <= k < given.len() && grant == (GrantView { access: grant.access, ..#[trigger] given[k] })
}

/// Whether it was granted to write through the mount of a grant.
pub open spec fn was_writable(given: Seq<GrantView>, grant: GrantView) -> bool {
    exists|k: int|
        0 <= k < given.len() && same_mount(grant, #[trigger] given[k]) && given[k].access
            == AccessMode::ReadWrite
}

/// Whether the grants are those that were given, each mount once: it can be written through if
/// and only if this was granted at least once.
pub open spec fn grants_merge(given: Seq<GrantView>, grants: Seq<GrantView>) -> bool {
    &&& forall|k: int| 0 <= k < given.len() ==> #[trigger] is_covered(given, grants, k)
    &&& forall|i: int| 0 <= i < grants.len() ==> #[trigger] was_given(given, grants[i])
    &&& forall|i: int|
        0 <= i < grants.len() ==> (grants[i].access == AccessMode::ReadWrite
            <==> #[trigger] was_writable(given, grants[i]))
}

proof fn lemma_mount_place(
    grants: Seq<GrantView>,
    host: Seq<char>,
    sandbox: Seq<char>,
    from: int,
)
    requires
        0 <= from,
    ensures
        match mount_place(grants, host, sandbox, from) {
            Some(i) => from <= i < grants.len() && is_same_mount(grants[i], host, sandbox),
            None => forall|i: int|
                from <= i < grants.len() ==> !is_same_mount(#[trigger] grants[i], host, sandbox),
        },
    decreases grants.len() - from,
{
    if from < grants.len() && !is_same_mount(grants[from], host, sandbox) {
        lemma_mount_place(grants, host, sandbox, from + 1);
    }
}

proof fn lemma_with_grant(
    settings: GrantSettings,
    given: Seq<GrantView>,
    grants: Seq<GrantView>,
    grant: GrantView,
)
    requires
        grants_are_safe(settings, grants),
        grants_merge(given, grants),
        grant_is_safe(settings, grant),
    ensures
        grants_are_safe(settings, with_grant(grants, grant)),
        grants_merge(given.push(grant), with_grant(grants, grant)),
{
    let all = given.push(grant);
    let after = with_grant(grants, grant);
    lemma_mount_place(grants, grant.host_path, grant.sandbox_path, 0);
    let place = mount_place(grants, grant.host_path, grant.sandbox_path, 0);
    let own = match place {
        Some(i) => i,
        None => grants.len() as int,
    };
    assert(same_mount(after[own], grant));
    assert forall|i: int| 0 <= i < after.len() implies grant_is_safe(
        settings,
        #[trigger] after[i],
    ) by {
        if i < grants.len() {
            assert(grant_is_safe(settings, grants[i]));
        }
    }
    assert forall|i: int, j: int|
        #![trigger after[i], after[j]]
        0 <= i < j < after.len() implies !is_same_mount(
        after[i],
        after[j].host_path,
        after[j].sandbox_path,
    ) by {
        if j < grants.len() {
            assert(!is_same_mount(grants[i], grants[j].host_path, grants[j].sandbox_path));
        }
    }
    assert forall|i: int| 0 <= i < after.len() && i != own implies i < grants.len() && after[i]
        == grants[i] && !same_mount(#[trigger] after[i], grant) by {
        assert(after[i] == grants[i]);
        assert(grant_is_safe(settings, grants[i]));
        if place is Some {
            assert(grant_is_safe(settings, grants[own]));
            if i < own {
                assert(!is_same_mount(grants[i], grants[own].host_path, grants[own].sandbox_path));
            } else {
                assert(!is_same_mount(grants[own], grants[i].host_path, grants[i].sandbox_path));
            }
        }
    }
    assert forall|k: int| 0 <= k < all.len() implies #[trigger] is_covered(all, after, k) by {
        if k < given.len() {
            assert(all[k] == given[k]);
            assert(is_covered(given, grants, k));
            let i = choose|i: int|
                0 <= i < grants.len() && same_mount(#[trigger] grants[i], given[k]);
            assert(same_mount(after[i], all[k]));
        } else {
            assert(same_mount(after[own], all[k]));
        }
    }
    assert forall|i: int| 0 <= i < after.len() implies #[trigger] was_given(all, after[i]) by {
        if i < grants.len() {
            assert(was_given(given, grants[i]));
            let k = choose|k: int|
                0 <= k < given.len() && grants[i] == (GrantView {
                    access: grants[i].access,
                    ..#[trigger] given[k]
                });
            assert(after[i] == (GrantView { access: after[i].access, ..all[k] }));
        } else {
            assert(after[i] == (GrantView { access: after[i].access, ..all[given.len() as int] }));
        }
    }
    assert forall|i: int| 0 <= i < after.len() implies (after[i].access == AccessMode::ReadWrite
        <==> #[trigger] was_writable(all, after[i])) by {
        if i < grants.len() {
            assert(was_writable(given, grants[i]) <==> grants[i].access == AccessMode::ReadWrite);
            if was_writable(given, grants[i]) {
                let k = choose|k: int|
                    0 <= k < given.len() && same_mount(grants[i], #[trigger] given[k])
                        && given[k].access == AccessMode::ReadWrite;
                assert(same_mount(after[i], all[k]));
            }
        }
        if i == own && grant.access == AccessMode::ReadWrite {
            assert(same_mount(after[i], all[given.len() as int]));
        }
        if was_writable(all, after[i]) {
            let k = choose|k: int|
                0 <= k < all.len() && same_mount(after[i], #[trigger] all[k]) && all[k].access
                    == AccessMode::ReadWrite;
            if k == given.len() {
                assert(i == own);
            } else {
                assert(all[k] == given[k]);
                if i < grants.len() {
                    assert(same_mount(grants[i], given[k]));
                } else {
                    assert(is_covered(given, grants, k));
                    let m = choose|m: int|
                        0 <= m < grants.len() && same_mount(#[trigger] grants[m], given[k]);
                    assert(!same_mount(after[m], grant));
                    assert(grant_is_safe(settings, grants[m]));
                    assert(same_mount(grant, given[k]));
                    assert(false);
                }
            }
        }
    }
}

/// No answer about a path makes the builder grant what is unsafe, or grant a mount twice; and a
/// mount can be written through if and only if this was granted at least once.
pub proof fn lemma_grants_stay_safe(
    settings: GrantSettings,
    permissions: Seq<PermissionView>,
    state: BuilderView,
    resolution: ResolutionView,
)
    requires
        grants_are_safe(settings, state.grants),
        grants_merge(state.given, state.grants),
    ensures
        after_resolved(settings, permissions, state, resolution) matches Some(next)
            ==> grants_are_safe(settings, next.grants) && grants_merge(next.given, next.grants),
{
    if let Some(next) = after_resolved(settings, permissions, state, resolution) {
        if let TaskView::Resolve(candidate) = state.pending[0] {
            let permission = permissions[candidate.permission];
            if let Settled::Grant(path) = settled(
                settings,
                permission.original,
                candidate,
                resolution,
            ) {
                let grant = made_grant(settings, permission, candidate, path);
                lemma_with_grant(settings, state.given, state.grants, grant);
            }
        }
    }
}

/// Granting a mount again never takes access away.
pub proof fn lemma_access_only_grows(grants: Seq<GrantView>, grant: GrantView, i: int)
    requires
        0 <= i < grants.len(),
    ensures
        with_grant(grants, grant).len() >= grants.len(),
        with_grant(grants, grant)[i] == (GrantView {
            access: with_grant(grants, grant)[i].access,
            ..grants[i]
        }),
        merged_access(grants[i].access, with_grant(grants, grant)[i].access) == with_grant(
            grants,
            grant,
        )[i].access,
{
    lemma_mount_place(grants, grant.host_path, grant.sandbox_path, 0);
}

} // verus!
