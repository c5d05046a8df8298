//! Directories of a sandbox that several extensions and the deployment fill together.

use crate::extensions::{ExtensionMount, ExtensionMountView};
use crate::order::{order_paths, path_le, sort_by, sort_paths, sorted, Relation};
use crate::path::{
    components, joined, lemma_parent, lemma_within_order, parent_of, path_after, path_texts,
    same_path, within, FsPath,
};
use crate::recovery_order::{is_named, names};
use crate::stale_sandbox_recovery::{lemma_parent_shorter, path_set};
use crate::text::{concat, lemma_views_push, texts, views};
use vstd::prelude::*;

verus! {

/// One entry of a merged directory and what it shows.
#[derive(Debug)]
pub struct ExtensionMergeEntry {
    pub name: FsPath,
    pub source: FsPath,
}

impl View for ExtensionMergeEntry {
    type V = (Seq<char>, Seq<char>);

    open spec fn view(&self) -> (Seq<char>, Seq<char>) {
        (self.name@, self.source@)
    }
}

impl Clone for ExtensionMergeEntry {
    fn clone(&self) -> (r: ExtensionMergeEntry)
        ensures
            r@ == self@,
    {
        ExtensionMergeEntry { name: self.name.clone(), source: self.source.clone() }
    }
}

/// A directory that shows what its deployment holds there and the entries of extensions.
#[derive(Debug)]
pub struct ExtensionMergeDirectory {
    pub target: FsPath,
    pub base_source: FsPath,
    pub entries: Vec<ExtensionMergeEntry>,
}

pub ghost struct MergeView {
    pub target: Seq<char>,
    pub base_source: Seq<char>,
    pub entries: Seq<(Seq<char>, Seq<char>)>,
}

impl View for ExtensionMergeDirectory {
    type V = MergeView;

    open spec fn view(&self) -> MergeView {
        MergeView {
            target: self.target@,
            base_source: self.base_source@,
            entries: views(self.entries@),
        }
    }
}

/// The names of entries.
pub open spec fn entry_names(entries: Seq<(Seq<char>, Seq<char>)>) -> Seq<Seq<char>> {
    Seq::new(entries.len(), |i: int| entries[i].0)
}

/// What the deployment gives to the directory: the entries that neither an extension replaces nor
/// a placeholder stands for.
pub open spec fn base_entries(
    base_source: Seq<char>,
    base_names: Seq<Seq<char>>,
    replaced: Seq<Seq<char>>,
    placeholders: Seq<Seq<char>>,
) -> Seq<(Seq<char>, Seq<char>)>
    decreases base_names.len(),
{
    if base_names.len() == 0 {
        Seq::empty()
    } else {
        let before = base_entries(base_source, base_names.drop_last(), replaced, placeholders);
        let name = base_names.last();
        if names(replaced, name) || names(placeholders, name) {
            before
        } else {
            before.push((name, joined(base_source, name)))
        }
    }
}

/// Entries are put in the order of their names.
pub open spec fn entry_le(a: (Seq<char>, Seq<char>), b: (Seq<char>, Seq<char>)) -> bool {
    path_le(a.0, b.0)
}

fn entry_at_most(a: &ExtensionMergeEntry, b: &ExtensionMergeEntry) -> (r: bool)
    ensures
        r == entry_le(a@, b@),
{
    match order_paths(&a.name, &b.name) {
        Relation::After => false,
        _ => true,
    }
}

/// The entries of a merged directory.
pub open spec fn merged_entries(
    merge: MergeView,
    base_names: Seq<Seq<char>>,
    placeholders: Seq<Seq<char>>,
) -> Seq<(Seq<char>, Seq<char>)> {
    sorted(
        base_entries(
            merge.base_source,
            base_names,
            entry_names(merge.entries),
            placeholders,
        ) + merge.entries,
        |a: (Seq<char>, Seq<char>), b: (Seq<char>, Seq<char>)| entry_le(a, b),
    )
}

fn names_of_entries(entries: &[ExtensionMergeEntry]) -> (r: Vec<FsPath>)
    ensures
        path_texts(r@) == entry_names(views(entries@)),
{
    let ghost all = entry_names(views(entries@));
    let mut out: Vec<FsPath> = Vec::new();
    let mut i: usize = 0;
    assert(path_texts(out@) =~= all.take(0));
    while i < entries.len()
        invariant
            i <= entries@.len(),
            all == entry_names(views(entries@)),
            path_texts(out@) == all.take(i as int),
        decreases entries@.len() - i,
    {
        let name = entries[i].name.clone();
        proof {
            lemma_views_push(out@, name);
            assert(all.take(i as int).push(name@) =~= all.take(i + 1));
        }
        out.push(name);
        i += 1;
    }
    assert(all.take(i as int) =~= all);
    out
}

/// The entries of a merged directory, in the order of their names.
pub fn merge_sources(
    merge: &ExtensionMergeDirectory,
    base_names: &[FsPath],
    placeholders: &[FsPath],
) -> (r: Vec<ExtensionMergeEntry>)
    ensures
        views(r@) == merged_entries(merge@, path_texts(base_names@), path_texts(placeholders@)),
{
    let replaced = names_of_entries(merge.entries.as_slice());
    let ghost all = path_texts(base_names@);
    let ghost given = path_texts(placeholders@);
    let mut out: Vec<ExtensionMergeEntry> = Vec::new();
    let mut i: usize = 0;
    assert(views(out@) =~= base_entries(
        merge@.base_source,
        all.take(0),
        path_texts(replaced@),
        given,
    ));
    while i < base_names.len()
        invariant
            i <= base_names@.len(),
            all == path_texts(base_names@),
            given == path_texts(placeholders@),
            views(out@) == base_entries(
                merge@.base_source,
                all.take(i as int),
                path_texts(replaced@),
                given,
            ),
        decreases base_names@.len() - i,
    {
        let ghost next = all.take(i + 1);
        assert(next.drop_last() =~= all.take(i as int));
        assert(next.last() == base_names@[i as int]@);
        let name = &base_names[i];
        if !is_named(replaced.as_slice(), name) && !is_named(placeholders, name) {
            let entry = ExtensionMergeEntry {
                name: name.clone(),
                source: merge.base_source.join_path(name),
            };
            proof {
                lemma_views_push(out@, entry);
            }
            out.push(entry);
        }
        i += 1;
    }
    assert(all.take(i as int) =~= all);
    let ghost start = views(out@);
    let ghost own = views(merge.entries@);
    let mut i: usize = 0;
    assert(start + own.take(0) =~= start);
    while i < merge.entries.len()
        invariant
            i <= merge.entries@.len(),
            own == views(merge.entries@),
            views(out@) == start + own.take(i as int),
        decreases merge.entries@.len() - i,
    {
        let entry = merge.entries[i].clone();
        proof {
            lemma_views_push(out@, entry);
            assert((start + own.take(i as int)).push(entry@) =~= start + own.take(i + 1));
        }
        out.push(entry);
        i += 1;
    }
    assert(own.take(i as int) =~= own);
    sort_by(
        out,
        entry_at_most,
        Ghost(|a: (Seq<char>, Seq<char>), b: (Seq<char>, Seq<char>)| entry_le(a, b)),
    )
}

/// What an entry is, where links are not followed.
#[derive(Debug)]
pub enum SourceKind {
    /// A symbolic link, with what it says.
    Link(String),
    Directory,
    File,
}

pub ghost enum KindView {
    Link(Seq<char>),
    Directory,
    File,
}

impl View for SourceKind {
    type V = KindView;

    open spec fn view(&self) -> KindView {
        match self {
            SourceKind::Link(text) => KindView::Link(text@),
            SourceKind::Directory => KindView::Directory,
            SourceKind::File => KindView::File,
        }
    }
}

/// One step of merging a directory.
#[derive(Debug)]
pub enum MergeStep {
    /// Mounts a file system in memory at a place in the sandbox.
    Tmpfs(FsPath),
    CreateDirectory(FsPath),
    CreateFile(FsPath),
    Symlink { says: String, link: FsPath },
    /// Shows an entry at a place in the sandbox, where nothing can be written.
    Mount { source: FsPath, target: FsPath },
}

pub ghost enum MergeStepView {
    Tmpfs(Seq<char>),
    CreateDirectory(Seq<char>),
    CreateFile(Seq<char>),
    Symlink { says: Seq<char>, link: Seq<char> },
    Mount { source: Seq<char>, target: Seq<char> },
}

impl View for MergeStep {
    type V = MergeStepView;

    open spec fn view(&self) -> MergeStepView {
        match self {
            MergeStep::Tmpfs(path) => MergeStepView::Tmpfs(path@),
            MergeStep::CreateDirectory(path) => MergeStepView::CreateDirectory(path@),
            MergeStep::CreateFile(path) => MergeStepView::CreateFile(path@),
            MergeStep::Symlink { says, link } => MergeStepView::Symlink {
                says: says@,
                link: link@,
            },
            MergeStep::Mount { source, target } => MergeStepView::Mount {
                source: source@,
                target: target@,
            },
        }
    }
}

/// What is done for one entry: a link is made again, anything else is shown.
pub open spec fn entry_steps(
    root: Seq<char>,
    target: Seq<char>,
    entry: (Seq<char>, Seq<char>),
    kind: KindView,
) -> Seq<MergeStepView> {
    let destination = joined(joined(root, target), entry.0);
    let mount = MergeStepView::Mount { source: entry.1, target: joined(target, entry.0) };
    match kind {
        KindView::Link(says) => seq![MergeStepView::Symlink { says, link: destination }],
        KindView::Directory => seq![MergeStepView::CreateDirectory(destination), mount],
        KindView::File => seq![MergeStepView::CreateFile(destination), mount],
    }
}

/// What is done for the entries.
pub open spec fn all_entry_steps(
    root: Seq<char>,
    target: Seq<char>,
    entries: Seq<(Seq<char>, Seq<char>)>,
    kinds: Seq<KindView>,
    n: int,
) -> Seq<MergeStepView>
    decreases n,
{
    if n <= 0 {
        Seq::empty()
    } else {
        all_entry_steps(root, target, entries, kinds, n - 1) + entry_steps(
            root,
            target,
            entries[n - 1],
            kinds[n - 1],
        )
    }
}

/// The directories that stand for what is mounted later.
pub open spec fn placeholder_steps(
    root: Seq<char>,
    target: Seq<char>,
    placeholders: Seq<Seq<char>>,
) -> Seq<MergeStepView> {
    Seq::new(
        placeholders.len(),
        |i: int| MergeStepView::CreateDirectory(joined(joined(root, target), placeholders[i])),
    )
}

/// The steps that merge a directory.
pub open spec fn merge_plan(
    root: Seq<char>,
    target: Seq<char>,
    placeholders: Seq<Seq<char>>,
    entries: Seq<(Seq<char>, Seq<char>)>,
    kinds: Seq<KindView>,
) -> Seq<MergeStepView> {
    seq![MergeStepView::Tmpfs(target)] + placeholder_steps(root, target, placeholders)
        + all_entry_steps(root, target, entries, kinds, entries.len() as int)
}

fn push_step(steps: &mut Vec<MergeStep>, step: MergeStep)
    ensures
        views(final(steps)@) == views(old(steps)@).push(step@),
{
    proof {
        lemma_views_push(steps@, step);
    }
    steps.push(step);
}

/// A directory that has to be merged is not there.
#[derive(Debug)]
pub struct MissingTarget {
    pub target: FsPath,
}

impl MissingTarget {
    pub fn message(&self) -> (r: String)
        ensures
            r@ == "extension merge target is missing from its deployment: "@ + self.target@,
    {
        concat(
            "extension merge target is missing from its deployment: ",
            self.target.as_str(),
        )
    }
}

/// The steps that merge a directory. `entries` are those of `merge_sources`, and `kinds` tells
/// what each of them is; `target_is_directory` tells whether the directory is there.
pub fn mount_extension_merge(
    root: &FsPath,
    target: &FsPath,
    target_is_directory: bool,
    placeholders: &[FsPath],
    entries: &[ExtensionMergeEntry],
    kinds: &[SourceKind],
) -> (r: Result<Vec<MergeStep>, MissingTarget>)
    requires
        entries@.len() == kinds@.len(),
    ensures
        match r {
            Ok(steps) => target_is_directory && views(steps@) == merge_plan(
                root@,
                target@,
                path_texts(placeholders@),
                views(entries@),
                views(kinds@),
            ),
            Err(missing) => !target_is_directory && missing.target@ == joined(root@, target@),
        },
{
    let place = root.join_path(target);
    if !target_is_directory {
        return Err(MissingTarget { target: place });
    }
    let ghost given = path_texts(placeholders@);
    let ghost first = seq![MergeStepView::Tmpfs(target@)];
    let ghost standing = placeholder_steps(root@, target@, given);
    let mut steps: Vec<MergeStep> = Vec::new();
    steps.push(MergeStep::Tmpfs(target.clone()));
    assert(views(steps@) =~= first);
    let mut i: usize = 0;
    assert(first + standing.take(0) =~= first);
    while i < placeholders.len()
        invariant
            i <= placeholders@.len(),
            given == path_texts(placeholders@),
            standing == placeholder_steps(root@, target@, given),
            place@ == joined(root@, target@),
            views(steps@) == first + standing.take(i as int),
        decreases placeholders@.len() - i,
    {
        push_step(&mut steps, MergeStep::CreateDirectory(place.join_path(&placeholders[i])));
        assert(given[i as int] == placeholders@[i as int]@);
        assert(views(steps@) =~= first + standing.take(i + 1));
        i += 1;
    }
    assert(standing.take(i as int) =~= standing);
    let ghost start = views(steps@);
    let ghost all = views(entries@);
    let ghost known = views(kinds@);
    let mut i: usize = 0;
    assert(start + all_entry_steps(root@, target@, all, known, 0) =~= start);
    while i < entries.len()
        invariant
            i <= entries@.len(),
            entries@.len() == kinds@.len(),
            all == views(entries@),
            known == views(kinds@),
            place@ == joined(root@, target@),
            views(steps@) == start + all_entry_steps(root@, target@, all, known, i as int),
        decreases entries@.len() - i,
    {
        assert(all[i as int] == entries@[i as int]@);
        assert(known[i as int] == kinds@[i as int]@);
        let entry = &entries[i];
        let destination = place.join_path(&entry.name);
        match &kinds[i] {
            SourceKind::Link(says) => {
                push_step(
                    &mut steps,
                    MergeStep::Symlink { says: says.clone(), link: destination },
                );
            },
            SourceKind::Directory => {
                push_step(&mut steps, MergeStep::CreateDirectory(destination));
                push_step(
                    &mut steps,
                    MergeStep::Mount {
                        source: entry.source.clone(),
                        target: target.join_path(&entry.name),
                    },
                );
            },
            SourceKind::File => {
                push_step(&mut steps, MergeStep::CreateFile(destination));
                push_step(
                    &mut steps,
                    MergeStep::Mount {
                        source: entry.source.clone(),
                        target: target.join_path(&entry.name),
                    },
                );
            },
        }
        assert(views(steps@) =~= start + all_entry_steps(root@, target@, all, known, i + 1));
        i += 1;
    }
    Ok(steps)
}

#[derive(Debug)]
pub enum ExtensionTargetError {
    /// The target lies neither in `/app` nor in `/usr`.
    OutsideScopes(FsPath),
    /// No directory above the target is there, short of the scope.
    NoParent(FsPath),
    /// The only directory that could be laid over is the scope as a whole.
    WholeScope(FsPath),
}

impl ExtensionTargetError {
    pub open spec fn spec_message(self) -> Seq<char> {
        match self {
            ExtensionTargetError::OutsideScopes(target) =>
                "extension target is outside /app and /usr: "@ + target@,
            ExtensionTargetError::NoParent(target) =>
                "extension target has no safe existing parent: "@ + target@,
            ExtensionTargetError::WholeScope(target) =>
                "refusing to overlay complete extension scope for target "@ + target@,
        }
    }

    pub fn message(&self) -> (r: String)
        ensures
            r@ == self.spec_message(),
    {
        match self {
            ExtensionTargetError::OutsideScopes(target) => concat(
                "extension target is outside /app and /usr: ",
                target.as_str(),
            ),
            ExtensionTargetError::NoParent(target) => concat(
                "extension target has no safe existing parent: ",
                target.as_str(),
            ),
            ExtensionTargetError::WholeScope(target) => concat(
                "refusing to overlay complete extension scope for target ",
                target.as_str(),
            ),
        }
    }
}

/// The nearest directory from a path upwards that is there, short of the scope.
pub open spec fn overlay_from(
    path: Seq<char>,
    scope: Seq<char>,
    existing: Seq<Seq<char>>,
) -> Option<Seq<char>>
    decreases components(path).len(),
{
    if names(existing, path) {
        Some(path)
    } else {
        match parent_of(path) {
            None => None,
            Some(parent) => {
                proof {
                    lemma_parent_shorter(path);
                }
                if same_path(parent, scope) {
                    None
                } else {
                    overlay_from(parent, scope, existing)
                }
            },
        }
    }
}

/// The nearest directory above a target that is there.
pub open spec fn overlay_below(
    target: Seq<char>,
    scope: Seq<char>,
    existing: Seq<Seq<char>>,
) -> Option<Seq<char>> {
    match parent_of(target) {
        None => None,
        Some(parent) => overlay_from(parent, scope, existing),
    }
}

/// The directory that is laid over so that a target can be made in it; the scope as a whole is
/// never laid over.
pub open spec fn overlay_of(target: Seq<char>, scope: Seq<char>, existing: Seq<Seq<char>>) -> Option<
    Seq<char>,
> {
    match overlay_below(target, scope, existing) {
        Some(overlay) => if same_path(overlay, scope) {
            None
        } else {
            Some(overlay)
        },
        None => None,
    }
}

/// What is laid over lies in the scope, above the target.
proof fn lemma_overlay_within(path: Seq<char>, scope: Seq<char>, existing: Seq<Seq<char>>)
    requires
        within(path, scope),
        same_path(path, scope) ==> names(existing, path),
    ensures
        overlay_from(path, scope, existing) matches Some(overlay) ==> within(overlay, scope)
            && within(path, overlay) && names(existing, overlay),
    decreases components(path).len(),
{
    lemma_within_order(path, path, path);
    if !names(existing, path) {
        lemma_parent(path);
        lemma_parent_shorter(path);
        if let Some(parent) = parent_of(path) {
            let n = components(scope).len() as int;
            assert(components(parent) =~= components(path).drop_last());
            assert(within(path, parent)) by {
                assert(components(path).take(components(parent).len() as int) =~= components(
                    parent,
                ));
            }
            if components(path).len() == n {
                assert(components(path).take(n) =~= components(path));
                assert(same_path(path, scope));
            }
            if !same_path(parent, scope) {
                assert(components(parent).take(n) =~= components(path).take(n));
                lemma_overlay_within(parent, scope, existing);
                if let Some(overlay) = overlay_from(parent, scope, existing) {
                    lemma_within_order(path, parent, overlay);
                }
            }
        }
    }
}

/// The scope that a target lies in, and where its deployment is.
pub open spec fn scope_of(target: Seq<char>) -> Option<Seq<char>> {
    if within(target, "app"@) {
        Some("app"@)
    } else if within(target, "usr"@) {
        Some("usr"@)
    } else {
        None
    }
}

/// Whether a target lies below its scope, whose directory is there if the target lies directly in
/// it.
pub open spec fn lies_below(target: Seq<char>, scope: Seq<char>, existing: Seq<Seq<char>>) -> bool {
    &&& within(target, scope)
    &&& !same_path(target, scope)
    &&& parent_of(target) is Some && same_path(parent_of(target)->0, scope) ==> names(
        existing,
        scope,
    )
}

/// The first component that each target has below a directory.
pub open spec fn first_names(mounts: Seq<ExtensionMountView>, directory: Seq<char>) -> Seq<Seq<char>>
    decreases mounts.len(),
{
    if mounts.len() == 0 {
        Seq::empty()
    } else {
        let before = first_names(mounts.drop_last(), directory);
        let target = mounts.last().target;
        let n = components(directory).len() as int;
        if within(target, directory) && components(target).len() > n {
            before.push(components(target)[n])
        } else {
            before
        }
    }
}

fn names_below(mounts: &[ExtensionMount], directory: &FsPath) -> (r: Vec<FsPath>)
    ensures
        path_texts(r@) == path_set(first_names(views(mounts@), directory@)),
{
    let ghost all = views(mounts@);
    let mut out: Vec<FsPath> = Vec::new();
    let mut i: usize = 0;
    assert(path_texts(out@) =~= first_names(all.take(0), directory@));
    while i < mounts.len()
        invariant
            i <= mounts@.len(),
            all == views(mounts@),
            path_texts(out@) == first_names(all.take(i as int), directory@),
        decreases mounts@.len() - i,
    {
        let ghost next = all.take(i + 1);
        assert(next.drop_last() =~= all.take(i as int));
        assert(next.last() == mounts@[i as int]@);
        if let Some(rest) = mounts[i].target.strip_prefix(directory) {
            let parts = rest.components();
            assert(texts(parts@).len() == parts@.len());
            if parts.len() > 0 {
                assert(texts(parts@)[0] == parts@[0]@);
                let name = FsPath { text: parts[0].clone() };
                proof {
                    lemma_views_push(out@, name);
                }
                out.push(name);
            }
        }
        i += 1;
    }
    assert(all.take(i as int) =~= all);
    sort_paths(out)
}

fn find_overlay(path: &FsPath, scope: &FsPath, existing: &[FsPath]) -> (r: Option<FsPath>)
    ensures
        match r {
            Some(overlay) => overlay_from(path@, scope@, path_texts(existing@)) == Some(overlay@),
            None => overlay_from(path@, scope@, path_texts(existing@)) is None,
        },
    decreases components(path@).len(),
{
    if is_named(existing, path) {
        return Some(path.clone());
    }
    match path.parent() {
        None => None,
        Some(parent) => {
            proof {
                lemma_parent_shorter(path@);
            }
            if parent.same_as(scope) {
                None
            } else {
                find_overlay(&parent, scope, existing)
            }
        },
    }
}

/// What is laid over a directory so that a target can be made in it: the directory as its
/// deployment holds it, with a placeholder for whatever is mounted in it.
#[derive(Debug)]
pub struct ExtensionOverlay {
    pub merge: ExtensionMergeDirectory,
    pub placeholders: Vec<FsPath>,
}

/// What has to be laid over so that a target can be made that its deployment does not hold.
/// `existing` are the directories that the sandbox has.
pub fn prepare_extension_directory(
    target: &FsPath,
    app_dir: &FsPath,
    runtime_dir: &FsPath,
    existing: &[FsPath],
    mounts: &[ExtensionMount],
) -> (r: Result<ExtensionOverlay, ExtensionTargetError>)
    requires
        scope_of(target@) matches Some(scope) ==> lies_below(
            target@,
            scope,
            path_texts(existing@),
        ),
    ensures
        match (r, scope_of(target@)) {
            (Err(ExtensionTargetError::OutsideScopes(path)), None) => path@ == target@,
            (Err(ExtensionTargetError::NoParent(path)), Some(scope)) => path@ == target@
                && overlay_below(target@, scope, path_texts(existing@)) is None,
            (Err(ExtensionTargetError::WholeScope(path)), Some(scope)) => path@ == target@ && (
            overlay_below(target@, scope, path_texts(existing@)) matches Some(overlay)
                && same_path(overlay, scope)),
            (Ok(overlay), Some(scope)) => {
                let over = overlay_of(target@, scope, path_texts(existing@));
                &&& over is Some
                &&& within(over->0, scope)
                &&& overlay.merge@ == (MergeView {
                    target: over->0,
                    base_source: joined(
                        joined(
                            if within(target@, "app"@) {
                                app_dir@
                            } else {
                                runtime_dir@
                            },
                            "files"@,
                        ),
                        path_after(over->0, components(scope).len()),
                    ),
                    entries: Seq::empty(),
                })
                &&& path_texts(overlay.placeholders@) == path_set(
                    first_names(views(mounts@), over->0),
                )
            },
            _ => false,
        },
{
    let app = FsPath::new("app");
    let usr = FsPath::new("usr");
    let (scope, deployment) = if target.starts_with(&app) {
        (app, app_dir)
    } else if target.starts_with(&usr) {
        (usr, runtime_dir)
    } else {
        return Err(ExtensionTargetError::OutsideScopes(target.clone()));
    };
    let ghost known = path_texts(existing@);
    let parent = match target.parent() {
        Some(parent) => parent,
        None => {
            return Err(ExtensionTargetError::NoParent(target.clone()));
        },
    };
    proof {
        lemma_parent(target@);
        let n = components(scope@).len() as int;
        if components(target@).len() == n {
            assert(components(target@).take(n) =~= components(target@));
        }
        assert(components(parent@).take(n) =~= components(target@).take(n));
        assert(within(parent@, scope@));
        if same_path(parent@, scope@) {
            let k = choose|k: int| 0 <= k < known.len() && same_path(#[trigger] known[k], scope@);
            assert(same_path(known[k], parent@));
            assert(names(known, parent@));
        }
        lemma_overlay_within(parent@, scope@, known);
    }
    let overlay = match find_overlay(&parent, &scope, existing) {
        Some(overlay) => overlay,
        None => {
            return Err(ExtensionTargetError::NoParent(target.clone()));
        },
    };
    if overlay.same_as(&scope) {
        return Err(ExtensionTargetError::WholeScope(target.clone()));
    }
    let relative = match overlay.strip_prefix(&scope) {
        Some(relative) => relative,
        None => {
            return Err(ExtensionTargetError::NoParent(target.clone()));
        },
    };
    let placeholders = names_below(mounts, &overlay);
    let base_source = deployment.join("files").join_path(&relative);
    let merge = ExtensionMergeDirectory { target: overlay, base_source, entries: Vec::new() };
    assert(merge@.entries =~= Seq::<(Seq<char>, Seq<char>)>::empty());
    Ok(ExtensionOverlay { merge, placeholders })
}

/// A directory is laid over only where it is there and lies below its scope: neither `/app` nor
/// `/usr` is ever hidden as a whole.
pub proof fn lemma_scope_is_not_hidden(
    target: Seq<char>,
    scope: Seq<char>,
    existing: Seq<Seq<char>>,
)
    requires
        lies_below(target, scope, existing),
    ensures
        overlay_of(target, scope, existing) matches Some(overlay) ==> within(overlay, scope)
            && !same_path(overlay, scope) && names(existing, overlay) && within(target, overlay),
{
    lemma_parent(target);
    if let Some(parent) = parent_of(target) {
        let n = components(scope).len() as int;
        if components(target).len() == n {
            assert(components(target).take(n) =~= components(target));
        }
        assert(components(parent).take(n) =~= components(target).take(n));
        assert(components(target).take(components(parent).len() as int) =~= components(parent));
        if same_path(parent, scope) {
            let k = choose|k: int|
                0 <= k < existing.len() && same_path(#[trigger] existing[k], scope);
            assert(same_path(existing[k], parent));
            assert(names(existing, parent));
        }
        lemma_overlay_within(parent, scope, existing);
        if let Some(overlay) = overlay_from(parent, scope, existing) {
            lemma_within_order(target, parent, overlay);
        }
    }
}

/// The one directory that holds all entries of a merged directory and nothing else, where there is
/// one and the deployment adds nothing: it can be shown as it is.
pub open spec fn direct_source(
    entries: Seq<(Seq<char>, Seq<char>)>,
    base_names: Seq<Seq<char>>,
    source_names: Seq<Seq<char>>,
) -> Option<Seq<char>> {
    if entries.len() == 0 || base_names.len() > 0 {
        None
    } else {
        match parent_of(entries[0].1) {
            None => None,
            Some(directory) => if (forall|i: int|
                0 <= i < entries.len() ==> same_path(
                    (#[trigger] entries[i]).1,
                    joined(directory, entries[i].0),
                )) && (forall|i: int|
                0 <= i < source_names.len() ==> names(
                    entry_names(entries),
                    #[trigger] source_names[i],
                )) {
                Some(directory)
            } else {
                None
            },
        }
    }
}

/// The one directory that can be shown in place of a merged one. `base_names` are the entries that
/// the deployment has, and `source_names` those of the directory that holds the first entry.
pub fn direct_merge_source(
    merge: &ExtensionMergeDirectory,
    base_names: &[FsPath],
    source_names: &[FsPath],
) -> (r: Option<FsPath>)
    ensures
        match r {
            Some(path) => direct_source(
                merge@.entries,
                path_texts(base_names@),
                path_texts(source_names@),
            ) == Some(path@),
            None => direct_source(
                merge@.entries,
                path_texts(base_names@),
                path_texts(source_names@),
            ) is None,
        },
{
    let ghost all = views(merge.entries@);
    let ghost held = path_texts(source_names@);
    assert(all.len() == merge.entries@.len());
    assert(path_texts(base_names@).len() == base_names@.len());
    if merge.entries.len() == 0 || base_names.len() > 0 {
        return None;
    }
    assert(all[0] == merge.entries@[0]@);
    let directory = match merge.entries[0].source.parent() {
        Some(directory) => directory,
        None => {
            return None;
        },
    };
    let mut i: usize = 0;
    while i < merge.entries.len()
        invariant
            i <= merge.entries@.len(),
            all == views(merge.entries@),
            all.len() > 0,
            path_texts(base_names@).len() == 0,
            parent_of(all[0].1) == Some(directory@),
            forall|j: int|
                0 <= j < i ==> same_path((#[trigger] all[j]).1, joined(directory@, all[j].0)),
        decreases merge.entries@.len() - i,
    {
        assert(all[i as int] == merge.entries@[i as int]@);
        let place = directory.join_path(&merge.entries[i].name);
        if !merge.entries[i].source.same_as(&place) {
            return None;
        }
        i += 1;
    }
    let own = names_of_entries(merge.entries.as_slice());
    let mut i: usize = 0;
    while i < source_names.len()
        invariant
            i <= source_names@.len(),
            all == views(merge.entries@),
            held == path_texts(source_names@),
            path_texts(own@) == entry_names(all),
            all.len() > 0,
            path_texts(base_names@).len() == 0,
            parent_of(all[0].1) == Some(directory@),
            forall|j: int|
                0 <= j < all.len() ==> same_path(
                    (#[trigger] all[j]).1,
                    joined(directory@, all[j].0),
                ),
            forall|j: int| 0 <= j < i ==> names(entry_names(all), #[trigger] held[j]),
        decreases source_names@.len() - i,
    {
        assert(held[i as int] == source_names@[i as int]@);
        if !is_named(own.as_slice(), &source_names[i]) {
            return None;
        }
        i += 1;
    }
    Some(directory)
}

} // verus!
