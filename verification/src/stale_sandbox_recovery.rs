//! Finding the sandboxes that nothing uses any more, and taking them down.

use crate::application_entrypoint::{sandbox_name, sandbox_name_of};
use crate::flatpak_metadata::last_value;
use crate::numbers::{i32_value, parse_i32};
use crate::order::{
    deduplicated, depth_order, is_total, lemma_path_order_total, lemma_sorted, order_by_depth,
    path_le, sort_by, sort_paths, sorted, Relation,
};
use crate::path::{
    components, joined, lemma_parent, parent_of, path_texts, same_path, within, FsPath,
};
use crate::process_supervision::SandboxProcessSnapshot;
use crate::recovery_order::{
    close_under_links, in_use, is_named, names, recovery_order, topological_path_order, Link,
};
use crate::state::StateValues;
use crate::text::{
    lemma_views_push, lines, selected, split, split_at_text, split_lines, split_text, split_text_at,
    text_eq, texts, trim, trim_end_of, trim_text, trim_text_end_of, views,
};
use vstd::prelude::*;

verus! {

/// A line of the mount table.
#[derive(Debug)]
pub struct MountInfo {
    pub source: FsPath,
    pub mountpoint: FsPath,
    pub options: String,
}

pub ghost struct MountInfoView {
    pub source: Seq<char>,
    pub mountpoint: Seq<char>,
    pub options: Seq<char>,
}

impl View for MountInfo {
    type V = MountInfoView;

    open spec fn view(&self) -> MountInfoView {
        MountInfoView {
            source: self.source@,
            mountpoint: self.mountpoint@,
            options: self.options@,
        }
    }
}

impl Clone for MountInfo {
    fn clone(&self) -> (r: MountInfo)
        ensures
            r@ == self@,
    {
        MountInfo {
            source: self.source.clone(),
            mountpoint: self.mountpoint.clone(),
            options: self.options.clone(),
        }
    }
}

/// What a line of the mount table says: a source, " on ", a place, and the options in brackets.
pub open spec fn mount_of_line(line: Seq<char>) -> Option<MountInfoView> {
    match split_at_text(line, " on "@) {
        Some((source, rest)) => match split_at_text(rest, " ("@) {
            Some((mountpoint, options)) => Some(
                MountInfoView { source, mountpoint, options: trim_end_of(options, ')') },
            ),
            None => None,
        },
        None => None,
    }
}

/// The mounts that the lines of the mount table name.
pub open spec fn mounts_in(ls: Seq<Seq<char>>) -> Seq<MountInfoView>
    decreases ls.len(),
{
    if ls.len() == 0 {
        Seq::empty()
    } else {
        let before = mounts_in(ls.drop_last());
        match mount_of_line(ls.last()) {
            Some(mount) => before.push(mount),
            None => before,
        }
    }
}

/// The mounts that a mount table names.
pub fn mount_infos(table: &str) -> (r: Vec<MountInfo>)
    ensures
        views(r@) == mounts_in(lines(table@)),
{
    let ls = split_lines(table);
    let ghost all = texts(ls@);
    let mut out: Vec<MountInfo> = Vec::new();
    let mut i: usize = 0;
    assert(views(out@) =~= mounts_in(all.take(0)));
    while i < ls.len()
        invariant
            i <= ls@.len(),
            all == texts(ls@),
            views(out@) == mounts_in(all.take(i as int)),
        decreases ls@.len() - i,
    {
        let ghost next = all.take(i + 1);
        assert(next.drop_last() =~= all.take(i as int));
        assert(next.last() == ls@[i as int]@);
        if let Some((source, rest)) = split_text_at(&ls[i], " on ") {
            if let Some((mountpoint, options)) = split_text_at(&rest, " (") {
                let mount = MountInfo {
                    source: FsPath { text: source },
                    mountpoint: FsPath { text: mountpoint },
                    options: trim_text_end_of(&options, ')'),
                };
                proof {
                    lemma_views_push(out@, mount);
                }
                out.push(mount);
            }
        }
        i += 1;
    }
    assert(all.take(i as int) =~= all);
    out
}

/// The places of the mounts.
pub open spec fn mountpoints(mounts: Seq<MountInfoView>) -> Seq<Seq<char>> {
    Seq::new(mounts.len(), |i: int| mounts[i].mountpoint)
}

/// The places of the mounts.
pub fn mount_points(mounts: &[MountInfo]) -> (r: Vec<FsPath>)
    ensures
        path_texts(r@) == mountpoints(views(mounts@)),
{
    let ghost all = mountpoints(views(mounts@));
    let mut out: Vec<FsPath> = Vec::new();
    let mut i: usize = 0;
    assert(path_texts(out@) =~= all.take(0));
    while i < mounts.len()
        invariant
            i <= mounts@.len(),
            all == mountpoints(views(mounts@)),
            path_texts(out@) == all.take(i as int),
        decreases mounts@.len() - i,
    {
        let path = mounts[i].mountpoint.clone();
        proof {
            lemma_views_push(out@, path);
            assert(all.take(i as int).push(path@) =~= all.take(i + 1));
        }
        out.push(path);
        i += 1;
    }
    assert(all.take(i as int) =~= all);
    out
}

/// Whether something is mounted at the path.
pub fn is_mounted(mounts: &[MountInfo], target: &FsPath) -> (r: bool)
    ensures
        r == names(mountpoints(views(mounts@)), target@),
{
    let points = mount_points(mounts);
    is_named(points.as_slice(), target)
}

/// A path where something is mounted already.
#[derive(Debug)]
pub struct MountpointTaken {
    pub target: FsPath,
}

impl MountpointTaken {
    pub fn message(&self) -> (r: String)
        ensures
            r@ == "sandbox mountpoint is already mounted; clean it first: "@ + self.target@,
    {
        crate::text::concat(
            "sandbox mountpoint is already mounted; clean it first: ",
            self.target.as_str(),
        )
    }
}

/// Nothing may be mounted where something is mounted already.
pub fn ensure_mountpoint_free(mounts: &[MountInfo], target: &FsPath) -> (r: Result<
    (),
    MountpointTaken,
>)
    ensures
        match r {
            Ok(_) => !names(mountpoints(views(mounts@)), target@),
            Err(e) => names(mountpoints(views(mounts@)), target@) && e.target@ == target@,
        },
{
    if is_mounted(mounts, target) {
        Err(MountpointTaken { target: target.clone() })
    } else {
        Ok(())
    }
}

/// Deep paths come first.
pub open spec fn deepest_le(p: Seq<char>, q: Seq<char>) -> bool {
    depth_order(q, p) != Relation::After
}

fn deepest_at_most(p: &FsPath, q: &FsPath) -> (r: bool)
    ensures
        r == deepest_le(p@, q@),
{
    match order_by_depth(q, p) {
        Relation::After => false,
        _ => true,
    }
}

proof fn lemma_deepest_total()
    ensures
        is_total(|p: Seq<char>, q: Seq<char>| deepest_le(p, q)),
{
    reveal(is_total);
    let f = |p: Seq<char>, q: Seq<char>| deepest_le(p, q);
    assert forall|a: Seq<char>, b: Seq<char>| #[trigger] f(a, b) || f(b, a) by {
        lemma_path_order_total(a, b, b);
    }
    assert forall|a: Seq<char>, b: Seq<char>, c: Seq<char>| #[trigger] f(a, b) && #[trigger] f(
        b,
        c,
    ) implies f(a, c) by {
        lemma_path_order_total(c, b, a);
        lemma_path_order_total(b, a, a);
        lemma_path_order_total(c, a, a);
    }
}

/// The paths, deep ones first.
pub open spec fn deepest_first(paths: Seq<Seq<char>>) -> Seq<Seq<char>> {
    sorted(paths, |p: Seq<char>, q: Seq<char>| deepest_le(p, q))
}

/// Puts deep paths first.
pub fn sort_mountpoints_deepest_first(mounts: Vec<FsPath>) -> (r: Vec<FsPath>)
    ensures
        path_texts(r@) == deepest_first(path_texts(mounts@)),
{
    sort_by(mounts, deepest_at_most, Ghost(|p: Seq<char>, q: Seq<char>| deepest_le(p, q)))
}

/// A path that lies below another comes before it, and no path is lost.
pub proof fn lemma_deepest_first(paths: Seq<Seq<char>>, i: int, j: int)
    requires
        0 <= i < paths.len(),
        0 <= j < paths.len(),
        within(deepest_first(paths)[j], deepest_first(paths)[i]),
        !same_path(deepest_first(paths)[j], deepest_first(paths)[i]),
    ensures
        j < i,
        deepest_first(paths).to_multiset() == paths.to_multiset(),
{
    let le = |p: Seq<char>, q: Seq<char>| deepest_le(p, q);
    let s = deepest_first(paths);
    lemma_deepest_total();
    lemma_sorted(paths, le);
    if i <= j {
        assert(le(s[i], s[j]));
        crate::order::lemma_parent_first(s[i], s[j]);
        lemma_path_order_total(s[i], s[j], s[j]);
        assert(false);
    }
}

/// The places of the mounts that lie in a directory, deep ones first.
pub open spec fn points_under(mounts: Seq<MountInfoView>, root: Seq<char>) -> Seq<Seq<char>> {
    deepest_first(selected(mountpoints(mounts), |p: Seq<char>| within(p, root)))
}

/// The paths that lie in a directory.
fn paths_under(paths: Vec<FsPath>, root: &FsPath) -> (r: Vec<FsPath>)
    ensures
        path_texts(r@) == selected(path_texts(paths@), |p: Seq<char>| within(p, root@)),
{
    let ghost all = path_texts(paths@);
    let ghost keep = |p: Seq<char>| within(p, root@);
    let mut out: Vec<FsPath> = Vec::new();
    let mut i: usize = 0;
    assert(path_texts(out@) =~= selected(all.take(0), keep));
    while i < paths.len()
        invariant
            i <= paths@.len(),
            all == path_texts(paths@),
            keep == (|p: Seq<char>| within(p, root@)),
            path_texts(out@) == selected(all.take(i as int), keep),
        decreases paths@.len() - i,
    {
        let ghost next = all.take(i + 1);
        assert(next.drop_last() =~= all.take(i as int));
        assert(next.last() == paths@[i as int]@);
        if paths[i].starts_with(root) {
            let path = paths[i].clone();
            proof {
                lemma_views_push(out@, path);
            }
            out.push(path);
        }
        i += 1;
    }
    assert(all.take(i as int) =~= all);
    out
}

/// The places of the mounts that lie in a directory, deep ones first.
pub fn mount_points_under(mounts: &[MountInfo], root: &FsPath) -> (r: Vec<FsPath>)
    ensures
        path_texts(r@) == points_under(views(mounts@), root@),
{
    let points = mount_points(mounts);
    let below = paths_under(points, root);
    sort_mountpoints_deepest_first(below)
}

/// Whether an application has anything mounted in any of its sandboxes.
pub fn app_has_mounts(chroots: &FsPath, app_id: &str, mounts: &[MountInfo]) -> (r: bool)
    ensures
        r == exists|i: int|
            0 <= i < mounts@.len() && within(
                (#[trigger] mounts@[i]).mountpoint@,
                joined(chroots@, sandbox_name_of(app_id@)),
            ),
{
    let name = sandbox_name(app_id);
    let root = chroots.join(&name);
    let mut i: usize = 0;
    while i < mounts.len()
        invariant
            i <= mounts@.len(),
            root@ == joined(chroots@, sandbox_name_of(app_id@)),
            forall|j: int|
                0 <= j < i ==> !within((#[trigger] mounts@[j]).mountpoint@, root@),
        decreases mounts@.len() - i,
    {
        if mounts[i].mountpoint.starts_with(&root) {
            return true;
        }
        i += 1;
    }
    false
}

/// Whether a path lies in any of the roots.
pub fn belongs_to_any_root(path: &FsPath, roots: &[FsPath]) -> (r: bool)
    ensures
        r == exists|i: int| 0 <= i < roots@.len() && within(path@, (#[trigger] roots@[i])@),
{
    let mut i: usize = 0;
    while i < roots.len()
        invariant
            i <= roots@.len(),
            forall|j: int| 0 <= j < i ==> !within(path@, (#[trigger] roots@[j])@),
        decreases roots@.len() - i,
    {
        if path.starts_with(&roots[i]) {
            return true;
        }
        i += 1;
    }
    false
}

/// Whether the options say that nothing can be written.
pub open spec fn says_read_only(options: Seq<char>) -> bool {
    exists|i: int|
        0 <= i < split(options, ',').len() && trim(#[trigger] split(options, ',')[i])
            == "read-only"@
}

/// The options of the first mount at a path.
pub open spec fn options_at(mounts: Seq<MountInfoView>, path: Seq<char>, from: int) -> Option<
    Seq<char>,
>
    decreases mounts.len() - from,
{
    if from >= mounts.len() {
        None
    } else if same_path(mounts[from].mountpoint, path) {
        Some(mounts[from].options)
    } else {
        options_at(mounts, path, from + 1)
    }
}

/// Whether nothing can be written at a mountpoint.
pub open spec fn read_only_at(mounts: Seq<MountInfoView>, path: Seq<char>) -> bool {
    match options_at(mounts, path, 0) {
        Some(options) => says_read_only(options),
        None => false,
    }
}

fn has_read_only(options: &str) -> (r: bool)
    ensures
        r == says_read_only(options@),
{
    let parts = split_text(options, ',');
    let ghost all = split(options@, ',');
    let mut i: usize = 0;
    while i < parts.len()
        invariant
            i <= parts@.len(),
            all == texts(parts@),
            all == split(options@, ','),
            forall|j: int| 0 <= j < i ==> trim(#[trigger] all[j]) != "read-only"@,
        decreases parts@.len() - i,
    {
        assert(all[i as int] == parts@[i as int]@);
        let part = trim_text(&parts[i]);
        if text_eq(&part, "read-only") {
            return true;
        }
        i += 1;
    }
    false
}

/// Whether nothing can be written at a mountpoint.
pub fn mountpoint_is_read_only(mounts: &[MountInfo], mountpoint: &FsPath) -> (r: bool)
    ensures
        r == read_only_at(views(mounts@), mountpoint@),
{
    let ghost all = views(mounts@);
    let mut i: usize = 0;
    while i < mounts.len()
        invariant
            i <= mounts@.len(),
            all == views(mounts@),
            options_at(all, mountpoint@, 0) == options_at(all, mountpoint@, i as int),
        decreases mounts@.len() - i,
    {
        assert(all[i as int] == mounts@[i as int]@);
        if mounts[i].mountpoint.same_as(mountpoint) {
            return has_read_only(&mounts[i].options);
        }
        i += 1;
    }
    false
}

/// The sandbox that a mountpoint belongs to: the nearest directory above it that is an instance
/// and lies below the directory of all sandboxes.
pub open spec fn owning_root(
    chroots: Seq<char>,
    path: Seq<char>,
    instances: Seq<Seq<char>>,
) -> Option<Seq<char>>
    decreases components(path).len(),
{
    match parent_of(path) {
        None => None,
        Some(parent) => {
            proof {
                lemma_parent_shorter(path);
            }
            if same_path(parent, chroots) {
                None
            } else if within(parent, chroots) && names(instances, parent) {
                Some(parent)
            } else {
                owning_root(chroots, parent, instances)
            }
        },
    }
}

pub proof fn lemma_parent_shorter(path: Seq<char>)
    ensures
        parent_of(path) matches Some(parent) ==> components(parent).len() < components(path).len(),
{
    lemma_parent(path);
    if parent_of(path) is Some {
        assert(components(path).len() > 0);
    }
}

/// The sandbox that a mountpoint belongs to. The instances are the directories that hold the file
/// by which a sandbox tells of itself.
pub fn chroot_root_for_mount(chroots: &FsPath, mountpoint: &FsPath, instances: &[FsPath]) -> (r:
    Option<FsPath>)
    ensures
        match r {
            Some(root) => owning_root(chroots@, mountpoint@, path_texts(instances@)) == Some(root@),
            None => owning_root(chroots@, mountpoint@, path_texts(instances@)) is None,
        },
    decreases components(mountpoint@).len(),
{
    match mountpoint.parent() {
        None => None,
        Some(parent) => {
            proof {
                lemma_parent_shorter(mountpoint@);
            }
            if parent.same_as(chroots) {
                None
            } else if parent.starts_with(chroots) && is_named(instances, &parent) {
                Some(parent)
            } else {
                chroot_root_for_mount(chroots, &parent, instances)
            }
        },
    }
}

/// What a launcher has written down of a sandbox that it owns.
#[derive(Debug)]
pub struct OwnershipRecord {
    pub root: Option<FsPath>,
    /// The sandbox whose mounts a nested one uses.
    pub parent_root: Option<FsPath>,
    pub launcher_active: bool,
    /// Where this is written down.
    pub path: Option<FsPath>,
}

pub ghost struct OwnershipView {
    pub root: Option<Seq<char>>,
    pub parent_root: Option<Seq<char>>,
    pub launcher_active: bool,
    pub path: Option<Seq<char>>,
}

pub open spec fn text_option(path: Option<FsPath>) -> Option<Seq<char>> {
    match path {
        Some(path) => Some(path@),
        None => None,
    }
}

impl View for OwnershipRecord {
    type V = OwnershipView;

    open spec fn view(&self) -> OwnershipView {
        OwnershipView {
            root: text_option(self.root),
            parent_root: text_option(self.parent_root),
            launcher_active: self.launcher_active,
            path: text_option(self.path),
        }
    }
}

/// What the record of a running instance says of who owns it.
pub open spec fn ownership_of(
    values: Seq<(Seq<char>, Seq<char>)>,
    launcher_active: bool,
) -> OwnershipView {
    OwnershipView {
        root: last_value(values, "root"@),
        parent_root: last_value(values, "parent_root"@),
        launcher_active,
        path: last_value(values, "_path"@),
    }
}

fn path_value(values: &StateValues, key: &str) -> (r: Option<FsPath>)
    ensures
        text_option(r) == last_value(values@, key@),
{
    match values.get(key) {
        Some(text) => Some(FsPath { text }),
        None => None,
    }
}

/// What the record of a running instance says of who owns it; `launcher_active` tells whether its
/// launcher lives.
pub fn ownership_record(values: &StateValues, launcher_active: bool) -> (r: OwnershipRecord)
    ensures
        r@ == ownership_of(values@, launcher_active),
{
    OwnershipRecord {
        root: path_value(values, "root"),
        parent_root: path_value(values, "parent_root"),
        launcher_active,
        path: path_value(values, "_path"),
    }
}

/// The process that the record of a running instance names as its launcher, if it names one.
pub open spec fn launcher_of(values: Seq<(Seq<char>, Seq<char>)>) -> Option<int> {
    match last_value(values, "launcher_pid"@) {
        Some(text) => match i32_value(text) {
            Some(pid) => if pid > 0 {
                Some(pid)
            } else {
                None
            },
            None => None,
        },
        None => None,
    }
}

/// The process that the record of a running instance names as its launcher, if it names one.
pub fn launcher_pid(values: &StateValues) -> (r: Option<i32>)
    ensures
        match r {
            Some(pid) => launcher_of(values@) == Some(pid as int),
            None => launcher_of(values@) is None,
        },
{
    match values.get("launcher_pid") {
        Some(text) => match parse_i32(&text) {
            Some(pid) => if pid > 0 {
                Some(pid)
            } else {
                None
            },
            None => None,
        },
        None => None,
    }
}

/// The paths in order, each once.
pub open spec fn path_set(paths: Seq<Seq<char>>) -> Seq<Seq<char>> {
    deduplicated(
        sorted(paths, |p: Seq<char>, q: Seq<char>| path_le(p, q)),
        |p: Seq<char>, q: Seq<char>| same_path(p, q),
    )
}

/// The sandboxes that records tell of.
pub open spec fn record_roots(records: Seq<OwnershipView>) -> Seq<Seq<char>>
    decreases records.len(),
{
    if records.len() == 0 {
        Seq::empty()
    } else {
        let before = record_roots(records.drop_last());
        match records.last().root {
            Some(root) => before.push(root),
            None => before,
        }
    }
}

/// The sandboxes that mounts belong to.
pub open spec fn mount_roots(
    chroots: Seq<char>,
    mounts: Seq<MountInfoView>,
    instances: Seq<Seq<char>>,
) -> Seq<Seq<char>>
    decreases mounts.len(),
{
    if mounts.len() == 0 {
        Seq::empty()
    } else {
        let before = mount_roots(chroots, mounts.drop_last(), instances);
        match owning_root(chroots, mounts.last().mountpoint, instances) {
            Some(root) => before.push(root),
            None => before,
        }
    }
}

/// Every sandbox that a record or a mount tells of.
pub fn sandbox_roots(
    chroots: &FsPath,
    records: &[OwnershipRecord],
    mounts: &[MountInfo],
    instances: &[FsPath],
) -> (r: Vec<FsPath>)
    ensures
        path_texts(r@) == path_set(
            record_roots(views(records@)) + mount_roots(
                chroots@,
                views(mounts@),
                path_texts(instances@),
            ),
        ),
{
    let ghost recorded = views(records@);
    let ghost mounted = views(mounts@);
    let ghost known = path_texts(instances@);
    let mut roots: Vec<FsPath> = Vec::new();
    let mut i: usize = 0;
    assert(path_texts(roots@) =~= record_roots(recorded.take(0)));
    while i < records.len()
        invariant
            i <= records@.len(),
            recorded == views(records@),
            path_texts(roots@) == record_roots(recorded.take(i as int)),
        decreases records@.len() - i,
    {
        let ghost next = recorded.take(i + 1);
        assert(next.drop_last() =~= recorded.take(i as int));
        assert(next.last() == records@[i as int]@);
        if let Some(root) = &records[i].root {
            let root = root.clone();
            proof {
                lemma_views_push(roots@, root);
            }
            roots.push(root);
        }
        i += 1;
    }
    assert(recorded.take(i as int) =~= recorded);
    let ghost start = record_roots(recorded);
    let mut i: usize = 0;
    assert(start + mount_roots(chroots@, mounted.take(0), known) =~= start);
    while i < mounts.len()
        invariant
            i <= mounts@.len(),
            mounted == views(mounts@),
            known == path_texts(instances@),
            path_texts(roots@) == start + mount_roots(chroots@, mounted.take(i as int), known),
        decreases mounts@.len() - i,
    {
        let ghost next = mounted.take(i + 1);
        assert(next.drop_last() =~= mounted.take(i as int));
        assert(next.last() == mounts@[i as int]@);
        if let Some(root) = chroot_root_for_mount(chroots, &mounts[i].mountpoint, instances) {
            proof {
                lemma_views_push(roots@, root);
            }
            roots.push(root);
        }
        assert(path_texts(roots@) =~= start + mount_roots(chroots@, next, known));
        i += 1;
    }
    assert(mounted.take(i as int) =~= mounted);
    sort_paths(roots)
}

/// The nested sandboxes, each with the one whose mounts it uses.
pub open spec fn record_links(records: Seq<OwnershipView>) -> Seq<(Seq<char>, Seq<char>)>
    decreases records.len(),
{
    if records.len() == 0 {
        Seq::empty()
    } else {
        let before = record_links(records.drop_last());
        match (records.last().root, records.last().parent_root) {
            (Some(root), Some(parent)) => before.push((root, parent)),
            _ => before,
        }
    }
}

/// The sandboxes that show something of a sandbox, each with that sandbox.
pub open spec fn mount_links(
    chroots: Seq<char>,
    mounts: Seq<MountInfoView>,
    instances: Seq<Seq<char>>,
) -> Seq<(Seq<char>, Seq<char>)>
    decreases mounts.len(),
{
    if mounts.len() == 0 {
        Seq::empty()
    } else {
        let before = mount_links(chroots, mounts.drop_last(), instances);
        match (
            owning_root(chroots, mounts.last().mountpoint, instances),
            owning_root(chroots, mounts.last().source, instances),
        ) {
            (Some(target_root), Some(source_root)) => before.push((target_root, source_root)),
            _ => before,
        }
    }
}

fn links_of_records(records: &[OwnershipRecord]) -> (r: Vec<Link>)
    ensures
        views(r@) == record_links(views(records@)),
{
    let ghost all = views(records@);
    let mut out: Vec<Link> = Vec::new();
    let mut i: usize = 0;
    assert(views(out@) =~= record_links(all.take(0)));
    while i < records.len()
        invariant
            i <= records@.len(),
            all == views(records@),
            views(out@) == record_links(all.take(i as int)),
        decreases records@.len() - i,
    {
        let ghost next = all.take(i + 1);
        assert(next.drop_last() =~= all.take(i as int));
        assert(next.last() == records@[i as int]@);
        if let (Some(root), Some(parent)) = (&records[i].root, &records[i].parent_root) {
            let link = Link { user: root.clone(), needed: parent.clone() };
            proof {
                lemma_views_push(out@, link);
            }
            out.push(link);
        }
        i += 1;
    }
    assert(all.take(i as int) =~= all);
    out
}

fn links_of_mounts(chroots: &FsPath, mounts: &[MountInfo], instances: &[FsPath]) -> (r: Vec<Link>)
    ensures
        views(r@) == mount_links(chroots@, views(mounts@), path_texts(instances@)),
{
    let ghost all = views(mounts@);
    let ghost known = path_texts(instances@);
    let mut out: Vec<Link> = Vec::new();
    let mut i: usize = 0;
    assert(views(out@) =~= mount_links(chroots@, all.take(0), known));
    while i < mounts.len()
        invariant
            i <= mounts@.len(),
            all == views(mounts@),
            known == path_texts(instances@),
            views(out@) == mount_links(chroots@, all.take(i as int), known),
        decreases mounts@.len() - i,
    {
        let ghost next = all.take(i + 1);
        assert(next.drop_last() =~= all.take(i as int));
        assert(next.last() == mounts@[i as int]@);
        let target_root = chroot_root_for_mount(chroots, &mounts[i].mountpoint, instances);
        let source_root = chroot_root_for_mount(chroots, &mounts[i].source, instances);
        if let (Some(user), Some(needed)) = (target_root, source_root) {
            let link = Link { user, needed };
            proof {
                lemma_views_push(out@, link);
            }
            out.push(link);
        }
        i += 1;
    }
    assert(all.take(i as int) =~= all);
    out
}

/// Whether a process is tied to a directory in the root.
pub open spec fn tied_to(processes: SandboxProcessSnapshot, root: Seq<char>) -> bool {
    exists|i: int|
        0 <= i < processes.references@.len() && within(
            (#[trigger] processes.references@[i]).path@,
            root,
        )
}

/// The recorded sandboxes that a process or their launcher uses.
pub open spec fn recorded_in_use(
    records: Seq<OwnershipView>,
    processes: SandboxProcessSnapshot,
) -> Seq<Seq<char>>
    decreases records.len(),
{
    if records.len() == 0 {
        Seq::empty()
    } else {
        let before = recorded_in_use(records.drop_last(), processes);
        match records.last().root {
            Some(root) => if tied_to(processes, root) || records.last().launcher_active {
                before.push(root)
            } else {
                before
            },
            None => before,
        }
    }
}

fn roots_in_use(records: &[OwnershipRecord], processes: &SandboxProcessSnapshot) -> (r: Vec<FsPath>)
    ensures
        path_texts(r@) == recorded_in_use(views(records@), *processes),
{
    let ghost all = views(records@);
    let mut out: Vec<FsPath> = Vec::new();
    let mut i: usize = 0;
    assert(path_texts(out@) =~= recorded_in_use(all.take(0), *processes));
    while i < records.len()
        invariant
            i <= records@.len(),
            all == views(records@),
            path_texts(out@) == recorded_in_use(all.take(i as int), *processes),
        decreases records@.len() - i,
    {
        let ghost next = all.take(i + 1);
        assert(next.drop_last() =~= all.take(i as int));
        assert(next.last() == records@[i as int]@);
        if let Some(root) = &records[i].root {
            if processes.references_root(root) || records[i].launcher_active {
                let root = root.clone();
                proof {
                    lemma_views_push(out@, root);
                }
                out.push(root);
            }
        }
        i += 1;
    }
    assert(all.take(i as int) =~= all);
    out
}

/// The recorded sandboxes that are in use, and those that they are nested in: the mounts of a
/// parent are the sources of those of a nested sandbox.
pub fn active_roots_from_records(
    records: &[OwnershipRecord],
    processes: &SandboxProcessSnapshot,
) -> (r: Vec<FsPath>)
    ensures
        forall|path: Seq<char>| #[trigger]
            names(path_texts(r@), path) <==> in_use(
                recorded_in_use(views(records@), *processes),
                record_links(views(records@)),
                path,
            ),
{
    let seeds = roots_in_use(records, processes);
    let links = links_of_records(records);
    close_under_links(seeds, links.as_slice())
}

/// What uses a sandbox: its launcher, or a process.
pub open spec fn users_of(
    records: Seq<OwnershipView>,
    roots: Seq<Seq<char>>,
    processes: SandboxProcessSnapshot,
) -> Seq<Seq<char>> {
    recorded_in_use(records, processes) + selected(roots, |p: Seq<char>| tied_to(processes, p))
}

/// Which sandboxes need which others.
pub open spec fn all_links(
    chroots: Seq<char>,
    records: Seq<OwnershipView>,
    mounts: Seq<MountInfoView>,
    instances: Seq<Seq<char>>,
) -> Seq<(Seq<char>, Seq<char>)> {
    record_links(records) + mount_links(chroots, mounts, instances)
}

/// Whether a sandbox is in use, or needed by one that is.
pub open spec fn is_active(
    chroots: Seq<char>,
    records: Seq<OwnershipView>,
    mounts: Seq<MountInfoView>,
    instances: Seq<Seq<char>>,
    roots: Seq<Seq<char>>,
    processes: SandboxProcessSnapshot,
    path: Seq<char>,
) -> bool {
    in_use(
        users_of(records, roots, processes),
        all_links(chroots, records, mounts, instances),
        path,
    )
}

/// The sandboxes that are in use, and those that they need.
pub fn active_sandbox_roots(
    chroots: &FsPath,
    records: &[OwnershipRecord],
    mounts: &[MountInfo],
    instances: &[FsPath],
    roots: &[FsPath],
    processes: &SandboxProcessSnapshot,
) -> (r: Vec<FsPath>)
    ensures
        forall|path: Seq<char>| #[trigger]
            names(path_texts(r@), path) <==> is_active(
                chroots@,
                views(records@),
                views(mounts@),
                path_texts(instances@),
                path_texts(roots@),
                *processes,
                path,
            ),
{
    let ghost all = path_texts(roots@);
    let ghost keep = |p: Seq<char>| tied_to(*processes, p);
    let mut seeds = roots_in_use(records, processes);
    let ghost start = path_texts(seeds@);
    let mut i: usize = 0;
    assert(start + selected(all.take(0), keep) =~= start);
    while i < roots.len()
        invariant
            i <= roots@.len(),
            all == path_texts(roots@),
            keep == (|p: Seq<char>| tied_to(*processes, p)),
            path_texts(seeds@) == start + selected(all.take(i as int), keep),
        decreases roots@.len() - i,
    {
        let ghost next = all.take(i + 1);
        assert(next.drop_last() =~= all.take(i as int));
        assert(next.last() == roots@[i as int]@);
        if processes.references_root(&roots[i]) {
            let root = roots[i].clone();
            proof {
                lemma_views_push(seeds@, root);
            }
            seeds.push(root);
        }
        assert(path_texts(seeds@) =~= start + selected(next, keep));
        i += 1;
    }
    assert(all.take(i as int) =~= all);
    let mut links = links_of_records(records);
    let mut more = links_of_mounts(chroots, mounts, instances);
    let ghost recorded = links@;
    let ghost mounted = more@;
    links.append(&mut more);
    assert(views(links@) =~= views(recorded) + views(mounted));
    close_under_links(seeds, links.as_slice())
}

/// Whether both ends of a link are among the roots, and, where asked for, differ.
pub open spec fn link_counts(
    roots: Seq<Seq<char>>,
    distinct: bool,
    link: (Seq<char>, Seq<char>),
) -> bool {
    names(roots, link.0) && names(roots, link.1) && (distinct ==> !same_path(link.0, link.1))
}

fn counting_links(links: Vec<Link>, roots: &[FsPath], distinct: bool) -> (r: Vec<Link>)
    ensures
        views(r@) == selected(
            views(links@),
            |l: (Seq<char>, Seq<char>)| link_counts(path_texts(roots@), distinct, l),
        ),
{
    let ghost all = views(links@);
    let ghost keep = |l: (Seq<char>, Seq<char>)| link_counts(path_texts(roots@), distinct, l);
    let mut out: Vec<Link> = Vec::new();
    let mut i: usize = 0;
    assert(views(out@) =~= selected(all.take(0), keep));
    while i < links.len()
        invariant
            i <= links@.len(),
            all == views(links@),
            keep == (|l: (Seq<char>, Seq<char>)| link_counts(path_texts(roots@), distinct, l)),
            views(out@) == selected(all.take(i as int), keep),
        decreases links@.len() - i,
    {
        let ghost next = all.take(i + 1);
        assert(next.drop_last() =~= all.take(i as int));
        assert(next.last() == links@[i as int]@);
        if is_named(roots, &links[i].user) && is_named(roots, &links[i].needed) && !(distinct
            && links[i].user.same_as(&links[i].needed)) {
            let link = Link { user: links[i].user.clone(), needed: links[i].needed.clone() };
            proof {
                lemma_views_push(out@, link);
            }
            out.push(link);
        }
        i += 1;
    }
    assert(all.take(i as int) =~= all);
    out
}

/// Which of the roots must be taken down before which others.
pub open spec fn root_dependencies(
    chroots: Seq<char>,
    roots: Seq<Seq<char>>,
    records: Seq<OwnershipView>,
    mounts: Seq<MountInfoView>,
    instances: Seq<Seq<char>>,
) -> Seq<(Seq<char>, Seq<char>)> {
    selected(
        record_links(records),
        |l: (Seq<char>, Seq<char>)| link_counts(roots, false, l),
    ) + selected(
        mount_links(chroots, mounts, instances),
        |l: (Seq<char>, Seq<char>)| link_counts(roots, true, l),
    )
}

/// The order in which sandboxes are taken down: a nested one before its parent, and one that shows
/// something of another before that other.
pub fn order_sandbox_roots_for_recovery(
    chroots: &FsPath,
    roots: Vec<FsPath>,
    records: &[OwnershipRecord],
    mounts: &[MountInfo],
    instances: &[FsPath],
) -> (r: Vec<FsPath>)
    ensures
        path_texts(r@) == recovery_order(
            path_set(path_texts(roots@)),
            root_dependencies(
                chroots@,
                path_texts(roots@),
                views(records@),
                views(mounts@),
                path_texts(instances@),
            ),
        ),
{
    let recorded = links_of_records(records);
    let mut dependencies = counting_links(recorded, roots.as_slice(), false);
    let mounted = links_of_mounts(chroots, mounts, instances);
    let mut more = counting_links(mounted, roots.as_slice(), true);
    let ghost first = dependencies@;
    let ghost second = more@;
    dependencies.append(&mut more);
    assert(views(dependencies@) =~= views(first) + views(second));
    topological_path_order(roots, dependencies.as_slice())
}

/// The sandboxes of a snapshot that nothing uses.
pub open spec fn stale_roots(
    chroots: Seq<char>,
    records: Seq<OwnershipView>,
    mounts: Seq<MountInfoView>,
    instances: Seq<Seq<char>>,
    processes: SandboxProcessSnapshot,
) -> Seq<Seq<char>> {
    let roots = path_set(record_roots(records) + mount_roots(chroots, mounts, instances));
    selected(
        roots,
        |p: Seq<char>| !is_active(chroots, records, mounts, instances, roots, processes, p),
    )
}

/// The sandboxes that are to be recovered, in their order. Before each is taken down the state is
/// read again, and one that has come into use meanwhile is left: see `is_still_stale`.
pub fn recover_stale_mounts(
    chroots: &FsPath,
    records: &[OwnershipRecord],
    mounts: &[MountInfo],
    instances: &[FsPath],
    processes: &SandboxProcessSnapshot,
) -> (r: Vec<FsPath>)
    ensures
        path_texts(r@) == recovery_order(
            path_set(
                stale_roots(
                    chroots@,
                    views(records@),
                    views(mounts@),
                    path_texts(instances@),
                    *processes,
                ),
            ),
            root_dependencies(
                chroots@,
                stale_roots(
                    chroots@,
                    views(records@),
                    views(mounts@),
                    path_texts(instances@),
                    *processes,
                ),
                views(records@),
                views(mounts@),
                path_texts(instances@),
            ),
        ),
{
    let roots = sandbox_roots(chroots, records, mounts, instances);
    let active = active_sandbox_roots(
        chroots,
        records,
        mounts,
        instances,
        roots.as_slice(),
        processes,
    );
    let ghost all = path_texts(roots@);
    let ghost keep = |p: Seq<char>|
        !is_active(
            chroots@,
            views(records@),
            views(mounts@),
            path_texts(instances@),
            all,
            *processes,
            p,
        );
    let mut stale: Vec<FsPath> = Vec::new();
    let mut i: usize = 0;
    assert(path_texts(stale@) =~= selected(all.take(0), keep));
    while i < roots.len()
        invariant
            i <= roots@.len(),
            all == path_texts(roots@),
            forall|p: Seq<char>| #[trigger] names(path_texts(active@), p) <==> !keep(p),
            path_texts(stale@) == selected(all.take(i as int), keep),
        decreases roots@.len() - i,
    {
        let ghost next = all.take(i + 1);
        assert(next.drop_last() =~= all.take(i as int));
        assert(next.last() == roots@[i as int]@);
        if !is_named(active.as_slice(), &roots[i]) {
            let root = roots[i].clone();
            proof {
                lemma_views_push(stale@, root);
            }
            stale.push(root);
        }
        i += 1;
    }
    assert(all.take(i as int) =~= all);
    order_sandbox_roots_for_recovery(chroots, stale, records, mounts, instances)
}

/// Whether nothing uses a sandbox in a new snapshot.
pub fn is_still_stale(
    root: &FsPath,
    chroots: &FsPath,
    records: &[OwnershipRecord],
    mounts: &[MountInfo],
    instances: &[FsPath],
    processes: &SandboxProcessSnapshot,
) -> (r: bool)
    ensures
        r == !is_active(
            chroots@,
            views(records@),
            views(mounts@),
            path_texts(instances@),
            path_set(
                record_roots(views(records@)) + mount_roots(
                    chroots@,
                    views(mounts@),
                    path_texts(instances@),
                ),
            ),
            *processes,
            root@,
        ),
{
    let roots = sandbox_roots(chroots, records, mounts, instances);
    let active = active_sandbox_roots(
        chroots,
        records,
        mounts,
        instances,
        roots.as_slice(),
        processes,
    );
    !is_named(active.as_slice(), root)
}

/// Where the records of a sandbox are written down.
pub open spec fn paths_of_records(records: Seq<OwnershipView>, root: Seq<char>) -> Seq<Seq<char>>
    decreases records.len(),
{
    if records.len() == 0 {
        Seq::empty()
    } else {
        let before = paths_of_records(records.drop_last(), root);
        match (records.last().root, records.last().path) {
            (Some(other), Some(path)) => if same_path(other, root) {
                before.push(path)
            } else {
                before
            },
            _ => before,
        }
    }
}

/// The records that are removed with a sandbox.
pub fn records_of_root(records: &[OwnershipRecord], root: &FsPath) -> (r: Vec<FsPath>)
    ensures
        path_texts(r@) == paths_of_records(views(records@), root@),
{
    let ghost all = views(records@);
    let mut out: Vec<FsPath> = Vec::new();
    let mut i: usize = 0;
    assert(path_texts(out@) =~= paths_of_records(all.take(0), root@));
    while i < records.len()
        invariant
            i <= records@.len(),
            all == views(records@),
            path_texts(out@) == paths_of_records(all.take(i as int), root@),
        decreases records@.len() - i,
    {
        let ghost next = all.take(i + 1);
        assert(next.drop_last() =~= all.take(i as int));
        assert(next.last() == records@[i as int]@);
        if let (Some(other), Some(path)) = (&records[i].root, &records[i].path) {
            if other.same_as(root) {
                let path = path.clone();
                proof {
                    lemma_views_push(out@, path);
                }
                out.push(path);
            }
        }
        i += 1;
    }
    assert(all.take(i as int) =~= all);
    out
}

} // verus!
