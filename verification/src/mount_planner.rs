//! The mounts of a sandbox: what has to be done for each, and what has been done.

use crate::mount_operations::{
    covering, mapped_source, optional_text, shown_at, source_shown_at, MappingView, MountView,
    NullfsMapping, OwnedMount,
};
use crate::numbers::{decimal, is_digit, lemma_decimal, render_u64};
use crate::path::{
    components, is_absolute, joined, lemma_joined, lemma_joined_inside, lemma_joined_within,
    lemma_name, path_texts, same_path, within, FsPath,
};
use crate::text::{lemma_views_push, views};
use vstd::prelude::*;

verus! {

/// The directory in a sandbox in which a directory is shown first that cannot be shown at its
/// place directly.
pub open spec fn staging_name() -> Seq<char> {
    ".freebsd-flatpak-mount-sources"@
}

/// One thing that is done to make a mount.
#[derive(Debug)]
pub enum MountAction {
    CreateDirectory(FsPath),
    /// Mounts a file system in memory.
    Tmpfs { target: FsPath, options: String, staging: bool },
    /// Mounts a file system of the system's own.
    Special { target: FsPath, fs_type: String, device: String },
    /// Shows a directory. `shown` is what the mount shows in the end; a pinned source is the one
    /// that was looked at, by its device and number.
    Nullfs { source: FsPath, shown: FsPath, target: FsPath, read_only: bool, pinned: bool },
}

pub ghost enum ActionView {
    CreateDirectory(Seq<char>),
    Tmpfs { target: Seq<char>, options: Seq<char>, staging: bool },
    Special { target: Seq<char>, fs_type: Seq<char>, device: Seq<char> },
    Nullfs {
        source: Seq<char>,
        shown: Seq<char>,
        target: Seq<char>,
        read_only: bool,
        pinned: bool,
    },
}

impl View for MountAction {
    type V = ActionView;

    open spec fn view(&self) -> ActionView {
        match self {
            MountAction::CreateDirectory(path) => ActionView::CreateDirectory(path@),
            MountAction::Tmpfs { target, options, staging } => ActionView::Tmpfs {
                target: target@,
                options: options@,
                staging: *staging,
            },
            MountAction::Special { target, fs_type, device } => ActionView::Special {
                target: target@,
                fs_type: fs_type@,
                device: device@,
            },
            MountAction::Nullfs { source, shown, target, read_only, pinned } => ActionView::Nullfs {
                source: source@,
                shown: shown@,
                target: target@,
                read_only: *read_only,
                pinned: *pinned,
            },
        }
    }
}

/// The mounts that a sandbox has made.
#[derive(Debug)]
pub struct MountTable {
    pub root: FsPath,
    pub owned_mounts: Vec<OwnedMount>,
    pub nullfs_mounts: Vec<NullfsMapping>,
    /// The mounts that a nested sandbox does not get.
    pub nested_excluded_mounts: Vec<FsPath>,
    pub mount_staging_ready: bool,
    pub next_mount_staging_id: u64,
}

pub ghost struct TableView {
    pub root: Seq<char>,
    pub owned: Seq<MountView>,
    pub mappings: Seq<MappingView>,
    pub excluded: Seq<Seq<char>>,
    pub staging_ready: bool,
    pub next_staging_id: nat,
}

impl View for MountTable {
    type V = TableView;

    open spec fn view(&self) -> TableView {
        TableView {
            root: self.root@,
            owned: views(self.owned_mounts@),
            mappings: views(self.nullfs_mounts@),
            excluded: path_texts(self.nested_excluded_mounts@),
            staging_ready: self.mount_staging_ready,
            next_staging_id: self.next_mount_staging_id as nat,
        }
    }
}

/// Whether a source lies in the directory that only this sandbox fills.
pub open spec fn is_private(root: Seq<char>, source: Seq<char>) -> bool {
    within(source, joined(root, staging_name()))
}

/// Where a directory is shown first that cannot be shown at its place directly.
pub open spec fn staging_target(table: TableView) -> Seq<char> {
    joined(staging_name(), decimal(table.next_staging_id))
}

/// What has to be done to show a directory, given what the target shows already: a directory is
/// not shown upon itself, but through another place.
pub open spec fn nullfs_plan(
    table: TableView,
    source: Seq<char>,
    target: Seq<char>,
    read_only: bool,
    shown: Option<Seq<char>>,
) -> Seq<ActionView> {
    let pinned = !is_private(table.root, source);
    if shown is Some && same_path(shown->0, source) {
        let staging = if table.staging_ready {
            Seq::empty()
        } else {
            seq![
                ActionView::CreateDirectory(joined(table.root, staging_name())),
                ActionView::Tmpfs {
                    target: staging_name(),
                    options: "mode=0700"@,
                    staging: true,
                },
            ]
        };
        staging + seq![
            ActionView::Nullfs {
                source,
                shown: source,
                target: staging_target(table),
                read_only,
                pinned,
            },
            ActionView::Nullfs {
                source: joined(table.root, staging_target(table)),
                shown: source,
                target,
                read_only,
                pinned: false,
            },
        ]
    } else {
        seq![ActionView::Nullfs { source, shown: source, target, read_only, pinned }]
    }
}

/// The mounts after an action has been done.
pub open spec fn recorded(table: TableView, action: ActionView) -> TableView {
    match action {
        ActionView::CreateDirectory(_) => table,
        ActionView::Tmpfs { target, options, staging } => TableView {
            owned: table.owned.push(
                MountView { path: joined(table.root, target), read_only: false },
            ),
            staging_ready: table.staging_ready || staging,
            ..table
        },
        ActionView::Special { target, fs_type, device } => TableView {
            owned: table.owned.push(
                MountView { path: joined(table.root, target), read_only: false },
            ),
            ..table
        },
        ActionView::Nullfs { source, shown, target, read_only, pinned } => TableView {
            owned: table.owned.push(MountView { path: joined(table.root, target), read_only }),
            mappings: table.mappings.push(
                MappingView { source: shown, target: joined(table.root, target) },
            ),
            ..table
        },
    }
}

/// The target of a mount.
pub open spec fn action_target(action: ActionView) -> Option<Seq<char>> {
    match action {
        ActionView::CreateDirectory(_) => None,
        ActionView::Tmpfs { target, .. } => Some(target),
        ActionView::Special { target, .. } => Some(target),
        ActionView::Nullfs { target, .. } => Some(target),
    }
}

/// Whether every mount lies in the sandbox.
pub open spec fn stays_inside(table: TableView) -> bool {
    forall|i: int| 0 <= i < table.owned.len() ==> within((#[trigger] table.owned[i]).path, table.root)
}

impl MountTable {
    /// No mounts.
    pub fn new(root: FsPath) -> (r: MountTable)
        ensures
            r@ == (TableView {
                root: root@,
                owned: Seq::empty(),
                mappings: Seq::empty(),
                excluded: Seq::empty(),
                staging_ready: false,
                next_staging_id: 0,
            }),
            stays_inside(r@),
    {
        let table = MountTable {
            root,
            owned_mounts: Vec::new(),
            nullfs_mounts: Vec::new(),
            nested_excluded_mounts: Vec::new(),
            mount_staging_ready: false,
            next_mount_staging_id: 0,
        };
        assert(table@.owned =~= Seq::<MountView>::empty());
        assert(table@.mappings =~= Seq::<MappingView>::empty());
        assert(table@.excluded =~= Seq::<Seq<char>>::empty());
        table
    }

    /// Whether a source lies in the directory that only this sandbox fills. Any other is followed
    /// through its symbolic links before it is mounted.
    pub fn source_is_private(&self, source: &FsPath) -> (r: bool)
        ensures
            r == is_private(self@.root, source@),
    {
        let staging = self.root.join(".freebsd-flatpak-mount-sources");
        source.starts_with(&staging)
    }

    /// What a target shows already, before symbolic links are followed.
    pub fn shown_at_target(&self, target_relative: &FsPath) -> (r: Option<FsPath>)
        ensures
            optional_text(r) == shown_at(
                self@.mappings,
                self@.owned,
                joined(self@.root, target_relative@),
            ),
    {
        let target = self.root.join_path(target_relative);
        source_shown_at(self.nullfs_mounts.as_slice(), self.owned_mounts.as_slice(), &target)
    }

    /// What has to be done to show a directory. `shown` is what the target shows already, with
    /// symbolic links followed; nothing where that cannot be followed.
    pub fn mount_nullfs(
        &self,
        source: &FsPath,
        target_relative: &FsPath,
        read_only: bool,
        shown: &Option<FsPath>,
    ) -> (r: Vec<MountAction>)
        ensures
            views(r@) == nullfs_plan(
                self@,
                source@,
                target_relative@,
                read_only,
                optional_text(*shown),
            ),
    {
        let pinned = !self.source_is_private(source);
        let mut out: Vec<MountAction> = Vec::new();
        let aliases = match shown {
            Some(path) => path.same_as(source),
            None => false,
        };
        let ghost plan = nullfs_plan(
            self@,
            source@,
            target_relative@,
            read_only,
            optional_text(*shown),
        );
        if !aliases {
            out.push(
                MountAction::Nullfs {
                    source: source.clone(),
                    shown: source.clone(),
                    target: target_relative.clone(),
                    read_only,
                    pinned,
                },
            );
            assert(views(out@) =~= plan);
            return out;
        }
        let staging_root = FsPath::new(".freebsd-flatpak-mount-sources");
        if !self.mount_staging_ready {
            out.push(MountAction::CreateDirectory(self.root.join_path(&staging_root)));
            out.push(
                MountAction::Tmpfs {
                    target: staging_root.clone(),
                    options: "mode=0700".to_string(),
                    staging: true,
                },
            );
        }
        let id = render_u64(self.next_mount_staging_id);
        let staging = staging_root.join(&id);
        out.push(
            MountAction::Nullfs {
                source: source.clone(),
                shown: source.clone(),
                target: staging.clone(),
                read_only,
                pinned,
            },
        );
        out.push(
            MountAction::Nullfs {
                source: self.root.join_path(&staging),
                shown: source.clone(),
                target: target_relative.clone(),
                read_only,
                pinned: false,
            },
        );
        assert(views(out@) =~= plan);
        out
    }

    /// Takes a place in which a directory is shown first; no other directory gets it.
    pub fn reserve_staging(&mut self)
        requires
            old(self).next_mount_staging_id < u64::MAX,
        ensures
            final(self)@ == (TableView {
                next_staging_id: old(self)@.next_staging_id + 1,
                ..old(self)@
            }),
    {
        self.next_mount_staging_id = self.next_mount_staging_id + 1;
    }

    /// Takes note of what has been done.
    pub fn record(&mut self, action: &MountAction)
        ensures
            final(self)@ == recorded(old(self)@, action@),
            stays_inside(old(self)@) && (match action_target(action@) {
                Some(target) => !is_absolute(target),
                None => true,
            }) ==> stays_inside(final(self)@),
    {
        let ghost before = self@;
        match action {
            MountAction::CreateDirectory(_) => {},
            MountAction::Tmpfs { target, options: _, staging } => {
                let mount = OwnedMount { path: self.root.join_path(target), read_only: false };
                proof {
                    lemma_views_push(self.owned_mounts@, mount);
                }
                self.owned_mounts.push(mount);
                if *staging {
                    self.mount_staging_ready = true;
                }
            },
            MountAction::Special { target, fs_type: _, device: _ } => {
                let mount = OwnedMount { path: self.root.join_path(target), read_only: false };
                proof {
                    lemma_views_push(self.owned_mounts@, mount);
                }
                self.owned_mounts.push(mount);
            },
            MountAction::Nullfs { source: _, shown, target, read_only, pinned: _ } => {
                let path = self.root.join_path(target);
                let mount = OwnedMount { path: path.clone(), read_only: *read_only };
                let mapping = NullfsMapping { source: shown.clone(), target: path };
                proof {
                    lemma_views_push(self.owned_mounts@, mount);
                    lemma_views_push(self.nullfs_mounts@, mapping);
                }
                self.owned_mounts.push(mount);
                self.nullfs_mounts.push(mapping);
            },
        }
        proof {
            assert(self@ == recorded(before, action@));
            if let Some(target) = action_target(action@) {
                if !is_absolute(target) && stays_inside(before) {
                    lemma_joined_inside(before.root, target);
                    assert forall|i: int| 0 <= i < self@.owned.len() implies within(
                        (#[trigger] self@.owned[i]).path,
                        self@.root,
                    ) by {
                        if i < before.owned.len() {
                            assert(self@.owned[i] == before.owned[i]);
                        }
                    }
                }
            }
        }
    }

    /// Keeps a mount from nested sandboxes: it was granted to this application alone.
    pub fn exclude_from_nested(&mut self, target_relative: &FsPath)
        ensures
            final(self)@ == (TableView {
                excluded: old(self)@.excluded.push(
                    joined(old(self)@.root, target_relative@),
                ),
                ..old(self)@
            }),
    {
        let path = self.root.join_path(target_relative);
        proof {
            lemma_views_push(self.nested_excluded_mounts@, path);
        }
        self.nested_excluded_mounts.push(path);
    }
}

/// The deepest mount that covers a path, where one is known that covers it and none is deeper.
proof fn lemma_covering_is(mounts: Seq<MountView>, target: Seq<char>, place: Seq<char>)
    requires
        within(target, place),
        components(target).len() == components(place).len() + 1,
    ensures
        (exists|i: int| 0 <= i < mounts.len() && same_path((#[trigger] mounts[i]).path, place))
            ==> (covering(mounts, target) matches Some(found) && same_path(found, place)),
        covering(mounts, target) matches Some(found) ==> components(found).len() <= components(
            place,
        ).len() && within(target, found),
    decreases mounts.len(),
{
    if mounts.len() > 0 {
        let head = mounts.drop_last();
        lemma_covering_is(head, target, place);
        let last = mounts.last().path;
        if !same_path(target, last) && within(target, last) {
            if components(last).len() == components(target).len() {
                assert(components(target).take(components(target).len() as int) =~= components(
                    target,
                ));
            }
        }
        if exists|i: int| 0 <= i < mounts.len() && same_path((#[trigger] mounts[i]).path, place) {
            let i = choose|i: int|
                0 <= i < mounts.len() && same_path((#[trigger] mounts[i]).path, place);
            if i < head.len() {
                assert(same_path(head[i].path, place));
                let found = covering(head, target)->0;
                if !same_path(target, last) && within(target, last) && components(found).len()
                    <= components(last).len() {
                    assert(components(last) =~= components(place));
                }
            } else {
                assert(same_path(last, place));
                assert(!same_path(target, last));
                assert(within(target, last));
            }
        }
    }
}

proof fn lemma_no_mapping(mappings: Seq<MappingView>, place: Seq<char>, found: Seq<char>)
    requires
        same_path(found, place),
        forall|i: int| 0 <= i < mappings.len() ==> !same_path((#[trigger] mappings[i]).target, place),
    ensures
        mapped_source(mappings, found) is None,
    decreases mappings.len(),
{
    if mappings.len() > 0 {
        assert(!same_path(mappings[mappings.len() - 1].target, place));
        let head = mappings.drop_last();
        assert forall|i: int| 0 <= i < head.len() implies !same_path(
            (#[trigger] head[i]).target,
            place,
        ) by {
            assert(head[i] == mappings[i]);
        }
        lemma_no_mapping(head, place, found);
    }
}

/// Once the directory for it is there, what is shown in it first is never shown upon itself: the
/// way through another place is taken at most once for a mount.
pub proof fn lemma_staging_is_direct(table: TableView, id: nat)
    requires
        exists|i: int|
            0 <= i < table.owned.len() && same_path(
                (#[trigger] table.owned[i]).path,
                joined(table.root, staging_name()),
            ),
        forall|i: int|
            0 <= i < table.mappings.len() ==> !same_path(
                (#[trigger] table.mappings[i]).target,
                joined(table.root, staging_name()),
            ),
    ensures
        shown_at(
            table.mappings,
            table.owned,
            joined(table.root, joined(staging_name(), decimal(id))),
        ) is None,
{
    reveal_strlit(".freebsd-flatpak-mount-sources");
    let place = joined(table.root, staging_name());
    let name = decimal(id);
    let target = joined(place, name);
    lemma_decimal(id);
    assert(is_digit(name[0]));
    lemma_name(name);
    assert(joined(table.root, joined(staging_name(), name)) =~= target);
    lemma_joined(place, name);
    lemma_joined_within(place, name);
    lemma_covering_is(table.owned, target, place);
    let found = covering(table.owned, target)->0;
    lemma_no_mapping(table.mappings, place, found);
}

/// A directory that is shown through another place is not shown upon itself there either, unless
/// it came from the directory for that.
pub proof fn lemma_staged_source_differs(table: TableView, source: Seq<char>)
    requires
        !is_private(table.root, source),
    ensures
        !same_path(source, joined(table.root, staging_target(table))),
{
    let place = joined(table.root, staging_name());
    let name = decimal(table.next_staging_id);
    lemma_decimal(table.next_staging_id);
    assert(is_digit(name[0]));
    lemma_name(name);
    reveal_strlit(".freebsd-flatpak-mount-sources");
    assert(joined(table.root, joined(staging_name(), name)) =~= joined(place, name));
    lemma_joined_inside(place, name);
}

} // verus!
