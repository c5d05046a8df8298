//! Mounts in a sandbox, and the order in which they are taken down.

use crate::order::{depth_order, lemma_parent_first, lemma_path_order_total, order_by_depth};
use crate::order::{is_total, lemma_sorted, sort_by, sorted, Relation};
use crate::path::{components, joined, path_after, same_path, within, FsPath};
use crate::text::views;
use vstd::prelude::*;

verus! {

/// A mount that a sandbox has made.
#[derive(Debug)]
pub struct OwnedMount {
    pub path: FsPath,
    pub read_only: bool,
}

pub ghost struct MountView {
    pub path: Seq<char>,
    pub read_only: bool,
}

impl View for OwnedMount {
    type V = MountView;

    open spec fn view(&self) -> MountView {
        MountView { path: self.path@, read_only: self.read_only }
    }
}

impl Clone for OwnedMount {
    fn clone(&self) -> (r: Self)
        ensures
            r@ == self@,
    {
        OwnedMount { path: self.path.clone(), read_only: self.read_only }
    }
}

/// A directory that is shown at another place.
#[derive(Debug)]
pub struct NullfsMapping {
    pub source: FsPath,
    pub target: FsPath,
}

pub ghost struct MappingView {
    pub source: Seq<char>,
    pub target: Seq<char>,
}

impl View for NullfsMapping {
    type V = MappingView;

    open spec fn view(&self) -> MappingView {
        MappingView { source: self.source@, target: self.target@ }
    }
}

impl Clone for NullfsMapping {
    fn clone(&self) -> (r: Self)
        ensures
            r@ == self@,
    {
        NullfsMapping { source: self.source.clone(), target: self.target.clone() }
    }
}

/// A mount that does not belong to the sandbox.
#[derive(Debug)]
pub struct ForeignMount {
    pub root: FsPath,
    pub path: FsPath,
}

impl ForeignMount {
    pub fn message(&self) -> (r: String)
        ensures
            r@ == "refusing to clean mount outside sandbox root "@ + self.root@ + ": "@
                + self.path@,
    {
        let mut out = crate::text::concat3(
            "refusing to clean mount outside sandbox root ",
            self.root.as_str(),
            ": ",
        );
        out.append(self.path.as_str());
        out
    }
}

/// Deep mounts are taken down first.
pub open spec fn teardown_le(a: MountView, b: MountView) -> bool {
    depth_order(b.path, a.path) != Relation::After
}

fn teardown_at_most(a: &OwnedMount, b: &OwnedMount) -> (r: bool)
    ensures
        r == teardown_le(a@, b@),
{
    match order_by_depth(&b.path, &a.path) {
        Relation::After => false,
        _ => true,
    }
}

/// The order in which a sandbox's mounts are taken down, or the first that is not its own.
pub fn owned_mount_teardown_order(root: &FsPath, mounts: Vec<OwnedMount>) -> (r: Result<
    Vec<OwnedMount>,
    ForeignMount,
>)
    ensures
        r is Ok <==> forall|i: int|
            0 <= i < mounts@.len() ==> within((#[trigger] mounts@[i]).path@, root@),
        r matches Ok(ordered) ==> views(ordered@) == sorted(
            views(mounts@),
            |a: MountView, b: MountView| teardown_le(a, b),
        ),
        r matches Err(e) ==> e.root@ == root@ && exists|i: int|
            0 <= i < mounts@.len() && (#[trigger] mounts@[i]).path@ == e.path@ && !within(
                e.path@,
                root@,
            ) && forall|j: int| 0 <= j < i ==> within((#[trigger] mounts@[j]).path@, root@),
{
    let mut i: usize = 0;
    while i < mounts.len()
        invariant
            i <= mounts@.len(),
            forall|j: int| 0 <= j < i ==> within((#[trigger] mounts@[j]).path@, root@),
        decreases mounts@.len() - i,
    {
        if !mounts[i].path.starts_with(root) {
            let e = ForeignMount { root: root.clone(), path: mounts[i].path.clone() };
            assert(mounts@[i as int].path@ == e.path@);
            return Err(e);
        }
        i += 1;
    }
    Ok(sort_by(mounts, teardown_at_most, Ghost(|a: MountView, b: MountView| teardown_le(a, b))))
}

pub proof fn lemma_teardown_total()
    ensures
        is_total(|a: MountView, b: MountView| teardown_le(a, b)),
{
    reveal(is_total);
    let f = |a: MountView, b: MountView| teardown_le(a, b);
    assert forall|a: MountView, b: MountView| #[trigger] f(a, b) || f(b, a) by {
        lemma_path_order_total(a.path, b.path, b.path);
    }
    assert forall|a: MountView, b: MountView, c: MountView| #[trigger] f(a, b) && #[trigger] f(
        b,
        c,
    ) implies f(a, c) by {
        lemma_path_order_total(c.path, b.path, a.path);
        lemma_path_order_total(b.path, a.path, a.path);
        lemma_path_order_total(c.path, a.path, a.path);
    }
}

/// A mount is taken down after every mount below it, and none is left out.
pub proof fn lemma_children_taken_down_first(mounts: Seq<MountView>, i: int, j: int)
    requires
        0 <= i < mounts.len(),
        0 <= j < mounts.len(),
        within(
            sorted(mounts, |a: MountView, b: MountView| teardown_le(a, b))[j].path,
            sorted(mounts, |a: MountView, b: MountView| teardown_le(a, b))[i].path,
        ),
        !same_path(
            sorted(mounts, |a: MountView, b: MountView| teardown_le(a, b))[j].path,
            sorted(mounts, |a: MountView, b: MountView| teardown_le(a, b))[i].path,
        ),
    ensures
        j < i,
        sorted(mounts, |a: MountView, b: MountView| teardown_le(a, b)).to_multiset()
            == mounts.to_multiset(),
{
    let le = |a: MountView, b: MountView| teardown_le(a, b);
    let s = sorted(mounts, le);
    lemma_teardown_total();
    lemma_sorted(mounts, le);
    if i <= j {
        assert(le(s[i], s[j]));
        lemma_parent_first(s[i].path, s[j].path);
        lemma_path_order_total(s[i].path, s[j].path, s[j].path);
    }
}

/// The place of the deepest mount that covers a target, other than one at the target itself; of
/// several equally deep ones the last.
pub open spec fn covering(mounts: Seq<MountView>, target: Seq<char>) -> Option<Seq<char>>
    decreases mounts.len(),
{
    if mounts.len() == 0 {
        None
    } else {
        let before = covering(mounts.drop_last(), target);
        let path = mounts.last().path;
        if same_path(target, path) || !within(target, path) {
            before
        } else {
            match before {
                Some(other) => if components(other).len() <= components(path).len() {
                    Some(path)
                } else {
                    before
                },
                None => Some(path),
            }
        }
    }
}

/// The source of the last mapping at a place.
pub open spec fn mapped_source(mappings: Seq<MappingView>, place: Seq<char>) -> Option<MappingView>
    decreases mappings.len(),
{
    if mappings.len() == 0 {
        None
    } else if same_path(mappings.last().target, place) {
        Some(mappings.last())
    } else {
        mapped_source(mappings.drop_last(), place)
    }
}

/// What the mapping that covers a target shows there.
pub open spec fn shown_at(
    mappings: Seq<MappingView>,
    mounts: Seq<MountView>,
    target: Seq<char>,
) -> Option<Seq<char>> {
    match covering(mounts, target) {
        None => None,
        Some(place) => match mapped_source(mappings, place) {
            None => None,
            Some(mapping) => if within(target, mapping.target) {
                Some(
                    joined(
                        mapping.source,
                        path_after(target, components(mapping.target).len()),
                    ),
                )
            } else {
                None
            },
        },
    }
}

pub open spec fn optional_text(path: Option<FsPath>) -> Option<Seq<char>> {
    match path {
        Some(p) => Some(p@),
        None => None,
    }
}

fn covering_mount(mounts: &[OwnedMount], target: &FsPath) -> (r: Option<FsPath>)
    ensures
        optional_text(r) == covering(views(mounts@), target@),
{
    let ghost all = views(mounts@);
    let mut best: Option<FsPath> = None;
    let mut i: usize = 0;
    assert(all.take(0) =~= Seq::<MountView>::empty());
    while i < mounts.len()
        invariant
            i <= mounts@.len(),
            all == views(mounts@),
            optional_text(best) == covering(all.take(i as int), target@),
        decreases mounts@.len() - i,
    {
        proof {
            let next = all.take(i + 1);
            assert(next.drop_last() =~= all.take(i as int));
            assert(next.last() == mounts@[i as int]@);
        }
        let path = &mounts[i].path;
        if !target.same_as(path) && target.starts_with(path) {
            let replace = match &best {
                Some(other) => other.depth() <= path.depth(),
                None => true,
            };
            if replace {
                best = Some(path.clone());
            }
        }
        i += 1;
    }
    assert(all.take(i as int) =~= all);
    best
}

/// What the mapping that covers a target shows there. To mount just that at the target would make
/// a mount of a directory onto itself.
pub fn source_shown_at(
    mappings: &[NullfsMapping],
    mounts: &[OwnedMount],
    target: &FsPath,
) -> (r: Option<FsPath>)
    ensures
        optional_text(r) == shown_at(views(mappings@), views(mounts@), target@),
{
    let place = match covering_mount(mounts, target) {
        Some(place) => place,
        None => {
            return None;
        },
    };
    let ghost all = views(mappings@);
    let mut i: usize = mappings.len();
    assert(all.take(i as int) =~= all);
    while i > 0
        invariant
            i <= mappings@.len(),
            all == views(mappings@),
            covering(views(mounts@), target@) == Some(place@),
            mapped_source(all, place@) == mapped_source(all.take(i as int), place@),
        decreases i,
    {
        proof {
            let here = all.take(i as int);
            assert(here.drop_last() =~= all.take(i - 1));
            assert(here.last() == mappings@[i - 1]@);
        }
        let mapping = &mappings[i - 1];
        if mapping.target.same_as(&place) {
            return match target.strip_prefix(&mapping.target) {
                Some(suffix) => Some(mapping.source.join_path(&suffix)),
                None => None,
            };
        }
        i -= 1;
    }
    None
}

/// Whether a mount of the source at a target would be one of a directory onto itself; `shown` is
/// what the covering mapping shows there, without symbolic links.
pub fn nullfs_source_aliases_parent(shown: Option<&FsPath>, source: &FsPath) -> (r: bool)
    ensures
        r == (shown matches Some(path) && same_path(path@, source@)),
{
    match shown {
        Some(path) => path.same_as(source),
        None => false,
    }
}

} // verus!
