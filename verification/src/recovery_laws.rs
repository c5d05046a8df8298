//! What holds of recovery as a whole: what is in use is left alone, and nothing is taken away from
//! under what rests on it.

use crate::order::{
    lemma_path_order_total, lemma_path_orders, lemma_path_orders_total, lemma_sorted_set,
    lemma_sorted_set_covers, lemma_sorted_set_member, path_le, path_order, Relation,
};
use crate::path::{components, same_path, within};
use crate::process_supervision::SandboxProcessSnapshot;
use crate::recovery_order::{
    lemma_in_use_closed, lemma_recovery_order_keeps, lemma_recovery_order_respects, names,
    needed_within, next_place, ranks, recovery_order,
};
use crate::stale_sandbox_recovery::{
    all_links, is_active, link_counts, mount_links, mountpoints, owning_root, path_set,
    record_links, record_roots, recorded_in_use, mount_roots, root_dependencies, stale_roots,
    tied_to, users_of, MountInfoView, OwnershipView,
};
use crate::text::{lemma_selected, selected};
use crate::unmounting::{
    last_mount_at, mount_dependencies, mountpoint_order, mounts_at, rests_on, supports,
};
use vstd::prelude::*;

verus! {

/// What is taken down is one of the sandboxes that nothing uses: neither a process, nor a live
/// launcher, nor another sandbox that is in use.
pub proof fn lemma_only_stale_recovered(
    chroots: Seq<char>,
    records: Seq<OwnershipView>,
    mounts: Seq<MountInfoView>,
    instances: Seq<Seq<char>>,
    processes: SandboxProcessSnapshot,
    i: int,
)
    requires
        0 <= i < recovery_order(
            path_set(stale_roots(chroots, records, mounts, instances, processes)),
            root_dependencies(
                chroots,
                stale_roots(chroots, records, mounts, instances, processes),
                records,
                mounts,
                instances,
            ),
        ).len(),
    ensures
        !is_active(
            chroots,
            records,
            mounts,
            instances,
            path_set(record_roots(records) + mount_roots(chroots, mounts, instances)),
            processes,
            recovery_order(
                path_set(stale_roots(chroots, records, mounts, instances, processes)),
                root_dependencies(
                    chroots,
                    stale_roots(chroots, records, mounts, instances, processes),
                    records,
                    mounts,
                    instances,
                ),
            )[i],
        ),
{
    let roots = path_set(record_roots(records) + mount_roots(chroots, mounts, instances));
    let stale = stale_roots(chroots, records, mounts, instances, processes);
    let deps = root_dependencies(chroots, stale, records, mounts, instances);
    let set = path_set(stale);
    let order = recovery_order(set, deps);
    let keep = |p: Seq<char>|
        !is_active(chroots, records, mounts, instances, roots, processes, p);
    lemma_recovery_order_keeps(set, deps);
    order.to_multiset_ensures();
    set.to_multiset_ensures();
    let p = order[i];
    assert(order.contains(p));
    assert(order.to_multiset().count(p) > 0);
    assert(set.contains(p));
    let k = choose|k: int| 0 <= k < set.len() && set[k] == p;
    let m = lemma_sorted_set_member(
        stale,
        |p: Seq<char>, q: Seq<char>| path_le(p, q),
        |p: Seq<char>, q: Seq<char>| same_path(p, q),
        k,
    );
    assert(stale[m] == p);
    assert(stale.contains(p));
    lemma_selected(roots, keep);
    assert(selected(roots, keep).contains(p));
    assert(keep(p));
}

proof fn lemma_record_link(records: Seq<OwnershipView>, i: int)
    requires
        0 <= i < records.len(),
        records[i].root is Some,
        records[i].parent_root is Some,
    ensures
        record_links(records).contains((records[i].root->0, records[i].parent_root->0)),
    decreases records.len(),
{
    let before = record_links(records.drop_last());
    let all = record_links(records);
    let link = (records[i].root->0, records[i].parent_root->0);
    if i == records.len() - 1 {
        assert(all.last() == link);
    } else {
        lemma_record_link(records.drop_last(), i);
        let k = choose|k: int| 0 <= k < before.len() && before[k] == link;
        assert(all[k] == link);
    }
}

proof fn lemma_mount_link(
    chroots: Seq<char>,
    mounts: Seq<MountInfoView>,
    instances: Seq<Seq<char>>,
    i: int,
)
    requires
        0 <= i < mounts.len(),
        owning_root(chroots, mounts[i].mountpoint, instances) is Some,
        owning_root(chroots, mounts[i].source, instances) is Some,
    ensures
        mount_links(chroots, mounts, instances).contains(
            (
                owning_root(chroots, mounts[i].mountpoint, instances)->0,
                owning_root(chroots, mounts[i].source, instances)->0,
            ),
        ),
    decreases mounts.len(),
{
    let before = mount_links(chroots, mounts.drop_last(), instances);
    let all = mount_links(chroots, mounts, instances);
    let link = (
        owning_root(chroots, mounts[i].mountpoint, instances)->0,
        owning_root(chroots, mounts[i].source, instances)->0,
    );
    if i == mounts.len() - 1 {
        assert(all.last() == link);
    } else {
        lemma_mount_link(chroots, mounts.drop_last(), instances, i);
        let k = choose|k: int| 0 <= k < before.len() && before[k] == link;
        assert(all[k] == link);
    }
}

/// A sandbox that a live one is nested in is kept with it.
pub proof fn lemma_parent_is_kept(
    chroots: Seq<char>,
    records: Seq<OwnershipView>,
    mounts: Seq<MountInfoView>,
    instances: Seq<Seq<char>>,
    roots: Seq<Seq<char>>,
    processes: SandboxProcessSnapshot,
    i: int,
)
    requires
        0 <= i < records.len(),
        records[i].root is Some,
        records[i].parent_root is Some,
        is_active(
            chroots,
            records,
            mounts,
            instances,
            roots,
            processes,
            records[i].root->0,
        ),
    ensures
        is_active(
            chroots,
            records,
            mounts,
            instances,
            roots,
            processes,
            records[i].parent_root->0,
        ),
{
    lemma_record_link(records, i);
    let links = all_links(chroots, records, mounts, instances);
    let link = (records[i].root->0, records[i].parent_root->0);
    let recorded = record_links(records);
    let k = choose|k: int| 0 <= k < recorded.len() && recorded[k] == link;
    assert(links[k] == link);
    lemma_in_use_closed(users_of(records, roots, processes), links, k);
}

/// A sandbox that a live one shows something of is kept with it.
pub proof fn lemma_source_is_kept(
    chroots: Seq<char>,
    records: Seq<OwnershipView>,
    mounts: Seq<MountInfoView>,
    instances: Seq<Seq<char>>,
    roots: Seq<Seq<char>>,
    processes: SandboxProcessSnapshot,
    i: int,
)
    requires
        0 <= i < mounts.len(),
        owning_root(chroots, mounts[i].mountpoint, instances) is Some,
        owning_root(chroots, mounts[i].source, instances) is Some,
        is_active(
            chroots,
            records,
            mounts,
            instances,
            roots,
            processes,
            owning_root(chroots, mounts[i].mountpoint, instances)->0,
        ),
    ensures
        is_active(
            chroots,
            records,
            mounts,
            instances,
            roots,
            processes,
            owning_root(chroots, mounts[i].source, instances)->0,
        ),
{
    lemma_mount_link(chroots, mounts, instances, i);
    let links = all_links(chroots, records, mounts, instances);
    let link = (
        owning_root(chroots, mounts[i].mountpoint, instances)->0,
        owning_root(chroots, mounts[i].source, instances)->0,
    );
    let recorded = record_links(records);
    let mounted = mount_links(chroots, mounts, instances);
    let k = choose|k: int| 0 <= k < mounted.len() && mounted[k] == link;
    assert(links[recorded.len() + k] == link);
    lemma_in_use_closed(users_of(records, roots, processes), links, recorded.len() + k);
}

/// A recorded sandbox whose launcher lives, or that a process is tied to, is in use.
pub proof fn lemma_owned_is_active(
    chroots: Seq<char>,
    records: Seq<OwnershipView>,
    mounts: Seq<MountInfoView>,
    instances: Seq<Seq<char>>,
    roots: Seq<Seq<char>>,
    processes: SandboxProcessSnapshot,
    i: int,
)
    requires
        0 <= i < records.len(),
        records[i].root is Some,
        records[i].launcher_active || tied_to(processes, records[i].root->0),
    ensures
        is_active(
            chroots,
            records,
            mounts,
            instances,
            roots,
            processes,
            records[i].root->0,
        ),
{
    let k = lemma_recorded_in_use(records, processes, i);
    let users = users_of(records, roots, processes);
    let links = all_links(chroots, records, mounts, instances);
    assert(users[k] == records[i].root->0);
    assert(same_path(users[k], records[i].root->0));
    assert(names(users, records[i].root->0));
    assert(needed_within(users, links, records[i].root->0, 0));
}

proof fn lemma_recorded_in_use(
    records: Seq<OwnershipView>,
    processes: SandboxProcessSnapshot,
    i: int,
) -> (k: int)
    requires
        0 <= i < records.len(),
        records[i].root is Some,
        records[i].launcher_active || tied_to(processes, records[i].root->0),
    ensures
        0 <= k < recorded_in_use(records, processes).len(),
        recorded_in_use(records, processes)[k] == records[i].root->0,
    decreases records.len(),
{
    let before = recorded_in_use(records.drop_last(), processes);
    if i == records.len() - 1 {
        before.len() as int
    } else {
        let k = lemma_recorded_in_use(records.drop_last(), processes, i);
        assert(recorded_in_use(records, processes)[k] == before[k]);
        k
    }
}

/// Where no sandboxes need each other in a circle, a nested one is taken down before its parent.
pub proof fn lemma_nested_before_parent(
    chroots: Seq<char>,
    roots: Seq<Seq<char>>,
    records: Seq<OwnershipView>,
    mounts: Seq<MountInfoView>,
    instances: Seq<Seq<char>>,
    rank: spec_fn(Seq<Seq<char>>) -> int,
    i: int,
    a: int,
    b: int,
)
    requires
        ranks(
            path_set(roots),
            root_dependencies(chroots, roots, records, mounts, instances),
            rank,
        ),
        0 <= i < records.len(),
        records[i].root is Some,
        records[i].parent_root is Some,
        names(roots, records[i].root->0),
        names(roots, records[i].parent_root->0),
        0 <= a < recovery_order(
            path_set(roots),
            root_dependencies(chroots, roots, records, mounts, instances),
        ).len(),
        0 <= b < recovery_order(
            path_set(roots),
            root_dependencies(chroots, roots, records, mounts, instances),
        ).len(),
        same_path(
            recovery_order(
                path_set(roots),
                root_dependencies(chroots, roots, records, mounts, instances),
            )[a],
            records[i].root->0,
        ),
        same_path(
            recovery_order(
                path_set(roots),
                root_dependencies(chroots, roots, records, mounts, instances),
            )[b],
            records[i].parent_root->0,
        ),
    ensures
        a < b,
{
    let link = (records[i].root->0, records[i].parent_root->0);
    let keep = |l: (Seq<char>, Seq<char>)| link_counts(roots, false, l);
    let recorded = record_links(records);
    let deps = root_dependencies(chroots, roots, records, mounts, instances);
    lemma_record_link(records, i);
    lemma_selected(recorded, keep);
    assert(selected(recorded, keep).contains(link));
    let d = choose|d: int|
        0 <= d < selected(recorded, keep).len() && selected(recorded, keep)[d] == link;
    assert(deps[d] == link);
    lemma_recovery_order_respects(path_set(roots), deps, rank, d, a, b);
}

proof fn lemma_support(mounts: Seq<MountInfoView>, mount: MountInfoView, n: int, j: int) -> (k: int)
    requires
        0 <= j < n <= mounts.len(),
        rests_on(mount, mounts[j]),
    ensures
        0 <= k < supports(mounts, mount, n).len(),
        supports(mounts, mount, n)[k] == (mount.mountpoint, mounts[j].mountpoint),
    decreases n,
{
    let before = supports(mounts, mount, n - 1);
    if j == n - 1 {
        before.len() as int
    } else {
        let k = lemma_support(mounts, mount, n - 1, j);
        assert(supports(mounts, mount, n)[k] == before[k]);
        k
    }
}

proof fn lemma_mount_dependency(mounts: Seq<MountInfoView>, n: int, i: int, j: int) -> (k: int)
    requires
        0 <= i < n <= mounts.len(),
        0 <= j < mounts.len(),
        rests_on(mounts[i], mounts[j]),
    ensures
        0 <= k < mount_dependencies(mounts, n).len(),
        mount_dependencies(mounts, n)[k] == (mounts[i].mountpoint, mounts[j].mountpoint),
    decreases n,
{
    let before = mount_dependencies(mounts, n - 1);
    if i == n - 1 {
        let k = lemma_support(mounts, mounts[i], mounts.len() as int, j);
        assert(mount_dependencies(mounts, n)[before.len() + k] == supports(
            mounts,
            mounts[i],
            mounts.len() as int,
        )[k]);
        before.len() + k
    } else {
        let k = lemma_mount_dependency(mounts, n - 1, i, j);
        assert(mount_dependencies(mounts, n)[k] == before[k]);
        k
    }
}

/// Where no mounts rest on each other in a circle, a mount is taken down before those that it lies
/// in and before those that it shows something of.
pub proof fn lemma_mounts_before_their_sources(
    mounts: Seq<MountInfoView>,
    rank: spec_fn(Seq<Seq<char>>) -> int,
    i: int,
    j: int,
    a: int,
    b: int,
)
    requires
        ranks(
            path_set(mountpoints(mounts)),
            mount_dependencies(mounts, mounts.len() as int),
            rank,
        ),
        0 <= i < mounts.len(),
        0 <= j < mounts.len(),
        rests_on(mounts[i], mounts[j]),
        0 <= a < mountpoint_order(mounts).len(),
        0 <= b < mountpoint_order(mounts).len(),
        same_path(mountpoint_order(mounts)[a], mounts[i].mountpoint),
        same_path(mountpoint_order(mounts)[b], mounts[j].mountpoint),
    ensures
        a < b,
{
    let deps = mount_dependencies(mounts, mounts.len() as int);
    let d = lemma_mount_dependency(mounts, mounts.len() as int, i, j);
    lemma_recovery_order_respects(path_set(mountpoints(mounts)), deps, rank, d, a, b);
}

proof fn lemma_mountpoints_are(mounts: Seq<MountInfoView>)
    ensures
        mountpoints(mounts).len() == mounts.len(),
        forall|i: int|
            0 <= i < mounts.len() ==> #[trigger] mountpoints(mounts)[i] == mounts[i].mountpoint,
{
}

/// Each of the paths is in their set, and the set holds no other; no path is in it twice.
pub proof fn lemma_path_set(paths: Seq<Seq<char>>)
    ensures
        forall|k: int| 0 <= k < paths.len() ==> names(path_set(paths), #[trigger] paths[k]),
        forall|i: int|
            0 <= i < path_set(paths).len() ==> paths.contains(#[trigger] path_set(paths)[i]),
        forall|i: int, j: int|
            0 <= i < j < path_set(paths).len() ==> !same_path(
                #[trigger] path_set(paths)[i],
                #[trigger] path_set(paths)[j],
            ),
{
    let le = |p: Seq<char>, q: Seq<char>| path_le(p, q);
    let same = |p: Seq<char>, q: Seq<char>| same_path(p, q);
    let f = |p: Seq<char>, q: Seq<char>| path_order(p, q);
    let set = path_set(paths);
    assert forall|k: int| 0 <= k < paths.len() implies names(set, #[trigger] paths[k]) by {
        let i = lemma_sorted_set_covers(paths, le, same, k);
        assert(same_path(set[i], paths[k]));
    }
    assert forall|i: int| 0 <= i < set.len() implies paths.contains(#[trigger] set[i]) by {
        let k = lemma_sorted_set_member(paths, le, same, i);
        assert(paths[k] == set[i]);
    }
    lemma_path_orders();
    lemma_path_orders_total();
    lemma_sorted_set(paths, le, f, same);
    assert forall|i: int, j: int| 0 <= i < j < set.len() implies !same_path(
        #[trigger] set[i],
        #[trigger] set[j],
    ) by {
        assert(f(set[i], set[j]) == Relation::Before);
        lemma_path_order_total(set[i], set[j], set[j]);
    }
}

/// Putting paths in the order of recovery loses none, adds none and repeats none.
pub proof fn lemma_recovery_order_is_set(
    paths: Seq<Seq<char>>,
    dependencies: Seq<(Seq<char>, Seq<char>)>,
)
    ensures
        forall|k: int|
            0 <= k < paths.len() ==> names(
                recovery_order(path_set(paths), dependencies),
                #[trigger] paths[k],
            ),
        forall|i: int|
            0 <= i < recovery_order(path_set(paths), dependencies).len() ==> paths.contains(
                #[trigger] recovery_order(path_set(paths), dependencies)[i],
            ),
        forall|i: int, j: int|
            0 <= i < j < recovery_order(path_set(paths), dependencies).len() ==> !same_path(
                #[trigger] recovery_order(path_set(paths), dependencies)[i],
                #[trigger] recovery_order(path_set(paths), dependencies)[j],
            ),
{
    let set = path_set(paths);
    let order = recovery_order(set, dependencies);
    lemma_path_set(paths);
    lemma_recovery_order_keeps(set, dependencies);
    set.to_multiset_ensures();
    order.to_multiset_ensures();
    assert forall|k: int| 0 <= k < paths.len() implies names(order, #[trigger] paths[k]) by {
        assert(names(set, paths[k]));
        let i = choose|i: int| 0 <= i < set.len() && same_path(#[trigger] set[i], paths[k]);
        assert(set.contains(set[i]));
        assert(order.to_multiset().count(set[i]) > 0);
        assert(order.contains(set[i]));
        let m = choose|m: int| 0 <= m < order.len() && order[m] == set[i];
        assert(same_path(order[m], paths[k]));
    }
    assert forall|i: int| 0 <= i < order.len() implies paths.contains(#[trigger] order[i]) by {
        assert(order.contains(order[i]));
        assert(set.to_multiset().count(order[i]) > 0);
        assert(set.contains(order[i]));
        let m = choose|m: int| 0 <= m < set.len() && set[m] == order[i];
        assert(paths.contains(set[m]));
    }
    lemma_order_apart(set, dependencies);
}

/// An order of paths that differ holds paths that differ.
proof fn lemma_order_apart(
    remaining: Seq<Seq<char>>,
    dependencies: Seq<(Seq<char>, Seq<char>)>,
)
    requires
        forall|i: int, j: int|
            0 <= i < j < remaining.len() ==> !same_path(
                #[trigger] remaining[i],
                #[trigger] remaining[j],
            ),
    ensures
        forall|i: int, j: int|
            0 <= i < j < recovery_order(remaining, dependencies).len() ==> !same_path(
                #[trigger] recovery_order(remaining, dependencies)[i],
                #[trigger] recovery_order(remaining, dependencies)[j],
            ),
    decreases remaining.len(),
{
    let order = recovery_order(remaining, dependencies);
    let place = next_place(remaining, dependencies);
    if remaining.len() > 0 && 0 <= place < remaining.len() {
        let rest = remaining.remove(place);
        assert forall|i: int, j: int| 0 <= i < j < rest.len() implies !same_path(
            #[trigger] rest[i],
            #[trigger] rest[j],
        ) by {
            let a = if i < place { i } else { i + 1 };
            let b = if j < place { j } else { j + 1 };
            assert(rest[i] == remaining[a] && rest[j] == remaining[b]);
        }
        lemma_order_apart(rest, dependencies);
        lemma_recovery_order_keeps(rest, dependencies);
        let tail = recovery_order(rest, dependencies);
        assert(order =~= seq![remaining[place]] + tail);
        rest.to_multiset_ensures();
        tail.to_multiset_ensures();
        assert forall|i: int, j: int| 0 <= i < j < order.len() implies !same_path(
            #[trigger] order[i],
            #[trigger] order[j],
        ) by {
            assert(order[j] == tail[j - 1]);
            if i > 0 {
                assert(order[i] == tail[i - 1]);
            } else {
                assert(tail.contains(tail[j - 1]));
                assert(rest.to_multiset().count(tail[j - 1]) > 0);
                assert(rest.contains(tail[j - 1]));
                let m = choose|m: int| 0 <= m < rest.len() && rest[m] == tail[j - 1];
                let b = if m < place { m } else { m + 1 };
                assert(remaining[b] == order[j]);
                if b < place {
                    assert(!same_path(remaining[b], remaining[place]));
                } else {
                    assert(!same_path(remaining[place], remaining[b]));
                }
            }
        }
    }
}

/// Whether a mount is the one that counts at its place: none was made over it later.
pub open spec fn is_uppermost(mounts: Seq<MountInfoView>, k: int) -> bool {
    &&& 0 <= k < mounts.len()
    &&& forall|j: int|
        k < j < mounts.len() ==> !same_path((#[trigger] mounts[j]).mountpoint, mounts[k].mountpoint)
}

proof fn lemma_last_mount_at(mounts: Seq<MountInfoView>, path: Seq<char>)
    ensures
        match last_mount_at(mounts, path) {
            Some(mount) => exists|k: int| #[trigger]
                is_uppermost(mounts, k) && mounts[k] == mount && same_path(
                    mounts[k].mountpoint,
                    path,
                ),
            None => forall|k: int|
                0 <= k < mounts.len() ==> !same_path((#[trigger] mounts[k]).mountpoint, path),
        },
    decreases mounts.len(),
{
    if mounts.len() > 0 {
        let head = mounts.drop_last();
        lemma_last_mount_at(head, path);
        if same_path(mounts.last().mountpoint, path) {
            assert(is_uppermost(mounts, mounts.len() - 1));
        } else if let Some(mount) = last_mount_at(head, path) {
            let k = choose|k: int| #[trigger]
                is_uppermost(head, k) && head[k] == mount && same_path(head[k].mountpoint, path);
            assert(mounts[k] == head[k]);
            assert forall|j: int| k < j < mounts.len() implies !same_path(
                (#[trigger] mounts[j]).mountpoint,
                mounts[k].mountpoint,
            ) by {
                if j < head.len() {
                    assert(head[j] == mounts[j]);
                }
            }
            assert(is_uppermost(mounts, k));
        } else {
            assert forall|k: int| 0 <= k < mounts.len() implies !same_path(
                (#[trigger] mounts[k]).mountpoint,
                path,
            ) by {
                if k < head.len() {
                    assert(head[k] == mounts[k]);
                }
            }
        }
    }
}

/// Where there is a mount at each of the paths, that mount stands where the path stands.
proof fn lemma_mounts_at(mounts: Seq<MountInfoView>, paths: Seq<Seq<char>>)
    requires
        forall|i: int|
            0 <= i < paths.len() ==> last_mount_at(mounts, #[trigger] paths[i]) is Some,
    ensures
        mounts_at(mounts, paths).len() == paths.len(),
        forall|i: int|
            0 <= i < paths.len() ==> Some(#[trigger] mounts_at(mounts, paths)[i])
                == last_mount_at(mounts, paths[i]),
    decreases paths.len(),
{
    if paths.len() > 0 {
        let head = paths.drop_last();
        assert forall|i: int| 0 <= i < head.len() implies last_mount_at(
            mounts,
            #[trigger] head[i],
        ) is Some by {
            assert(head[i] == paths[i]);
        }
        lemma_mounts_at(mounts, head);
        assert(last_mount_at(mounts, paths[paths.len() - 1]) is Some);
        let all = mounts_at(mounts, paths);
        assert forall|i: int| 0 <= i < paths.len() implies Some(#[trigger] all[i])
            == last_mount_at(mounts, paths[i]) by {
            if i < head.len() {
                assert(all[i] == mounts_at(mounts, head)[i]);
                assert(head[i] == paths[i]);
            }
        }
    }
}

/// The mounts of a sandbox in the order in which they are taken down.
pub open spec fn taken_down(mounts: Seq<MountInfoView>) -> Seq<MountInfoView> {
    mounts_at(mounts, mountpoint_order(mounts))
}

proof fn lemma_taken_down(mounts: Seq<MountInfoView>)
    ensures
        taken_down(mounts).len() == mountpoint_order(mounts).len(),
        forall|a: int|
            0 <= a < taken_down(mounts).len() ==> same_path(
                (#[trigger] taken_down(mounts)[a]).mountpoint,
                mountpoint_order(mounts)[a],
            ) && exists|k: int| #[trigger] is_uppermost(mounts, k) && mounts[k]
                == taken_down(mounts)[a],
{
    let points = mountpoints(mounts);
    let order = mountpoint_order(mounts);
    lemma_mountpoints_are(mounts);
    lemma_recovery_order_is_set(points, mount_dependencies(mounts, mounts.len() as int));
    assert forall|i: int| 0 <= i < order.len() implies last_mount_at(
        mounts,
        #[trigger] order[i],
    ) is Some by {
        lemma_last_mount_at(mounts, order[i]);
        assert(points.contains(order[i]));
        let k = choose|k: int| 0 <= k < points.len() && points[k] == order[i];
        assert(same_path(mounts[k].mountpoint, order[i]));
    }
    lemma_mounts_at(mounts, order);
    assert forall|a: int| 0 <= a < taken_down(mounts).len() implies same_path(
        (#[trigger] taken_down(mounts)[a]).mountpoint,
        order[a],
    ) && exists|k: int| #[trigger] is_uppermost(mounts, k) && mounts[k] == taken_down(
        mounts,
    )[a] by {
        lemma_last_mount_at(mounts, order[a]);
    }
}

/// Every mount of a sandbox is taken down, whatever its source and its options are: each place at
/// which something is mounted stands in the order, once, with the mount that was made there last.
pub proof fn lemma_every_mount_is_taken_down(mounts: Seq<MountInfoView>)
    ensures
        forall|k: int|
            0 <= k < mounts.len() ==> exists|a: int|
                0 <= a < taken_down(mounts).len() && same_path(
                    (#[trigger] taken_down(mounts)[a]).mountpoint,
                    (#[trigger] mounts[k]).mountpoint,
                ),
        forall|a: int|
            0 <= a < taken_down(mounts).len() ==> exists|k: int| #[trigger]
                is_uppermost(mounts, k) && mounts[k] == #[trigger] taken_down(mounts)[a],
        forall|a: int, b: int|
            0 <= a < b < taken_down(mounts).len() ==> !same_path(
                (#[trigger] taken_down(mounts)[a]).mountpoint,
                (#[trigger] taken_down(mounts)[b]).mountpoint,
            ),
{
    let points = mountpoints(mounts);
    let order = mountpoint_order(mounts);
    let result = taken_down(mounts);
    lemma_mountpoints_are(mounts);
    lemma_recovery_order_is_set(points, mount_dependencies(mounts, mounts.len() as int));
    lemma_taken_down(mounts);
    assert forall|k: int| 0 <= k < mounts.len() implies exists|a: int|
        0 <= a < result.len() && same_path(
            (#[trigger] result[a]).mountpoint,
            (#[trigger] mounts[k]).mountpoint,
        ) by {
        assert(names(order, points[k]));
        let a = choose|a: int| 0 <= a < order.len() && same_path(#[trigger] order[a], points[k]);
        assert(same_path(result[a].mountpoint, mounts[k].mountpoint));
    }
    assert forall|a: int, b: int| 0 <= a < b < result.len() implies !same_path(
        (#[trigger] result[a]).mountpoint,
        (#[trigger] result[b]).mountpoint,
    ) by {
        assert(!same_path(order[a], order[b]));
    }
}

proof fn lemma_dependency_of_mounts(mounts: Seq<MountInfoView>, n: int, d: int)
    requires
        0 <= n <= mounts.len(),
        0 <= d < mount_dependencies(mounts, n).len(),
    ensures
        exists|i: int, j: int|
            0 <= i < mounts.len() && 0 <= j < mounts.len() && rests_on(
                #[trigger] mounts[i],
                #[trigger] mounts[j],
            ) && mount_dependencies(mounts, n)[d] == (mounts[i].mountpoint, mounts[j].mountpoint),
    decreases n,
{
    let before = mount_dependencies(mounts, n - 1);
    if d < before.len() {
        lemma_dependency_of_mounts(mounts, n - 1, d);
        assert(mount_dependencies(mounts, n)[d] == before[d]);
    } else {
        let mount = mounts[n - 1];
        let j = lemma_support_of_mount(mounts, mount, mounts.len() as int, d - before.len());
        assert(mount_dependencies(mounts, n)[d] == supports(mounts, mount, mounts.len() as int)[d
            - before.len()]);
        assert(rests_on(mounts[n - 1], mounts[j]));
    }
}

proof fn lemma_support_of_mount(
    mounts: Seq<MountInfoView>,
    mount: MountInfoView,
    n: int,
    d: int,
) -> (j: int)
    requires
        0 <= n <= mounts.len(),
        0 <= d < supports(mounts, mount, n).len(),
    ensures
        0 <= j < n,
        rests_on(mount, mounts[j]),
        supports(mounts, mount, n)[d] == (mount.mountpoint, mounts[j].mountpoint),
    decreases n,
{
    let before = supports(mounts, mount, n - 1);
    if d < before.len() {
        let j = lemma_support_of_mount(mounts, mount, n - 1, d);
        assert(supports(mounts, mount, n)[d] == before[d]);
        j
    } else {
        n - 1
    }
}

/// No mount is pulled from under another: of two that are taken down, one that lies below the
/// other, or shows something that lies below the other, comes first. This holds wherever it can:
/// where a rank tells that no mounts rest on each other in a circle.
pub proof fn lemma_no_mount_is_pulled_from_under_another(
    mounts: Seq<MountInfoView>,
    rank: spec_fn(Seq<Seq<char>>) -> int,
    a: int,
    b: int,
)
    requires
        forall|i: int, j: int|
            0 <= i < mounts.len() && 0 <= j < mounts.len() && !same_path(
                (#[trigger] mounts[i]).mountpoint,
                (#[trigger] mounts[j]).mountpoint,
            ) && (within(mounts[i].mountpoint, mounts[j].mountpoint) || within(
                mounts[i].source,
                mounts[j].mountpoint,
            )) ==> rank(components(mounts[i].mountpoint)) < rank(components(mounts[j].mountpoint)),
        0 <= a < taken_down(mounts).len(),
        0 <= b < taken_down(mounts).len(),
        a != b,
        within(taken_down(mounts)[a].mountpoint, taken_down(mounts)[b].mountpoint) || within(
            taken_down(mounts)[a].source,
            taken_down(mounts)[b].mountpoint,
        ),
    ensures
        a < b,
{
    lemma_ranks_of_mounts(mounts, rank);
    let (u, v) = (taken_down(mounts)[a], taken_down(mounts)[b]);
    let i = lemma_taken_down_is_mount(mounts, a);
    let j = lemma_taken_down_is_mount(mounts, b);
    assert(!same_path(u.mountpoint, v.mountpoint)) by {
        lemma_every_mount_is_taken_down(mounts);
        if a < b {
            assert(!same_path(u.mountpoint, v.mountpoint));
        } else {
            assert(!same_path(v.mountpoint, u.mountpoint));
        }
    }
    assert(rests_on(mounts[i], mounts[j]));
    lemma_mounts_before_their_sources(mounts, rank, i, j, a, b);
}

proof fn lemma_taken_down_is_mount(mounts: Seq<MountInfoView>, a: int) -> (k: int)
    requires
        0 <= a < taken_down(mounts).len(),
    ensures
        0 <= k < mounts.len(),
        mounts[k] == taken_down(mounts)[a],
        taken_down(mounts).len() == mountpoint_order(mounts).len(),
        same_path(mountpoint_order(mounts)[a], mounts[k].mountpoint),
{
    lemma_taken_down(mounts);
    choose|k: int| #[trigger] is_uppermost(mounts, k) && mounts[k] == taken_down(mounts)[a]
}

proof fn lemma_ranks_of_mounts(
    mounts: Seq<MountInfoView>,
    rank: spec_fn(Seq<Seq<char>>) -> int,
)
    requires
        forall|i: int, j: int|
            0 <= i < mounts.len() && 0 <= j < mounts.len() && !same_path(
                (#[trigger] mounts[i]).mountpoint,
                (#[trigger] mounts[j]).mountpoint,
            ) && (within(mounts[i].mountpoint, mounts[j].mountpoint) || within(
                mounts[i].source,
                mounts[j].mountpoint,
            )) ==> rank(components(mounts[i].mountpoint)) < rank(components(mounts[j].mountpoint)),
    ensures
        ranks(
            path_set(mountpoints(mounts)),
            mount_dependencies(mounts, mounts.len() as int),
            rank,
        ),
{
    let deps = mount_dependencies(mounts, mounts.len() as int);
    assert forall|d: int|
        0 <= d < deps.len() && names(
            path_set(mountpoints(mounts)),
            (#[trigger] deps[d]).0,
        ) && names(path_set(mountpoints(mounts)), deps[d].1) implies rank(components(deps[d].0))
        < rank(components(deps[d].1)) by {
        lemma_dependency_of_mounts(mounts, mounts.len() as int, d);
        let (x, y) = choose|x: int, y: int|
            0 <= x < mounts.len() && 0 <= y < mounts.len() && rests_on(
                #[trigger] mounts[x],
                #[trigger] mounts[y],
            ) && deps[d] == (mounts[x].mountpoint, mounts[y].mountpoint);
        assert(!same_path(mounts[x].mountpoint, mounts[y].mountpoint));
    }
}

/// Where nothing is shown of what lies below a mount, what lies below a mount is taken down
/// before it.
pub proof fn lemma_inner_mounts_are_taken_down_first(mounts: Seq<MountInfoView>, a: int, b: int)
    requires
        forall|i: int, j: int|
            0 <= i < mounts.len() && 0 <= j < mounts.len() ==> !within(
                (#[trigger] mounts[i]).source,
                (#[trigger] mounts[j]).mountpoint,
            ),
        0 <= a < taken_down(mounts).len(),
        0 <= b < taken_down(mounts).len(),
        a != b,
        within(taken_down(mounts)[a].mountpoint, taken_down(mounts)[b].mountpoint),
    ensures
        a < b,
{
    let rank = |parts: Seq<Seq<char>>| -(parts.len() as int);
    assert forall|i: int, j: int|
        0 <= i < mounts.len() && 0 <= j < mounts.len() && !same_path(
            (#[trigger] mounts[i]).mountpoint,
            (#[trigger] mounts[j]).mountpoint,
        ) && (within(mounts[i].mountpoint, mounts[j].mountpoint) || within(
            mounts[i].source,
            mounts[j].mountpoint,
        )) implies rank(components(mounts[i].mountpoint)) < rank(
        components(mounts[j].mountpoint),
    ) by {
        let (p, q) = (components(mounts[i].mountpoint), components(mounts[j].mountpoint));
        if p.len() == q.len() {
            assert(p.take(q.len() as int) =~= p);
        }
    }
    lemma_no_mount_is_pulled_from_under_another(mounts, rank, a, b);
}

} // verus!
