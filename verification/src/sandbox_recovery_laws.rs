//! What recovery does to sandboxes: those that are in use are left, and so is whatever they rest on;
//! all others are taken down, none before what rests on it.

use crate::path::{
    components, lemma_parent, lemma_within_order, parent_of, same_path, within,
};
use crate::process_supervision::SandboxProcessSnapshot;
use crate::recovery_laws::lemma_recovery_order_is_set;
use crate::recovery_order::{
    in_use, lemma_in_use_closed, lemma_recovery_order_respects, names, needed_within, ranks,
    recovery_order,
};
use crate::recovery_laws::lemma_path_set;
use crate::stale_sandbox_recovery::{
    all_links, is_active, lemma_parent_shorter, link_counts, mount_links, mount_roots,
    options_at, owning_root, path_set, paths_of_records, read_only_at, record_links, record_roots,
    recorded_in_use, root_dependencies, stale_roots, tied_to, users_of, MountInfoView,
    OwnershipView,
};
use crate::text::{lemma_selected, selected, split, trim};
use vstd::prelude::*;

verus! {

/// The sandboxes that are taken down, in their order.
pub open spec fn recovered(
    chroots: Seq<char>,
    records: Seq<OwnershipView>,
    mounts: Seq<MountInfoView>,
    instances: Seq<Seq<char>>,
    processes: SandboxProcessSnapshot,
) -> Seq<Seq<char>> {
    let stale = stale_roots(chroots, records, mounts, instances, processes);
    recovery_order(
        path_set(stale),
        root_dependencies(chroots, stale, records, mounts, instances),
    )
}

/// Whether a record tells of a sandbox at the path.
pub open spec fn tells_of(record: OwnershipView, path: Seq<char>) -> bool {
    record.root is Some && same_path(record.root->0, path)
}

/// Whether a record tells that a sandbox is nested in the one at the path.
pub open spec fn is_nested_in(record: OwnershipView, path: Seq<char>) -> bool {
    record.root is Some && record.parent_root is Some && same_path(record.parent_root->0, path)
}

/// Whether a path belongs to the sandbox.
pub open spec fn belongs_to(
    chroots: Seq<char>,
    instances: Seq<Seq<char>>,
    path: Seq<char>,
    root: Seq<char>,
) -> bool {
    owning_root(chroots, path, instances) is Some && same_path(
        owning_root(chroots, path, instances)->0,
        root,
    )
}

/// Whether there is a sandbox at the path: a record tells of it, or something is mounted in it.
pub open spec fn is_sandbox(
    chroots: Seq<char>,
    records: Seq<OwnershipView>,
    mounts: Seq<MountInfoView>,
    instances: Seq<Seq<char>>,
    path: Seq<char>,
) -> bool {
    ||| exists|i: int| 0 <= i < records.len() && tells_of(#[trigger] records[i], path)
    ||| exists|i: int|
        0 <= i < mounts.len() && belongs_to(
            chroots,
            instances,
            (#[trigger] mounts[i]).mountpoint,
            path,
        )
}

proof fn lemma_record_roots(records: Seq<OwnershipView>, x: Seq<char>)
    ensures
        record_roots(records).contains(x) <==> exists|i: int|
            0 <= i < records.len() && (#[trigger] records[i]).root == Some(x),
    decreases records.len(),
{
    let all = record_roots(records);
    if records.len() > 0 {
        let head = records.drop_last();
        let before = record_roots(head);
        lemma_record_roots(head, x);
        if before.contains(x) {
            let i = choose|i: int| 0 <= i < head.len() && (#[trigger] head[i]).root == Some(x);
            assert(records[i] == head[i]);
            let k = choose|k: int| 0 <= k < before.len() && before[k] == x;
            assert(all[k] == x);
        }
        if (records[records.len() - 1]).root == Some(x) {
            assert(all[before.len() as int] == x);
        }
        if all.contains(x) && !before.contains(x) {
            let k = choose|k: int| 0 <= k < all.len() && all[k] == x;
            if k < before.len() {
                assert(before[k] == x);
            }
            assert((records[records.len() - 1]).root == Some(x));
        }
        if exists|i: int| 0 <= i < records.len() && (#[trigger] records[i]).root == Some(x) {
            let i = choose|i: int|
                0 <= i < records.len() && (#[trigger] records[i]).root == Some(x);
            if i < head.len() {
                assert(head[i] == records[i]);
            }
        }
    }
}

proof fn lemma_mount_roots(chroots: Seq<char>, mounts: Seq<MountInfoView>, instances: Seq<Seq<char>>, x: Seq<char>)
    ensures
        mount_roots(chroots, mounts, instances).contains(x) <==> exists|i: int|
            0 <= i < mounts.len() && owning_root(chroots, (#[trigger] mounts[i]).mountpoint, instances) == Some(x),
    decreases mounts.len(),
{
    let all = mount_roots(chroots, mounts, instances);
    if mounts.len() > 0 {
        let head = mounts.drop_last();
        let before = mount_roots(chroots, head, instances);
        lemma_mount_roots(chroots, head, instances, x);
        if before.contains(x) {
            let i = choose|i: int| 0 <= i < head.len() && owning_root(chroots, (#[trigger] head[i]).mountpoint, instances) == Some(x);
            assert(mounts[i] == head[i]);
            let k = choose|k: int| 0 <= k < before.len() && before[k] == x;
            assert(all[k] == x);
        }
        if owning_root(chroots, (mounts[mounts.len() - 1]).mountpoint, instances) == Some(x) {
            assert(all[before.len() as int] == x);
        }
        if all.contains(x) && !before.contains(x) {
            let k = choose|k: int| 0 <= k < all.len() && all[k] == x;
            if k < before.len() {
                assert(before[k] == x);
            }
            assert(owning_root(chroots, (mounts[mounts.len() - 1]).mountpoint, instances) == Some(x));
        }
        if exists|i: int| 0 <= i < mounts.len() && owning_root(chroots, (#[trigger] mounts[i]).mountpoint, instances) == Some(x) {
            let i = choose|i: int|
                0 <= i < mounts.len() && owning_root(chroots, (#[trigger] mounts[i]).mountpoint, instances) == Some(x);
            if i < head.len() {
                assert(head[i] == mounts[i]);
            }
        }
    }
}

proof fn lemma_record_links(records: Seq<OwnershipView>, x: (Seq<char>, Seq<char>))
    ensures
        record_links(records).contains(x) <==> exists|i: int|
            0 <= i < records.len() && links_records(#[trigger] records[i], x),
    decreases records.len(),
{
    let all = record_links(records);
    if records.len() > 0 {
        let head = records.drop_last();
        let before = record_links(head);
        lemma_record_links(head, x);
        if before.contains(x) {
            let i = choose|i: int| 0 <= i < head.len() && links_records(#[trigger] head[i], x);
            assert(records[i] == head[i]);
            let k = choose|k: int| 0 <= k < before.len() && before[k] == x;
            assert(all[k] == x);
        }
        if links_records(records[records.len() - 1], x) {
            assert(all[before.len() as int] == x);
        }
        if all.contains(x) && !before.contains(x) {
            let k = choose|k: int| 0 <= k < all.len() && all[k] == x;
            if k < before.len() {
                assert(before[k] == x);
            }
            assert(links_records(records[records.len() - 1], x));
        }
        if exists|i: int| 0 <= i < records.len() && links_records(#[trigger] records[i], x) {
            let i = choose|i: int|
                0 <= i < records.len() && links_records(#[trigger] records[i], x);
            if i < head.len() {
                assert(head[i] == records[i]);
            }
        }
    }
}

spec fn links_records(record: OwnershipView, link: (Seq<char>, Seq<char>)) -> bool {
    record.root == Some(link.0) && record.parent_root == Some(link.1)
}

spec fn links_mounts(
    chroots: Seq<char>,
    instances: Seq<Seq<char>>,
    mount: MountInfoView,
    link: (Seq<char>, Seq<char>),
) -> bool {
    owning_root(chroots, mount.mountpoint, instances) == Some(link.0) && owning_root(
        chroots,
        mount.source,
        instances,
    ) == Some(link.1)
}

spec fn uses(record: OwnershipView, processes: SandboxProcessSnapshot, x: Seq<char>) -> bool {
    record.root == Some(x) && (tied_to(processes, x) || record.launcher_active)
}

proof fn lemma_mount_links(chroots: Seq<char>, mounts: Seq<MountInfoView>, instances: Seq<Seq<char>>, x: (Seq<char>, Seq<char>))
    ensures
        mount_links(chroots, mounts, instances).contains(x) <==> exists|i: int|
            0 <= i < mounts.len() && links_mounts(chroots, instances, #[trigger] mounts[i], x),
    decreases mounts.len(),
{
    let all = mount_links(chroots, mounts, instances);
    if mounts.len() > 0 {
        let head = mounts.drop_last();
        let before = mount_links(chroots, head, instances);
        lemma_mount_links(chroots, head, instances, x);
        if before.contains(x) {
            let i = choose|i: int| 0 <= i < head.len() && links_mounts(chroots, instances, #[trigger] head[i], x);
            assert(mounts[i] == head[i]);
            let k = choose|k: int| 0 <= k < before.len() && before[k] == x;
            assert(all[k] == x);
        }
        if links_mounts(chroots, instances, mounts[mounts.len() - 1], x) {
            assert(all[before.len() as int] == x);
        }
        if all.contains(x) && !before.contains(x) {
            let k = choose|k: int| 0 <= k < all.len() && all[k] == x;
            if k < before.len() {
                assert(before[k] == x);
            }
            assert(links_mounts(chroots, instances, mounts[mounts.len() - 1], x));
        }
        if exists|i: int| 0 <= i < mounts.len() && links_mounts(chroots, instances, #[trigger] mounts[i], x) {
            let i = choose|i: int|
                0 <= i < mounts.len() && links_mounts(chroots, instances, #[trigger] mounts[i], x);
            if i < head.len() {
                assert(head[i] == mounts[i]);
            }
        }
    }
}

proof fn lemma_recorded_in_use(records: Seq<OwnershipView>, processes: SandboxProcessSnapshot, x: Seq<char>)
    ensures
        recorded_in_use(records, processes).contains(x) <==> exists|i: int|
            0 <= i < records.len() && uses(#[trigger] records[i], processes, x),
    decreases records.len(),
{
    let all = recorded_in_use(records, processes);
    if records.len() > 0 {
        let head = records.drop_last();
        let before = recorded_in_use(head, processes);
        lemma_recorded_in_use(head, processes, x);
        if before.contains(x) {
            let i = choose|i: int| 0 <= i < head.len() && uses(#[trigger] head[i], processes, x);
            assert(records[i] == head[i]);
            let k = choose|k: int| 0 <= k < before.len() && before[k] == x;
            assert(all[k] == x);
        }
        if uses(records[records.len() - 1], processes, x) {
            assert(all[before.len() as int] == x);
        }
        if all.contains(x) && !before.contains(x) {
            let k = choose|k: int| 0 <= k < all.len() && all[k] == x;
            if k < before.len() {
                assert(before[k] == x);
            }
            assert(uses(records[records.len() - 1], processes, x));
        }
        if exists|i: int| 0 <= i < records.len() && uses(#[trigger] records[i], processes, x) {
            let i = choose|i: int|
                0 <= i < records.len() && uses(#[trigger] records[i], processes, x);
            if i < head.len() {
                assert(head[i] == records[i]);
            }
        }
    }
}

spec fn roots_of(
    chroots: Seq<char>,
    records: Seq<OwnershipView>,
    mounts: Seq<MountInfoView>,
    instances: Seq<Seq<char>>,
) -> Seq<Seq<char>> {
    path_set(record_roots(records) + mount_roots(chroots, mounts, instances))
}

proof fn lemma_names_same(paths: Seq<Seq<char>>, p: Seq<char>, q: Seq<char>)
    requires
        same_path(p, q),
    ensures
        names(paths, p) == names(paths, q),
{
    if names(paths, p) {
        let i = choose|i: int| 0 <= i < paths.len() && same_path(#[trigger] paths[i], p);
        assert(same_path(paths[i], q));
    }
    if names(paths, q) {
        let i = choose|i: int| 0 <= i < paths.len() && same_path(#[trigger] paths[i], q);
        assert(same_path(paths[i], p));
    }
}

proof fn lemma_needed_same(
    seeds: Seq<Seq<char>>,
    links: Seq<(Seq<char>, Seq<char>)>,
    p: Seq<char>,
    q: Seq<char>,
)
    requires
        same_path(p, q),
        in_use(seeds, links, p),
    ensures
        in_use(seeds, links, q),
{
    let n = choose|n: nat| needed_within(seeds, links, p, n);
    lemma_names_same(seeds, p, q);
    if !names(seeds, p) {
        let i = choose|i: int|
            0 <= i < links.len() && same_path((#[trigger] links[i]).1, p) && needed_within(
                seeds,
                links,
                links[i].0,
                (n - 1) as nat,
            );
        assert(same_path(links[i].1, q));
    }
    assert(needed_within(seeds, links, q, n));
}

proof fn lemma_recovered_exactly(
    chroots: Seq<char>,
    records: Seq<OwnershipView>,
    mounts: Seq<MountInfoView>,
    instances: Seq<Seq<char>>,
    processes: SandboxProcessSnapshot,
    p: Seq<char>,
)
    ensures
        names(recovered(chroots, records, mounts, instances, processes), p) <==> names(
            roots_of(chroots, records, mounts, instances),
            p,
        ) && !is_active(
            chroots,
            records,
            mounts,
            instances,
            roots_of(chroots, records, mounts, instances),
            processes,
            p,
        ),
{
    let roots = roots_of(chroots, records, mounts, instances);
    let stale = stale_roots(chroots, records, mounts, instances, processes);
    let deps = root_dependencies(chroots, stale, records, mounts, instances);
    let all = recovered(chroots, records, mounts, instances, processes);
    let keep = |p: Seq<char>|
        !is_active(chroots, records, mounts, instances, roots, processes, p);
    let seeds = users_of(records, roots, processes);
    let links = all_links(chroots, records, mounts, instances);
    lemma_selected(roots, keep);
    assert(stale == selected(roots, keep));
    lemma_recovery_order_is_set(stale, deps);
    if names(all, p) {
        let j = choose|j: int| 0 <= j < all.len() && same_path(#[trigger] all[j], p);
        assert(stale.contains(all[j]));
        assert(roots.contains(all[j]) && keep(all[j]));
        let k = choose|k: int| 0 <= k < roots.len() && roots[k] == all[j];
        assert(same_path(roots[k], p));
        if in_use(seeds, links, p) {
            lemma_needed_same(seeds, links, p, all[j]);
        }
    }
    if names(roots, p) && !in_use(seeds, links, p) {
        let k = choose|k: int| 0 <= k < roots.len() && same_path(#[trigger] roots[k], p);
        if in_use(seeds, links, roots[k]) {
            lemma_needed_same(seeds, links, roots[k], p);
        }
        assert(keep(roots[k]));
        assert(roots.contains(roots[k]));
        assert(stale.contains(roots[k]));
        let m = choose|m: int| 0 <= m < stale.len() && stale[m] == roots[k];
        assert(names(all, stale[m]));
        lemma_names_same(all, stale[m], p);
    }
}

proof fn lemma_roots_exactly(
    chroots: Seq<char>,
    records: Seq<OwnershipView>,
    mounts: Seq<MountInfoView>,
    instances: Seq<Seq<char>>,
    p: Seq<char>,
)
    ensures
        names(roots_of(chroots, records, mounts, instances), p) <==> is_sandbox(
            chroots,
            records,
            mounts,
            instances,
            p,
        ),
{
    let (a, b) = (record_roots(records), mount_roots(chroots, mounts, instances));
    let all = a + b;
    let set = path_set(all);
    lemma_path_set(all);
    if names(set, p) {
        let i = choose|i: int| 0 <= i < set.len() && same_path(#[trigger] set[i], p);
        assert(all.contains(set[i]));
        let k = choose|k: int| 0 <= k < all.len() && all[k] == set[i];
        if k < a.len() {
            assert(a[k] == set[i]);
            lemma_record_roots(records, set[i]);
            let r = choose|r: int|
                0 <= r < records.len() && (#[trigger] records[r]).root == Some(set[i]);
            assert(tells_of(records[r], p));
        } else {
            assert(b[k - a.len()] == set[i]);
            lemma_mount_roots(chroots, mounts, instances, set[i]);
            let m = choose|m: int|
                0 <= m < mounts.len() && owning_root(
                    chroots,
                    (#[trigger] mounts[m]).mountpoint,
                    instances,
                ) == Some(set[i]);
            assert(belongs_to(chroots, instances, mounts[m].mountpoint, p));
        }
    }
    if exists|i: int| 0 <= i < records.len() && tells_of(#[trigger] records[i], p) {
        let i = choose|i: int| 0 <= i < records.len() && tells_of(#[trigger] records[i], p);
        let root = records[i].root->0;
        lemma_record_roots(records, root);
        assert(a.contains(root));
        let k = choose|k: int| 0 <= k < a.len() && a[k] == root;
        assert(all[k] == root);
        assert(names(set, all[k]));
        lemma_names_same(set, root, p);
    }
    if exists|i: int|
        0 <= i < mounts.len() && belongs_to(
            chroots,
            instances,
            (#[trigger] mounts[i]).mountpoint,
            p,
        ) {
        let i = choose|i: int|
            0 <= i < mounts.len() && belongs_to(
                chroots,
                instances,
                (#[trigger] mounts[i]).mountpoint,
                p,
            );
        let root = owning_root(chroots, mounts[i].mountpoint, instances)->0;
        lemma_mount_roots(chroots, mounts, instances, root);
        assert(b.contains(root));
        let k = choose|k: int| 0 <= k < b.len() && b[k] == root;
        assert(all[a.len() + k] == root);
        assert(names(set, all[a.len() + k]));
        lemma_names_same(set, root, p);
    }
}

/// Whether a process is in the directory, or has a file in it open.
pub open spec fn is_occupied(processes: SandboxProcessSnapshot, root: Seq<char>) -> bool {
    exists|k: int|
        0 <= k < processes.references@.len() && within(
            (#[trigger] processes.references@[k]).path@,
            root,
        )
}

/// Whether something speaks for leaving a sandbox: a process is in it, its launcher lives, a
/// sandbox that is left is nested in it, or a sandbox that is left shows something of it.
pub open spec fn is_needed(
    chroots: Seq<char>,
    records: Seq<OwnershipView>,
    mounts: Seq<MountInfoView>,
    instances: Seq<Seq<char>>,
    processes: SandboxProcessSnapshot,
    root: Seq<char>,
) -> bool {
    let gone = recovered(chroots, records, mounts, instances, processes);
    ||| is_occupied(processes, root)
    ||| exists|i: int|
        0 <= i < records.len() && tells_of(#[trigger] records[i], root)
            && records[i].launcher_active
    ||| exists|i: int|
        0 <= i < records.len() && is_nested_in(#[trigger] records[i], root) && !names(
            gone,
            records[i].root->0,
        )
    ||| exists|i: int|
        0 <= i < mounts.len() && belongs_to(
            chroots,
            instances,
            (#[trigger] mounts[i]).source,
            root,
        ) && owning_root(chroots, mounts[i].mountpoint, instances) is Some && !names(
            gone,
            owning_root(chroots, mounts[i].mountpoint, instances)->0,
        )
}

/// A sandbox is taken down if and only if nothing speaks for leaving it: no process is in it, its
/// launcher does not live, and no sandbox that is left is nested in it or shows something of it.
pub proof fn lemma_taken_down_unless_needed(
    chroots: Seq<char>,
    records: Seq<OwnershipView>,
    mounts: Seq<MountInfoView>,
    instances: Seq<Seq<char>>,
    processes: SandboxProcessSnapshot,
    root: Seq<char>,
)
    requires
        is_sandbox(chroots, records, mounts, instances, root),
    ensures
        names(recovered(chroots, records, mounts, instances, processes), root) <==> !is_needed(
            chroots,
            records,
            mounts,
            instances,
            processes,
            root,
        ),
{
    lemma_recovered_exactly(chroots, records, mounts, instances, processes, root);
    lemma_roots_exactly(chroots, records, mounts, instances, root);
    if is_needed(chroots, records, mounts, instances, processes, root) {
        lemma_needed_is_active(chroots, records, mounts, instances, processes, root);
    }
    let roots = roots_of(chroots, records, mounts, instances);
    if is_active(chroots, records, mounts, instances, roots, processes, root) {
        lemma_active_is_needed(chroots, records, mounts, instances, processes, root);
    }
}

proof fn lemma_seed_is_active(
    chroots: Seq<char>,
    records: Seq<OwnershipView>,
    mounts: Seq<MountInfoView>,
    instances: Seq<Seq<char>>,
    roots: Seq<Seq<char>>,
    processes: SandboxProcessSnapshot,
    p: Seq<char>,
)
    requires
        names(users_of(records, roots, processes), p),
    ensures
        is_active(chroots, records, mounts, instances, roots, processes, p),
{
    let seeds = users_of(records, roots, processes);
    let links = all_links(chroots, records, mounts, instances);
    assert(needed_within(seeds, links, p, 0));
}

proof fn lemma_needed_is_active(
    chroots: Seq<char>,
    records: Seq<OwnershipView>,
    mounts: Seq<MountInfoView>,
    instances: Seq<Seq<char>>,
    processes: SandboxProcessSnapshot,
    root: Seq<char>,
)
    requires
        is_sandbox(chroots, records, mounts, instances, root),
        is_needed(chroots, records, mounts, instances, processes, root),
    ensures
        is_active(
            chroots,
            records,
            mounts,
            instances,
            roots_of(chroots, records, mounts, instances),
            processes,
            root,
        ),
{
    let roots = roots_of(chroots, records, mounts, instances);
    let seeds = users_of(records, roots, processes);
    let links = all_links(chroots, records, mounts, instances);
    let (a, b) = (record_links(records), mount_links(chroots, mounts, instances));
    let gone = recovered(chroots, records, mounts, instances, processes);
    let recorded = recorded_in_use(records, processes);
    let tied = selected(roots, |p: Seq<char>| tied_to(processes, p));
    lemma_roots_exactly(chroots, records, mounts, instances, root);
    if is_occupied(processes, root) {
        let k = choose|k: int| 0 <= k < roots.len() && same_path(#[trigger] roots[k], root);
        let r = choose|r: int|
            0 <= r < processes.references@.len() && within(
                (#[trigger] processes.references@[r]).path@,
                root,
            );
        assert(within(processes.references@[r].path@, roots[k]));
        assert(tied_to(processes, roots[k]));
        lemma_selected(roots, |p: Seq<char>| tied_to(processes, p));
        assert(roots.contains(roots[k]));
        assert(tied.contains(roots[k]));
        let m = choose|m: int| 0 <= m < tied.len() && tied[m] == roots[k];
        assert(seeds[recorded.len() + m] == roots[k]);
        assert(same_path(seeds[recorded.len() + m], root));
        lemma_seed_is_active(chroots, records, mounts, instances, roots, processes, root);
    } else if exists|i: int|
        0 <= i < records.len() && tells_of(#[trigger] records[i], root)
            && records[i].launcher_active {
        let i = choose|i: int|
            0 <= i < records.len() && tells_of(#[trigger] records[i], root)
                && records[i].launcher_active;
        let x = records[i].root->0;
        lemma_recorded_in_use(records, processes, x);
        assert(uses(records[i], processes, x));
        assert(recorded.contains(x));
        let m = choose|m: int| 0 <= m < recorded.len() && recorded[m] == x;
        assert(seeds[m] == x);
        assert(same_path(seeds[m], root));
        lemma_seed_is_active(chroots, records, mounts, instances, roots, processes, root);
    } else if exists|i: int|
        0 <= i < records.len() && is_nested_in(#[trigger] records[i], root) && !names(
            gone,
            records[i].root->0,
        ) {
        let i = choose|i: int|
            0 <= i < records.len() && is_nested_in(#[trigger] records[i], root) && !names(
                gone,
                records[i].root->0,
            );
        let child = records[i].root->0;
        let link = (child, records[i].parent_root->0);
        assert(tells_of(records[i], child));
        lemma_roots_exactly(chroots, records, mounts, instances, child);
        lemma_recovered_exactly(chroots, records, mounts, instances, processes, child);
        lemma_record_links(records, link);
        assert(links_records(records[i], link));
        assert(a.contains(link));
        let m = choose|m: int| 0 <= m < a.len() && a[m] == link;
        assert(links[m] == link);
        lemma_in_use_closed(seeds, links, m);
        lemma_needed_same(seeds, links, link.1, root);
    } else {
        let i = choose|i: int|
            0 <= i < mounts.len() && belongs_to(
                chroots,
                instances,
                (#[trigger] mounts[i]).source,
                root,
            ) && owning_root(chroots, mounts[i].mountpoint, instances) is Some && !names(
                gone,
                owning_root(chroots, mounts[i].mountpoint, instances)->0,
            );
        let child = owning_root(chroots, mounts[i].mountpoint, instances)->0;
        let link = (child, owning_root(chroots, mounts[i].source, instances)->0);
        assert(belongs_to(chroots, instances, mounts[i].mountpoint, child));
        lemma_roots_exactly(chroots, records, mounts, instances, child);
        lemma_recovered_exactly(chroots, records, mounts, instances, processes, child);
        lemma_mount_links(chroots, mounts, instances, link);
        assert(links_mounts(chroots, instances, mounts[i], link));
        assert(b.contains(link));
        let m = choose|m: int| 0 <= m < b.len() && b[m] == link;
        assert(links[a.len() + m] == link);
        lemma_in_use_closed(seeds, links, a.len() + m);
        lemma_needed_same(seeds, links, link.1, root);
    }
}

proof fn lemma_active_is_needed(
    chroots: Seq<char>,
    records: Seq<OwnershipView>,
    mounts: Seq<MountInfoView>,
    instances: Seq<Seq<char>>,
    processes: SandboxProcessSnapshot,
    root: Seq<char>,
)
    requires
        is_active(
            chroots,
            records,
            mounts,
            instances,
            roots_of(chroots, records, mounts, instances),
            processes,
            root,
        ),
    ensures
        is_needed(chroots, records, mounts, instances, processes, root),
{
    let roots = roots_of(chroots, records, mounts, instances);
    let seeds = users_of(records, roots, processes);
    let links = all_links(chroots, records, mounts, instances);
    let (a, b) = (record_links(records), mount_links(chroots, mounts, instances));
    let recorded = recorded_in_use(records, processes);
    let tied = selected(roots, |p: Seq<char>| tied_to(processes, p));
    let n = choose|n: nat| needed_within(seeds, links, root, n);
    if names(seeds, root) {
        let m = choose|m: int| 0 <= m < seeds.len() && same_path(#[trigger] seeds[m], root);
        if m < recorded.len() {
            assert(recorded[m] == seeds[m]);
            assert(recorded.contains(seeds[m]));
            lemma_recorded_in_use(records, processes, seeds[m]);
            let i = choose|i: int|
                0 <= i < records.len() && uses(#[trigger] records[i], processes, seeds[m]);
            assert(tells_of(records[i], root));
            if !records[i].launcher_active {
                lemma_tied_same(processes, seeds[m], root);
            }
        } else {
            assert(tied[m - recorded.len()] == seeds[m]);
            assert(tied.contains(seeds[m]));
            lemma_selected(roots, |p: Seq<char>| tied_to(processes, p));
            lemma_tied_same(processes, seeds[m], root);
        }
    } else {
        let m = choose|m: int|
            0 <= m < links.len() && same_path((#[trigger] links[m]).1, root) && needed_within(
                seeds,
                links,
                links[m].0,
                (n - 1) as nat,
            );
        let link = links[m];
        assert(in_use(seeds, links, link.0));
        lemma_recovered_exactly(chroots, records, mounts, instances, processes, link.0);
        if m < a.len() {
            assert(a[m] == link);
            assert(a.contains(link));
            lemma_record_links(records, link);
            let i = choose|i: int|
                0 <= i < records.len() && links_records(#[trigger] records[i], link);
            assert(is_nested_in(records[i], root));
        } else {
            assert(b[m - a.len()] == link);
            assert(b.contains(link));
            lemma_mount_links(chroots, mounts, instances, link);
            let i = choose|i: int|
                0 <= i < mounts.len() && links_mounts(
                    chroots,
                    instances,
                    #[trigger] mounts[i],
                    link,
                );
            assert(belongs_to(chroots, instances, mounts[i].source, root));
        }
    }
}

proof fn lemma_tied_same(processes: SandboxProcessSnapshot, p: Seq<char>, q: Seq<char>)
    requires
        same_path(p, q),
        tied_to(processes, p),
    ensures
        is_occupied(processes, q),
{
    let i = choose|i: int|
        0 <= i < processes.references@.len() && within(
            (#[trigger] processes.references@[i]).path@,
            p,
        );
    assert(within(processes.references@[i].path@, q));
}

/// Each sandbox is taken down once, and only sandboxes are.
pub proof fn lemma_sandboxes_are_taken_down_once(
    chroots: Seq<char>,
    records: Seq<OwnershipView>,
    mounts: Seq<MountInfoView>,
    instances: Seq<Seq<char>>,
    processes: SandboxProcessSnapshot,
)
    ensures
        ({
            let all = recovered(chroots, records, mounts, instances, processes);
            &&& forall|i: int|
                0 <= i < all.len() ==> is_sandbox(
                    chroots,
                    records,
                    mounts,
                    instances,
                    #[trigger] all[i],
                )
            &&& forall|i: int, j: int|
                0 <= i < j < all.len() ==> !same_path(#[trigger] all[i], #[trigger] all[j])
        }),
{
    let all = recovered(chroots, records, mounts, instances, processes);
    let stale = stale_roots(chroots, records, mounts, instances, processes);
    lemma_recovery_order_is_set(
        stale,
        root_dependencies(chroots, stale, records, mounts, instances),
    );
    assert forall|i: int| 0 <= i < all.len() implies is_sandbox(
        chroots,
        records,
        mounts,
        instances,
        #[trigger] all[i],
    ) by {
        assert(same_path(all[i], all[i]));
        assert(names(all, all[i]));
        lemma_recovered_exactly(chroots, records, mounts, instances, processes, all[i]);
        lemma_roots_exactly(chroots, records, mounts, instances, all[i]);
    }
}

/// Whether one of the sandboxes rests on the other: it is nested in it, or shows something of it.
pub open spec fn rests_on_sandbox(
    chroots: Seq<char>,
    records: Seq<OwnershipView>,
    mounts: Seq<MountInfoView>,
    instances: Seq<Seq<char>>,
    upper: Seq<char>,
    lower: Seq<char>,
) -> bool {
    ||| exists|i: int|
        0 <= i < records.len() && tells_of(#[trigger] records[i], upper) && is_nested_in(
            records[i],
            lower,
        )
    ||| !same_path(upper, lower) && exists|i: int|
        0 <= i < mounts.len() && belongs_to(
            chroots,
            instances,
            (#[trigger] mounts[i]).mountpoint,
            upper,
        ) && belongs_to(chroots, instances, mounts[i].source, lower)
}

/// No sandbox is taken down before one that rests on it. This holds wherever it can: where a rank
/// tells that no sandboxes rest on each other in a circle.
pub proof fn lemma_upper_sandboxes_are_taken_down_first(
    chroots: Seq<char>,
    records: Seq<OwnershipView>,
    mounts: Seq<MountInfoView>,
    instances: Seq<Seq<char>>,
    processes: SandboxProcessSnapshot,
    rank: spec_fn(Seq<Seq<char>>) -> int,
    a: int,
    b: int,
)
    requires
        forall|upper: Seq<char>, lower: Seq<char>| #[trigger]
            rests_on_sandbox(chroots, records, mounts, instances, upper, lower) ==> rank(
                components(upper),
            ) < rank(components(lower)),
        0 <= a < recovered(chroots, records, mounts, instances, processes).len(),
        0 <= b < recovered(chroots, records, mounts, instances, processes).len(),
        rests_on_sandbox(
            chroots,
            records,
            mounts,
            instances,
            recovered(chroots, records, mounts, instances, processes)[a],
            recovered(chroots, records, mounts, instances, processes)[b],
        ),
    ensures
        a < b,
{
    let all = recovered(chroots, records, mounts, instances, processes);
    let stale = stale_roots(chroots, records, mounts, instances, processes);
    let deps = root_dependencies(chroots, stale, records, mounts, instances);
    let set = path_set(stale);
    let first = selected(
        record_links(records),
        |l: (Seq<char>, Seq<char>)| link_counts(stale, false, l),
    );
    let second = selected(
        mount_links(chroots, mounts, instances),
        |l: (Seq<char>, Seq<char>)| link_counts(stale, true, l),
    );
    lemma_selected(
        record_links(records),
        |l: (Seq<char>, Seq<char>)| link_counts(stale, false, l),
    );
    lemma_selected(
        mount_links(chroots, mounts, instances),
        |l: (Seq<char>, Seq<char>)| link_counts(stale, true, l),
    );
    assert(ranks(set, deps, rank)) by {
        assert forall|d: int|
            0 <= d < deps.len() && names(set, (#[trigger] deps[d]).0) && names(
                set,
                deps[d].1,
            ) implies rank(components(deps[d].0)) < rank(components(deps[d].1)) by {
            let link = deps[d];
            if d < first.len() {
                assert(first[d] == link);
                assert(first.contains(link));
                lemma_record_links(records, link);
                let i = choose|i: int|
                    0 <= i < records.len() && links_records(#[trigger] records[i], link);
                assert(tells_of(records[i], link.0));
            } else {
                assert(second[d - first.len()] == link);
                assert(second.contains(link));
                lemma_mount_links(chroots, mounts, instances, link);
                let i = choose|i: int|
                    0 <= i < mounts.len() && links_mounts(
                        chroots,
                        instances,
                        #[trigger] mounts[i],
                        link,
                    );
                assert(belongs_to(chroots, instances, mounts[i].mountpoint, link.0));
            }
            assert(rests_on_sandbox(chroots, records, mounts, instances, link.0, link.1));
        }
    }
    lemma_recovery_order_is_set(stale, deps);
    lemma_names_own(stale, all[a]);
    lemma_names_own(stale, all[b]);
    let (upper, lower) = (all[a], all[b]);
    let (d, link): (int, (Seq<char>, Seq<char>)) = if exists|i: int|
        0 <= i < records.len() && tells_of(#[trigger] records[i], upper) && is_nested_in(
            records[i],
            lower,
        ) {
        let i = choose|i: int|
            0 <= i < records.len() && tells_of(#[trigger] records[i], upper) && is_nested_in(
                records[i],
                lower,
            );
        let link = (records[i].root->0, records[i].parent_root->0);
        lemma_record_links(records, link);
        assert(links_records(records[i], link));
        lemma_names_same(stale, link.0, upper);
        lemma_names_same(stale, link.1, lower);
        assert(link_counts(stale, false, link));
        assert(first.contains(link));
        let m = choose|m: int| 0 <= m < first.len() && first[m] == link;
        assert(deps[m] == link);
        (m, link)
    } else {
        let i = choose|i: int|
            0 <= i < mounts.len() && belongs_to(
                chroots,
                instances,
                (#[trigger] mounts[i]).mountpoint,
                upper,
            ) && belongs_to(chroots, instances, mounts[i].source, lower);
        let link = (
            owning_root(chroots, mounts[i].mountpoint, instances)->0,
            owning_root(chroots, mounts[i].source, instances)->0,
        );
        lemma_mount_links(chroots, mounts, instances, link);
        assert(links_mounts(chroots, instances, mounts[i], link));
        lemma_names_same(stale, link.0, upper);
        lemma_names_same(stale, link.1, lower);
        assert(link_counts(stale, true, link));
        assert(second.contains(link));
        let m = choose|m: int| 0 <= m < second.len() && second[m] == link;
        assert(deps[first.len() + m] == link);
        (first.len() + m, link)
    };
    lemma_recovery_order_respects(set, deps, rank, d, a, b);
}

proof fn lemma_names_own(paths: Seq<Seq<char>>, p: Seq<char>)
    ensures
        paths.contains(p) ==> names(paths, p),
{
    if paths.contains(p) {
        let i = choose|i: int| 0 <= i < paths.len() && paths[i] == p;
        assert(same_path(paths[i], p));
    }
}

/// Whether a directory is a sandbox around a path: it is an instance below the directory of all
/// sandboxes, and the path lies below it.
pub open spec fn is_instance_around(
    chroots: Seq<char>,
    path: Seq<char>,
    instances: Seq<Seq<char>>,
    root: Seq<char>,
) -> bool {
    &&& names(instances, root)
    &&& within(root, chroots)
    &&& !same_path(root, chroots)
    &&& within(path, root)
    &&& !same_path(path, root)
}

proof fn lemma_shorter(p: Seq<char>, q: Seq<char>)
    requires
        within(p, q),
        !same_path(p, q),
    ensures
        components(q).len() < components(p).len(),
{
    if components(q).len() == components(p).len() {
        assert(components(p).take(components(q).len() as int) =~= components(p));
    }
}

/// A path belongs to the nearest sandbox around it, and to none if there is none around it.
pub proof fn lemma_paths_belong_to_the_nearest_sandbox(
    chroots: Seq<char>,
    path: Seq<char>,
    instances: Seq<Seq<char>>,
    other: Seq<char>,
)
    requires
        within(path, chroots),
    ensures
        owning_root(chroots, path, instances) matches Some(root) ==> is_instance_around(
            chroots,
            path,
            instances,
            root,
        ),
        is_instance_around(chroots, path, instances, other) ==> owning_root(
            chroots,
            path,
            instances,
        ) is Some && within(owning_root(chroots, path, instances)->0, other),
    decreases components(path).len(),
{
    lemma_parent(path);
    lemma_parent_shorter(path);
    let a = components(path);
    let c = components(chroots);
    if let Some(parent) = parent_of(path) {
        assert(components(parent) == a.drop_last());
        assert(within(path, parent)) by {
            assert(a.take(a.len() - 1) =~= a.drop_last());
        }
        lemma_within_order(parent, parent, parent);
        if is_instance_around(chroots, path, instances, other) {
            lemma_shorter(path, other);
            lemma_shorter(other, chroots);
            assert(a.drop_last().take(components(other).len() as int) =~= a.take(
                components(other).len() as int,
            ));
            assert(within(parent, other));
        }
        if same_path(parent, chroots) {
        } else if within(parent, chroots) && names(instances, parent) {
        } else {
            if within(parent, chroots) {
                lemma_paths_belong_to_the_nearest_sandbox(chroots, parent, instances, other);
                if is_instance_around(chroots, path, instances, other) {
                    if same_path(parent, other) {
                        lemma_names_same(instances, parent, other);
                    }
                }
                if let Some(root) = owning_root(chroots, path, instances) {
                    lemma_within_order(path, parent, root);
                    lemma_shorter(parent, root);
                }
            } else {
                lemma_none_outside(chroots, parent, instances);
                assert(same_path(path, chroots)) by {
                    if c.len() < a.len() {
                        assert(a.drop_last().take(c.len() as int) =~= a.take(c.len() as int));
                    } else {
                        assert(a.take(c.len() as int) =~= a);
                    }
                }
            }
        }
    } else if is_instance_around(chroots, path, instances, other) {
        lemma_shorter(path, other);
        lemma_shorter(other, chroots);
    }
}

proof fn lemma_none_outside(chroots: Seq<char>, path: Seq<char>, instances: Seq<Seq<char>>)
    requires
        !within(path, chroots),
    ensures
        owning_root(chroots, path, instances) is None,
    decreases components(path).len(),
{
    lemma_parent(path);
    lemma_parent_shorter(path);
    let a = components(path);
    let c = components(chroots);
    if let Some(parent) = parent_of(path) {
        assert(!within(parent, chroots)) by {
            if within(parent, chroots) {
                assert(a.drop_last().take(c.len() as int) =~= a.take(c.len() as int));
            }
        }
        if same_path(parent, chroots) {
            lemma_within_order(parent, parent, parent);
        } else {
            lemma_none_outside(chroots, parent, instances);
        }
    }
}

/// Whether a record of the sandbox is written down at the path.
pub open spec fn is_written_at(record: OwnershipView, root: Seq<char>, path: Seq<char>) -> bool {
    record.root is Some && same_path(record.root->0, root) && record.path == Some(path)
}

/// With a sandbox exactly those records are removed that tell of it.
pub proof fn lemma_records_of_a_sandbox(records: Seq<OwnershipView>, root: Seq<char>, x: Seq<char>)
    ensures
        paths_of_records(records, root).contains(x) <==> exists|i: int|
            0 <= i < records.len() && is_written_at(#[trigger] records[i], root, x),
    decreases records.len(),
{
    let all = paths_of_records(records, root);
    if records.len() > 0 {
        let head = records.drop_last();
        let before = paths_of_records(head, root);
        lemma_records_of_a_sandbox(head, root, x);
        if before.contains(x) {
            let i = choose|i: int| 0 <= i < head.len() && is_written_at(#[trigger] head[i], root, x);
            assert(records[i] == head[i]);
            let k = choose|k: int| 0 <= k < before.len() && before[k] == x;
            assert(all[k] == x);
        }
        if is_written_at(records[records.len() - 1], root, x) {
            assert(all[before.len() as int] == x);
        }
        if all.contains(x) && !before.contains(x) {
            let k = choose|k: int| 0 <= k < all.len() && all[k] == x;
            if k < before.len() {
                assert(before[k] == x);
            }
            assert(is_written_at(records[records.len() - 1], root, x));
        }
        if exists|i: int| 0 <= i < records.len() && is_written_at(#[trigger] records[i], root, x) {
            let i = choose|i: int|
                0 <= i < records.len() && is_written_at(#[trigger] records[i], root, x);
            if i < head.len() {
                assert(head[i] == records[i]);
            }
        }
    }
}

/// Whether the mount table says of the uppermost entry at the path that nothing can be written.
pub open spec fn is_first_at(mounts: Seq<MountInfoView>, path: Seq<char>, k: int) -> bool {
    &&& 0 <= k < mounts.len()
    &&& same_path(mounts[k].mountpoint, path)
    &&& forall|j: int| 0 <= j < k ==> !same_path((#[trigger] mounts[j]).mountpoint, path)
}

proof fn lemma_options_at(mounts: Seq<MountInfoView>, path: Seq<char>, from: int, k: int)
    requires
        0 <= from <= k,
        is_first_at(mounts, path, k),
    ensures
        options_at(mounts, path, from) == Some(mounts[k].options),
    decreases k - from,
{
    if from < k {
        assert(!same_path(mounts[from].mountpoint, path));
        lemma_options_at(mounts, path, from + 1, k);
    }
}

/// Nothing can be written at a mountpoint if and only if `read-only` is one of the options of its
/// mount.
pub proof fn lemma_read_only_is_an_option(mounts: Seq<MountInfoView>, path: Seq<char>, k: int)
    requires
        is_first_at(mounts, path, k),
    ensures
        read_only_at(mounts, path) <==> exists|i: int|
            0 <= i < split(mounts[k].options, ',').len() && trim(
                #[trigger] split(mounts[k].options, ',')[i],
            ) == "read-only"@,
{
    lemma_options_at(mounts, path, 0, k);
}

} // verus!
