//! What holds of a nested sandbox as a whole: it shows all that its parent shows, at the same
//! places, with the same access, and in an order in which nothing is covered.

use crate::mount_operations::MountView;
use crate::numbers::decimal;
use crate::order::{is_total, lemma_sorted, sorted};
use crate::path::{
    body, components, first_segment, joined, lead, lemma_path_after, path_after, same_path, within,
};
use crate::spawn_broker::{nested_steps, shallow_le, NestedPlanError, NestedStepView};
use vstd::prelude::*;

verus! {

/// The steps that fill a nested sandbox with the mounts of its parent.
pub open spec fn populated(
    parent_root: Seq<char>,
    nested_root: Seq<char>,
    mounts: Seq<MountView>,
) -> Result<Seq<NestedStepView>, NestedPlanError> {
    nested_steps(
        parent_root,
        nested_root,
        sorted(mounts, |a: MountView, b: MountView| shallow_le(a, b)),
        mounts.len() as int,
    )
}

/// The mount of the parent that a step is about.
spec fn mount_of_step(
    parent_root: Seq<char>,
    nested_root: Seq<char>,
    mounts: Seq<MountView>,
    n: int,
    a: int,
) -> int
    decreases n,
{
    if n <= 0 {
        -1
    } else if a < (nested_steps(parent_root, nested_root, mounts, n - 1)->Ok_0).len() {
        mount_of_step(parent_root, nested_root, mounts, n - 1, a)
    } else {
        n - 1
    }
}

proof fn lemma_step(
    parent_root: Seq<char>,
    nested_root: Seq<char>,
    mounts: Seq<MountView>,
    n: int,
    a: int,
)
    requires
        0 <= n <= mounts.len(),
        nested_steps(parent_root, nested_root, mounts, n) is Ok,
        0 <= a < (nested_steps(parent_root, nested_root, mounts, n)->Ok_0).len(),
    ensures
        ({
            let steps = nested_steps(parent_root, nested_root, mounts, n)->Ok_0;
            let i = mount_of_step(parent_root, nested_root, mounts, n, a);
            &&& -1 <= i < n
            &&& a == 0 <==> i == -1
            &&& steps[a] matches NestedStepView::Clone(_, target, _) ==> i >= 0 && target
                == path_after(mounts[i].path, components(parent_root).len()) && within(
                mounts[i].path,
                parent_root,
            )
        }),
    decreases n,
{
    if n > 0 {
        let before = nested_steps(parent_root, nested_root, mounts, n - 1)->Ok_0;
        let all = nested_steps(parent_root, nested_root, mounts, n)->Ok_0;
        lemma_first_step(parent_root, nested_root, mounts, n - 1);
        lemma_step(parent_root, nested_root, mounts, n - 1, 0);
        if a < before.len() {
            lemma_step(parent_root, nested_root, mounts, n - 1, a);
            assert(all[a] == before[a]);
        }
    }
}

proof fn lemma_steps_follow(
    parent_root: Seq<char>,
    nested_root: Seq<char>,
    mounts: Seq<MountView>,
    n: int,
    a: int,
    b: int,
)
    requires
        0 <= n <= mounts.len(),
        nested_steps(parent_root, nested_root, mounts, n) is Ok,
        0 <= a < b < (nested_steps(parent_root, nested_root, mounts, n)->Ok_0).len(),
    ensures
        mount_of_step(parent_root, nested_root, mounts, n, a) <= mount_of_step(
            parent_root,
            nested_root,
            mounts,
            n,
            b,
        ),
    decreases n,
{
    if n > 0 {
        let before = nested_steps(parent_root, nested_root, mounts, n - 1)->Ok_0;
        lemma_step(parent_root, nested_root, mounts, n, a);
        if b < before.len() {
            lemma_steps_follow(parent_root, nested_root, mounts, n - 1, a, b);
        }
    }
}

proof fn lemma_shallow_first(mounts: Seq<MountView>)
    ensures
        ({
            let order = sorted(mounts, |a: MountView, b: MountView| shallow_le(a, b));
            &&& order.len() == mounts.len()
            &&& forall|i: int, j: int|
                #![trigger order[i], order[j]]
                0 <= i <= j < order.len() ==> components(order[i].path).len() <= components(
                    order[j].path,
                ).len()
            &&& forall|m: MountView| mounts.contains(m) <==> #[trigger] order.contains(m)
        }),
{
    let le = |a: MountView, b: MountView| shallow_le(a, b);
    let order = sorted(mounts, le);
    lemma_sorted(mounts, le);
    assert(is_total(le)) by {
        reveal(is_total);
    }
    assert forall|i: int, j: int|
        #![trigger order[i], order[j]]
        0 <= i <= j < order.len() implies components(order[i].path).len() <= components(
        order[j].path,
    ).len() by {
        assert(le(order[i], order[j]));
    }
    mounts.to_multiset_ensures();
    order.to_multiset_ensures();
    assert forall|m: MountView| mounts.contains(m) <==> #[trigger] order.contains(m) by {
        assert(mounts.contains(m) <==> mounts.to_multiset().count(m) > 0);
        assert(order.contains(m) <==> order.to_multiset().count(m) > 0);
    }
}

/// In a nested sandbox no mount covers one that was made below it: of two places, the one that the
/// other lies in is mounted first.
pub proof fn lemma_outer_places_are_mounted_first(
    parent_root: Seq<char>,
    nested_root: Seq<char>,
    mounts: Seq<MountView>,
    steps: Seq<NestedStepView>,
    a: int,
    b: int,
)
    requires
        populated(parent_root, nested_root, mounts) == Ok::<Seq<NestedStepView>, NestedPlanError>(
            steps,
        ),
        0 <= a < steps.len(),
        0 <= b < steps.len(),
        steps[a] is Clone,
        steps[b] is Clone,
        within(steps[b]->Clone_1, steps[a]->Clone_1),
        !same_path(steps[b]->Clone_1, steps[a]->Clone_1),
    ensures
        a < b,
{
    let order = sorted(mounts, |a: MountView, b: MountView| shallow_le(a, b));
    let n = mounts.len() as int;
    lemma_shallow_first(mounts);
    lemma_step(parent_root, nested_root, order, n, a);
    lemma_step(parent_root, nested_root, order, n, b);
    let i = mount_of_step(parent_root, nested_root, order, n, a);
    let j = mount_of_step(parent_root, nested_root, order, n, b);
    let depth = components(parent_root).len();
    lemma_path_after(order[i].path, depth);
    lemma_path_after(order[j].path, depth);
    let (t, u) = (components(steps[a]->Clone_1), components(steps[b]->Clone_1));
    assert(t.len() <= u.len());
    if t.len() == u.len() {
        assert(u.take(t.len() as int) =~= u);
    }
    assert(components(order[i].path).len() < components(order[j].path).len());
    if b < a {
        lemma_steps_follow(parent_root, nested_root, order, n, b, a);
        assert(order[j].path == order[j].path && order[i].path == order[i].path);
    } else if a == b {
        assert(false);
    }
}

/// Whether a step and the one before it show a mount of the parent in the nested sandbox at its
/// place, with its access: it is put at a private place first, and what is there is shown.
pub open spec fn clones_at(
    parent_root: Seq<char>,
    nested_root: Seq<char>,
    steps: Seq<NestedStepView>,
    mount: MountView,
    a: int,
) -> bool {
    &&& 1 < a < steps.len()
    &&& steps[a - 1] is Stage
    &&& steps[a] is Clone
    &&& steps[a - 1]->Stage_0 == mount.path
    &&& steps[a - 1]->Stage_2 == mount.read_only
    &&& within(steps[a - 1]->Stage_1, ".freebsd-flatpak-mount-sources"@)
    &&& steps[a]->Clone_0 == joined(nested_root, steps[a - 1]->Stage_1)
    &&& components(mount.path) == components(parent_root) + components(steps[a]->Clone_1)
    &&& steps[a]->Clone_2 == mount.read_only
}

/// Whether a mount of the parent is shown in the nested sandbox at its place, with its access.
pub open spec fn is_cloned(
    parent_root: Seq<char>,
    nested_root: Seq<char>,
    steps: Seq<NestedStepView>,
    mount: MountView,
) -> bool {
    exists|a: int| #[trigger] clones_at(parent_root, nested_root, steps, mount, a)
}

proof fn lemma_mount_is_cloned(
    parent_root: Seq<char>,
    nested_root: Seq<char>,
    mounts: Seq<MountView>,
    n: int,
    i: int,
)
    requires
        0 <= i < n <= mounts.len(),
        nested_steps(parent_root, nested_root, mounts, n) is Ok,
        !within(
            path_after(mounts[i].path, components(parent_root).len()),
            ".freebsd-flatpak-mount-sources"@,
        ),
    ensures
        is_cloned(
            parent_root,
            nested_root,
            nested_steps(parent_root, nested_root, mounts, n)->Ok_0,
            mounts[i],
        ),
    decreases n,
{
    let before = nested_steps(parent_root, nested_root, mounts, n - 1)->Ok_0;
    let all = nested_steps(parent_root, nested_root, mounts, n)->Ok_0;
    if i < n - 1 {
        lemma_mount_is_cloned(parent_root, nested_root, mounts, n - 1, i);
        let a = choose|a: int| #[trigger]
            clones_at(parent_root, nested_root, before, mounts[i], a);
        assert(all == before || all.len() == before.len() + 2);
        assert(all[a] == before[a] && all[a - 1] == before[a - 1]);
        assert(clones_at(parent_root, nested_root, all, mounts[i], a));
    } else {
        let mount = mounts[i];
        let depth = components(parent_root).len();
        let target = path_after(mount.path, depth);
        let place = joined(".freebsd-flatpak-mount-sources"@, decimal(i as nat));
        lemma_path_after(mount.path, depth);
        lemma_place_is_private(i as nat);
        lemma_first_step(parent_root, nested_root, mounts, n - 1);
        let a = all.len() - 1;
        assert(all[a - 1] == NestedStepView::Stage(mount.path, place, mount.read_only));
        assert(all[a] == NestedStepView::Clone(
            joined(nested_root, place),
            target,
            mount.read_only,
        ));
        assert(components(mount.path) =~= components(parent_root) + components(target)) by {
            assert(components(mount.path).take(depth as int) == components(parent_root));
        }
        assert(clones_at(parent_root, nested_root, all, mount, a));
    }
}

proof fn lemma_first_step(
    parent_root: Seq<char>,
    nested_root: Seq<char>,
    mounts: Seq<MountView>,
    n: int,
)
    requires
        0 <= n <= mounts.len(),
        nested_steps(parent_root, nested_root, mounts, n) is Ok,
    ensures
        ({
            let steps = nested_steps(parent_root, nested_root, mounts, n)->Ok_0;
            &&& steps.len() > 0
            &&& steps[0] == NestedStepView::Tmpfs(
                ".freebsd-flatpak-mount-sources"@,
                "mode=0700"@,
            )
        }),
    decreases n,
{
    if n > 0 {
        lemma_first_step(parent_root, nested_root, mounts, n - 1);
    }
}

proof fn lemma_place_is_private(i: nat)
    ensures
        within(
            joined(".freebsd-flatpak-mount-sources"@, decimal(i)),
            ".freebsd-flatpak-mount-sources"@,
        ),
{
    reveal_strlit(".freebsd-flatpak-mount-sources");
    crate::numbers::lemma_decimal(i);
    assert(crate::numbers::is_digit(decimal(i)[0]));
    crate::path::lemma_joined_within(".freebsd-flatpak-mount-sources"@, decimal(i));
}

/// A nested sandbox shows every mount of its parent at the place where the parent has it, with the
/// parent's access; only what lies at the parent's own private places is left out. The private
/// places are made first, where only their owner can reach them.
pub proof fn lemma_every_mount_of_the_parent_is_shown(
    parent_root: Seq<char>,
    nested_root: Seq<char>,
    mounts: Seq<MountView>,
    steps: Seq<NestedStepView>,
    i: int,
)
    requires
        populated(parent_root, nested_root, mounts) == Ok::<Seq<NestedStepView>, NestedPlanError>(
            steps,
        ),
        0 <= i < mounts.len(),
    ensures
        steps.len() > 0,
        steps[0] == NestedStepView::Tmpfs(".freebsd-flatpak-mount-sources"@, "mode=0700"@),
        within(mounts[i].path, parent_root),
        !same_path(mounts[i].path, parent_root),
        is_cloned(parent_root, nested_root, steps, mounts[i]) || within(
            path_after(mounts[i].path, components(parent_root).len()),
            ".freebsd-flatpak-mount-sources"@,
        ),
{
    let order = sorted(mounts, |a: MountView, b: MountView| shallow_le(a, b));
    let n = mounts.len() as int;
    lemma_shallow_first(mounts);
    lemma_first_step(parent_root, nested_root, order, n);
    assert(mounts.contains(mounts[i]));
    assert(order.contains(mounts[i]));
    let k = choose|k: int| 0 <= k < order.len() && order[k] == mounts[i];
    lemma_mount_inside(parent_root, nested_root, order, n, k);
    if !within(
        path_after(mounts[i].path, components(parent_root).len()),
        ".freebsd-flatpak-mount-sources"@,
    ) {
        lemma_mount_is_cloned(parent_root, nested_root, order, n, k);
    }
}

proof fn lemma_mount_inside(
    parent_root: Seq<char>,
    nested_root: Seq<char>,
    mounts: Seq<MountView>,
    n: int,
    k: int,
)
    requires
        0 <= k < n <= mounts.len(),
        nested_steps(parent_root, nested_root, mounts, n) is Ok,
    ensures
        within(mounts[k].path, parent_root),
        !same_path(mounts[k].path, parent_root),
    decreases n,
{
    if k < n - 1 {
        lemma_mount_inside(parent_root, nested_root, mounts, n - 1, k);
    } else if same_path(mounts[k].path, parent_root) {
        let depth = components(parent_root).len();
        lemma_path_after(mounts[k].path, depth);
        let target = path_after(mounts[k].path, depth);
        assert(components(target).len() == 0);
        if target.len() > 0 {
            crate::text::lemma_first_index(target, '/');
            assert(lead(target) + body(target) == components(target));
            assert(lead(target).len() == 0 && body(target).len() == 0);
            assert(first_segment(target).len() > 0);
            assert(false);
        }
    }
}

} // verus!
