//! What is known of a mount once it was made, how long what is left of a sandbox is given to end, and
//! where the data of other applications is covered.

use crate::app_data_mount_plan::{outside, persists_root, shows_root, AppDataMountPlan};
use crate::filesystem_grants::{mapped, GrantView};
use crate::mount_operations::{MappingView, MountView};
use crate::mount_planner::{recorded, ActionView, TableView};
use crate::path::{components, joined, same_path, within};
use crate::path_laws::{lemma_paths_name_by_name, lemma_where_paths_begin, lemma_within_by_names};
use crate::process_signals::Signal;
use crate::process_supervision::{sweep_next, Sweep, SweepAction};
use crate::text::{lemma_selected, views};
use vstd::prelude::*;

verus! {

/// Every mount is known where it was made, and as one that can be written unless it shows something
/// that cannot; what it shows is known too. Making a directory mounts nothing, and nothing that was
/// known before is forgotten.
pub proof fn lemma_mounts_are_known(table: TableView, action: ActionView)
    ensures
        action is CreateDirectory ==> recorded(table, action) == table,
        action matches ActionView::Nullfs { source, shown, target, read_only, pinned } ==> recorded(
            table,
            action,
        ).owned == table.owned.push(
            MountView { path: joined(table.root, target), read_only },
        ) && recorded(table, action).mappings == table.mappings.push(
            MappingView { source: shown, target: joined(table.root, target) },
        ),
        action matches ActionView::Tmpfs { target, options, staging } ==> recorded(
            table,
            action,
        ).owned == table.owned.push(
            MountView { path: joined(table.root, target), read_only: false },
        ) && recorded(table, action).mappings == table.mappings && (recorded(
            table,
            action,
        ).staging_ready <==> table.staging_ready || staging),
        action matches ActionView::Special { target, fs_type, device } ==> recorded(
            table,
            action,
        ).owned == table.owned.push(
            MountView { path: joined(table.root, target), read_only: false },
        ) && recorded(table, action).mappings == table.mappings,
        recorded(table, action).root == table.root,
        recorded(table, action).excluded == table.excluded,
{
}

/// Where the ending of processes stands after so many looks at which some were left.
pub open spec fn swept(sweep: Sweep, looks: nat) -> Sweep
    decreases looks,
{
    if looks == 0 {
        sweep
    } else {
        sweep_next(swept(sweep, (looks - 1) as nat), true).0
    }
}

/// Processes are asked to end at each look as long as rounds are left, then killed in twenty rounds
/// more; only after those there is a last look. Once none is left, nothing more is sent.
pub proof fn lemma_twenty_rounds_of_each(signal: Signal, left: u8, k: nat)
    requires
        1 <= left,
        k <= left,
        signal == Signal::Terminate || signal == Signal::Kill,
    ensures
        k < left ==> swept(Sweep::Sending { signal, left }, k) == (Sweep::Sending {
            signal,
            left: (left - k) as u8,
        }),
        k < left ==> sweep_next(swept(Sweep::Sending { signal, left }, k), true).1
            == SweepAction::SignalAll(signal),
        k == left && signal == Signal::Terminate ==> swept(Sweep::Sending { signal, left }, k) == (
        Sweep::Sending { signal: Signal::Kill, left: 20 }),
        k == left && signal == Signal::Kill ==> swept(Sweep::Sending { signal, left }, k)
            == Sweep::LastLook,
        sweep_next(Sweep::LastLook, true).1 == SweepAction::Survived,
        sweep_next(Sweep::Sending { signal, left }, false).1 == SweepAction::Gone,
        sweep_next(Sweep::LastLook, false).1 == SweepAction::Gone,
    decreases k,
{
    if k > 0 {
        lemma_twenty_rounds_of_each(signal, left, (k - 1) as nat);
    }
}

proof fn lemma_var_app()
    ensures
        components(".var/app"@) == seq![".var"@, "app"@],
        components(".var"@) == seq![".var"@],
        components("."@) == seq!["."@],
{
    reveal_strlit(".var/app");
    reveal_strlit(".var");
    reveal_strlit("app");
    reveal_strlit(".");
    let (a, b) = (".var"@, "app"@);
    assert(!a.contains('/')) by {
        assert forall|i: int| 0 <= i < a.len() implies a[i] != '/' by {}
    }
    assert(!b.contains('/')) by {
        assert forall|i: int| 0 <= i < b.len() implies b[i] != '/' by {}
    }
    assert(a.len() == 4 && b.len() == 3);
    assert(a + seq!['/'] + b =~= ".var/app"@);
    lemma_where_paths_begin(a, b);
    lemma_paths_name_by_name(b, Seq::empty());
    assert(components(".var/app"@) =~= seq![a, b]);
    crate::path::lemma_name(a);
    assert("."@ =~= seq!['.']);
}

/// What an application keeps in its home holds the data of all applications if and only if it is the
/// home itself, `.var` or `.var/app`.
pub proof fn lemma_what_holds_all_data(path: Seq<char>)
    ensures
        persists_root(path) <==> same_path(path, "."@) || components(path).len() == 0 || same_path(
            path,
            ".var"@,
        ) || same_path(path, ".var/app"@),
{
    lemma_var_app();
    lemma_within_by_names(".var/app"@, path);
    let p = components(path);
    let whole = components(".var/app"@);
    if within(".var/app"@, path) {
        if p.len() == 1 {
            assert(whole[0] == p[0]);
            assert(p =~= seq![".var"@]);
        } else if p.len() == 2 {
            assert(whole[0] == p[0] && whole[1] == p[1]);
            assert(p =~= whole);
        }
    }
    if same_path(path, ".var"@) {
        assert(whole[0] == p[0]);
    }
}

/// The grants that lie where all applications have their data are mounted apart from the others, each
/// once on its side; and the data is covered if and only if a grant from outside shows it where the
/// host has it, or the application keeps what holds it.
pub proof fn lemma_data_of_others_is_covered(
    plan: &AppDataMountPlan,
    grants: Seq<GrantView>,
    persistent: Seq<Seq<char>>,
    root: Seq<char>,
    grant: GrantView,
)
    requires
        plan.fits(grants, persistent, root),
    ensures
        views(plan.grants_before_app_data@).contains(grant) <==> grants.contains(grant) && !within(
            grant.sandbox_path,
            root,
        ),
        views(plan.grants_inside_app_data_root@).contains(grant) <==> grants.contains(grant)
            && within(grant.sandbox_path, root),
        plan.mask_app_data_root <==> (exists|i: int|
            0 <= i < grants.len() && shows_data(#[trigger] grants[i], root)) || (exists|i: int|
            0 <= i < persistent.len() && persists_root(#[trigger] persistent[i])),
{
    lemma_selected(grants, |g: GrantView| !within(g.sandbox_path, root));
    lemma_selected(grants, |g: GrantView| within(g.sandbox_path, root));
    let out = outside(grants, root);
    if exists|i: int| 0 <= i < out.len() && shows_root(#[trigger] out[i], root) {
        let i = choose|i: int| 0 <= i < out.len() && shows_root(#[trigger] out[i], root);
        assert(out.contains(out[i]));
        let k = choose|k: int| 0 <= k < grants.len() && grants[k] == out[i];
        assert(shows_data(grants[k], root));
    }
    if exists|i: int| 0 <= i < grants.len() && shows_data(#[trigger] grants[i], root) {
        let i = choose|i: int| 0 <= i < grants.len() && shows_data(#[trigger] grants[i], root);
        assert(grants.contains(grants[i]));
        assert(out.contains(grants[i]));
        let k = choose|k: int| 0 <= k < out.len() && out[k] == grants[i];
        assert(shows_root(out[k], root));
    }
}

/// Whether a grant that does not lie in the directory shows it where the host has it.
pub open spec fn shows_data(grant: GrantView, root: Seq<char>) -> bool {
    !within(grant.sandbox_path, root) && (mapped(grant, root) matches Some(place) && same_path(
        place,
        root,
    ))
}

} // verus!
