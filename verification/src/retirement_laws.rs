//! Which deployments are kept because something uses them, and which are removed.

use crate::flatpak_metadata::last_value;
use crate::installation::Installation;
use crate::order::lemma_concat_contains;
use crate::path::{joined, same_path, within};
use crate::retired_deployments::{
    app_directories, family_retired, is_managed, named_directory, payload, rebound_apps, removals,
    retired, retired_generations, run_directories, runtime_directories, used_directories,
    EntryView, FamilyView,
};
use crate::state::{AppView, RuntimeView};
use vstd::prelude::*;

verus! {

/// Whether an application uses the directory: it or its runtime is deployed there.
pub open spec fn app_uses(paths: Installation, app: AppView, directory: Seq<char>) -> bool {
    directory == joined(paths.data_root@, app.app_dir) || directory == joined(
        paths.data_root@,
        app.runtime_dir,
    )
}

/// Whether a running instance uses the directory: its record names it for the application or for
/// the runtime.
pub open spec fn run_uses(
    paths: Installation,
    run: Seq<(Seq<char>, Seq<char>)>,
    directory: Seq<char>,
) -> bool {
    ||| last_value(run, "app_dir"@) is Some && directory == joined(
        paths.data_root@,
        last_value(run, "app_dir"@)->0,
    )
    ||| last_value(run, "runtime_dir"@) is Some && directory == joined(
        paths.data_root@,
        last_value(run, "runtime_dir"@)->0,
    )
}

proof fn lemma_apps(paths: Installation, apps: Seq<AppView>, x: Seq<char>)
    ensures
        app_directories(paths, apps).contains(x) <==> exists|i: int|
            0 <= i < apps.len() && app_uses(paths, #[trigger] apps[i], x),
    decreases apps.len(),
{
    let all = app_directories(paths, apps);
    if apps.len() > 0 {
        let head = apps.drop_last();
        let last = apps[apps.len() - 1];
        let before = app_directories(paths, head);
        lemma_apps(paths, head, x);
        let n = before.len() as int;
        assert(all[n] == joined(paths.data_root@, last.app_dir));
        assert(all[n + 1] == joined(paths.data_root@, last.runtime_dir));
        if before.contains(x) {
            let k = choose|k: int| 0 <= k < before.len() && before[k] == x;
            assert(all[k] == x);
            let i = choose|i: int| 0 <= i < head.len() && app_uses(paths, #[trigger] head[i], x);
            assert(apps[i] == head[i]);
        }
        if all.contains(x) && !before.contains(x) {
            let k = choose|k: int| 0 <= k < all.len() && all[k] == x;
            if k < before.len() {
                assert(before[k] == x);
            }
            assert(k == n || k == n + 1);
            assert(app_uses(paths, apps[apps.len() - 1], x));
        }
        if exists|i: int| 0 <= i < apps.len() && app_uses(paths, #[trigger] apps[i], x) {
            let i = choose|i: int| 0 <= i < apps.len() && app_uses(paths, #[trigger] apps[i], x);
            if i < head.len() {
                assert(head[i] == apps[i]);
            }
        }
    }
}

proof fn lemma_runs(paths: Installation, runs: Seq<Seq<(Seq<char>, Seq<char>)>>, x: Seq<char>)
    ensures
        run_directories(paths, runs).contains(x) <==> exists|i: int|
            0 <= i < runs.len() && run_uses(paths, #[trigger] runs[i], x),
    decreases runs.len(),
{
    if runs.len() > 0 {
        let head = runs.drop_last();
        let last = runs[runs.len() - 1];
        let before = run_directories(paths, head);
        lemma_runs(paths, head, x);
        let (a, b) = (
            named_directory(paths, last, "app_dir"@),
            named_directory(paths, last, "runtime_dir"@),
        );
        lemma_concat_contains(before, a);
        lemma_concat_contains(before + a, b);
        if a.len() > 0 {
            assert(a[0] == joined(paths.data_root@, last_value(last, "app_dir"@)->0));
        }
        if b.len() > 0 {
            assert(b[0] == joined(paths.data_root@, last_value(last, "runtime_dir"@)->0));
        }
        assert(a.contains(x) || b.contains(x) <==> run_uses(paths, last, x)) by {
            if run_uses(paths, last, x) {
                assert(a.len() > 0 && a[0] == x || b.len() > 0 && b[0] == x);
            }
        }
        if before.contains(x) {
            let i = choose|i: int| 0 <= i < head.len() && run_uses(paths, #[trigger] head[i], x);
            assert(runs[i] == head[i]);
        }
        if run_uses(paths, last, x) {
            assert(run_uses(paths, runs[runs.len() - 1], x));
        }
        if exists|i: int| 0 <= i < runs.len() && run_uses(paths, #[trigger] runs[i], x) {
            let i = choose|i: int| 0 <= i < runs.len() && run_uses(paths, #[trigger] runs[i], x);
            if i < head.len() {
                assert(head[i] == runs[i]);
            }
        }
    }
}

/// A directory is in use if and only if an installed application or its runtime is deployed there,
/// an installed runtime is, or a running instance was started from it.
pub proof fn lemma_directories_in_use(
    paths: Installation,
    apps: Seq<AppView>,
    runtimes: Seq<RuntimeView>,
    runs: Seq<Seq<(Seq<char>, Seq<char>)>>,
    directory: Seq<char>,
)
    ensures
        used_directories(paths, apps, runtimes, runs).contains(directory) <==> (exists|i: int|
            0 <= i < apps.len() && app_uses(paths, #[trigger] apps[i], directory)) || (exists|
            i: int,
        |
            0 <= i < runtimes.len() && directory == joined(
                paths.data_root@,
                (#[trigger] runtimes[i]).runtime_dir,
            )) || (exists|i: int|
            0 <= i < runs.len() && run_uses(paths, #[trigger] runs[i], directory)),
{
    let (a, b, c) = (
        app_directories(paths, apps),
        runtime_directories(paths, runtimes),
        run_directories(paths, runs),
    );
    lemma_apps(paths, apps, directory);
    lemma_runs(paths, runs, directory);
    lemma_concat_contains(a, b);
    lemma_concat_contains(a + b, c);
    if b.contains(directory) {
        let k = choose|k: int| 0 <= k < b.len() && b[k] == directory;
        assert(directory == joined(paths.data_root@, runtimes[k].runtime_dir));
    }
    if exists|i: int|
        0 <= i < runtimes.len() && directory == joined(
            paths.data_root@,
            (#[trigger] runtimes[i]).runtime_dir,
        ) {
        let i = choose|i: int|
            0 <= i < runtimes.len() && directory == joined(
                paths.data_root@,
                (#[trigger] runtimes[i]).runtime_dir,
            );
        assert(b[i] == directory);
    }
}

/// Whether an entry is a deployment that nothing uses.
pub open spec fn is_unused(entry: EntryView, used: Seq<Seq<char>>, path: Seq<char>) -> bool {
    entry.is_directory && entry.has_marker && entry.path == path && !(exists|u: int|
        0 <= u < used.len() && same_path(#[trigger] used[u], path))
}

/// Whether an entry belongs to the deployment that its family is itself.
pub open spec fn is_part(entry: EntryView, path: Seq<char>) -> bool {
    !(entry.is_directory && entry.has_marker) && entry.path == path
}

proof fn lemma_generations(entries: Seq<EntryView>, used: Seq<Seq<char>>, x: Seq<char>)
    ensures
        retired_generations(entries, used).contains(x) <==> exists|i: int|
            0 <= i < entries.len() && is_unused(#[trigger] entries[i], used, x),
    decreases entries.len(),
{
    let all = retired_generations(entries, used);
    if entries.len() > 0 {
        let head = entries.drop_last();
        let before = retired_generations(head, used);
        lemma_generations(head, used, x);
        if before.contains(x) {
            let i = choose|i: int| 0 <= i < head.len() && is_unused(#[trigger] head[i], used, x);
            assert(entries[i] == head[i]);
            let k = choose|k: int| 0 <= k < before.len() && before[k] == x;
            assert(all[k] == x);
        }
        if is_unused(entries[entries.len() - 1], used, x) {
            assert(all[before.len() as int] == x);
        }
        if all.contains(x) && !before.contains(x) {
            let k = choose|k: int| 0 <= k < all.len() && all[k] == x;
            if k < before.len() {
                assert(before[k] == x);
            }
            assert(is_unused(entries[entries.len() - 1], used, x));
        }
        if exists|i: int| 0 <= i < entries.len() && is_unused(#[trigger] entries[i], used, x) {
            let i = choose|i: int|
                0 <= i < entries.len() && is_unused(#[trigger] entries[i], used, x);
            if i < head.len() {
                assert(head[i] == entries[i]);
            }
        }
    }
}

proof fn lemma_payload(entries: Seq<EntryView>, x: Seq<char>)
    ensures
        payload(entries).contains(x) <==> exists|i: int|
            0 <= i < entries.len() && is_part(#[trigger] entries[i], x),
    decreases entries.len(),
{
    let all = payload(entries);
    if entries.len() > 0 {
        let head = entries.drop_last();
        let before = payload(head);
        lemma_payload(head, x);
        if before.contains(x) {
            let i = choose|i: int| 0 <= i < head.len() && is_part(#[trigger] head[i], x);
            assert(entries[i] == head[i]);
            let k = choose|k: int| 0 <= k < before.len() && before[k] == x;
            assert(all[k] == x);
        }
        if is_part(entries[entries.len() - 1], x) {
            assert(all[before.len() as int] == x);
        }
        if all.contains(x) && !before.contains(x) {
            let k = choose|k: int| 0 <= k < all.len() && all[k] == x;
            if k < before.len() {
                assert(before[k] == x);
            }
            assert(is_part(entries[entries.len() - 1], x));
        }
        if exists|i: int| 0 <= i < entries.len() && is_part(#[trigger] entries[i], x) {
            let i = choose|i: int|
                0 <= i < entries.len() && is_part(#[trigger] entries[i], x);
            if i < head.len() {
                assert(head[i] == entries[i]);
            }
        }
    }
}

/// Whether a family holds a deployment at the path that nothing uses.
pub open spec fn holds_unused(family: FamilyView, used: Seq<Seq<char>>, path: Seq<char>) -> bool {
    exists|i: int|
        0 <= i < family.entries.len() && is_unused(#[trigger] family.entries[i], used, path)
}

/// Whether a family is itself a deployment that nothing uses.
pub open spec fn is_itself_unused(family: FamilyView, used: Seq<Seq<char>>) -> bool {
    family.has_marker && !(exists|u: int|
        0 <= u < used.len() && same_path(#[trigger] used[u], family.path))
}

/// Whether the deployment that a family is itself holds something at the path.
pub open spec fn has_part(family: FamilyView, path: Seq<char>) -> bool {
    exists|i: int| 0 <= i < family.entries.len() && is_part(#[trigger] family.entries[i], path)
}

/// Whether taking the family down removes the path.
pub open spec fn loses(family: FamilyView, used: Seq<Seq<char>>, path: Seq<char>) -> bool {
    holds_unused(family, used, path) || (is_itself_unused(family, used) && has_part(family, path))
}

/// Whether a deployment at the path is gone with the family.
pub open spec fn ends(family: FamilyView, used: Seq<Seq<char>>, path: Seq<char>) -> bool {
    holds_unused(family, used, path) || (is_itself_unused(family, used) && family.path == path)
}

/// Everything that is removed belongs to a deployment that nothing uses, and every such deployment is
/// removed: one that stands for itself as a whole, and of one that a family is itself whatever is no
/// other deployment.
pub proof fn lemma_removed_exactly(
    families: Seq<FamilyView>,
    used: Seq<Seq<char>>,
    path: Seq<char>,
)
    ensures
        removals(families, used).contains(path) <==> exists|i: int|
            0 <= i < families.len() && loses(#[trigger] families[i], used, path),
        retired(families, used).contains(path) <==> exists|i: int|
            0 <= i < families.len() && ends(#[trigger] families[i], used, path),
    decreases families.len(),
{
    if families.len() > 0 {
        let head = families.drop_last();
        let last = families[families.len() - 1];
        lemma_removed_exactly(head, used, path);
        let own = retired_generations(last.entries, used);
        let parts = if family_retired(last, used) {
            payload(last.entries)
        } else {
            Seq::empty()
        };
        let whole = if family_retired(last, used) {
            seq![last.path]
        } else {
            Seq::empty()
        };
        lemma_generations(last.entries, used, path);
        lemma_payload(last.entries, path);
        lemma_concat_contains(removals(head, used), own);
        lemma_concat_contains(removals(head, used) + own, parts);
        lemma_concat_contains(retired(head, used), own);
        lemma_concat_contains(retired(head, used) + own, whole);
        if whole.len() > 0 {
            assert(whole[0] == last.path);
        }
        assert(family_retired(last, used) <==> is_itself_unused(last, used));
        assert(whole.contains(path) <==> is_itself_unused(last, used) && last.path == path);
        assert(own.contains(path) <==> holds_unused(last, used, path));
        assert(parts.contains(path) <==> is_itself_unused(last, used) && has_part(last, path));
        if exists|i: int| 0 <= i < head.len() && loses(#[trigger] head[i], used, path) {
            let i = choose|i: int| 0 <= i < head.len() && loses(#[trigger] head[i], used, path);
            assert(families[i] == head[i]);
        }
        if exists|i: int| 0 <= i < head.len() && ends(#[trigger] head[i], used, path) {
            let i = choose|i: int| 0 <= i < head.len() && ends(#[trigger] head[i], used, path);
            assert(families[i] == head[i]);
        }
        if loses(last, used, path) {
            assert(loses(families[families.len() - 1], used, path));
        }
        if ends(last, used, path) {
            assert(ends(families[families.len() - 1], used, path));
        }
        if exists|i: int| 0 <= i < families.len() && loses(#[trigger] families[i], used, path) {
            let i = choose|i: int|
                0 <= i < families.len() && loses(#[trigger] families[i], used, path);
            if i < head.len() {
                assert(head[i] == families[i]);
            }
        }
        if exists|i: int| 0 <= i < families.len() && ends(#[trigger] families[i], used, path) {
            let i = choose|i: int|
                0 <= i < families.len() && ends(#[trigger] families[i], used, path);
            if i < head.len() {
                assert(head[i] == families[i]);
            }
        }
    }
}

/// Nothing is removed that does not lie below one of the directories `apps`, `runtimes` and
/// `extensions` of the installation's data, or, where that is allowed, among its sandboxes.
pub proof fn lemma_only_the_installation_is_touched(
    paths: Installation,
    path: Seq<char>,
    sandboxes: bool,
)
    ensures
        is_managed(paths, path, sandboxes) <==> {
            ||| within(path, joined(paths.data_root@, "apps"@)) && !same_path(
                path,
                joined(paths.data_root@, "apps"@),
            )
            ||| within(path, joined(paths.data_root@, "runtimes"@)) && !same_path(
                path,
                joined(paths.data_root@, "runtimes"@),
            )
            ||| within(path, joined(paths.data_root@, "extensions"@)) && !same_path(
                path,
                joined(paths.data_root@, "extensions"@),
            )
            ||| sandboxes && within(path, joined(paths.runtime_root@, "chroots"@)) && !same_path(
                path,
                joined(paths.runtime_root@, "chroots"@),
            )
        },
{
}

/// Whether an application points elsewhere than at the current deployment of its runtime.
pub open spec fn points_elsewhere(app: AppView, runtime: RuntimeView) -> bool {
    app.runtime_commit != runtime.runtime_commit || !same_path(app.runtime_dir, runtime.runtime_dir)
}

/// Exactly those applications are written down anew whose runtime has a current deployment at which
/// they do not point; and then they do, and nothing else of them has changed.
pub proof fn lemma_rebound_exactly(
    apps: Seq<AppView>,
    current: Seq<Option<RuntimeView>>,
    n: int,
    app: AppView,
)
    requires
        0 <= n <= apps.len(),
        apps.len() == current.len(),
    ensures
        rebound_apps(apps, current, n).contains(app) <==> exists|i: int|
            0 <= i < n && is_rebound(#[trigger] apps[i], current[i], app),
    decreases n,
{
    if n > 0 {
        let before = rebound_apps(apps, current, n - 1);
        let all = rebound_apps(apps, current, n);
        lemma_rebound_exactly(apps, current, n - 1, app);
        if before.contains(app) {
            let k = choose|k: int| 0 <= k < before.len() && before[k] == app;
            assert(all[k] == app);
        }
        if is_rebound(apps[n - 1], current[n - 1], app) {
            assert(all[before.len() as int] == app);
        }
        if all.contains(app) && !before.contains(app) {
            let k = choose|k: int| 0 <= k < all.len() && all[k] == app;
            if k < before.len() {
                assert(before[k] == app);
            }
            assert(is_rebound(apps[n - 1], current[n - 1], app));
        }
    }
}

/// Whether an application is written down anew like this.
pub open spec fn is_rebound(app: AppView, current: Option<RuntimeView>, after: AppView) -> bool {
    current is Some && points_elsewhere(app, current->0) && after == (AppView {
        runtime_commit: current->0.runtime_commit,
        runtime_dir: current->0.runtime_dir,
        ..app
    })
}

} // verus!
