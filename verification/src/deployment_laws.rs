//! What is known of deployments: what their marks say, which one a launch uses, and in which order
//! they are listed.

use crate::deployments::{
    app_le, apps_in, deployed_runtime, deployment_le, distinct_deployments, marker_of, pinned_app,
    runtime_le, runtimes_in,
};
use crate::installation::Installation;
use crate::order::{
    is_total, lemma_path_order_total, lemma_sorted, lemma_sorted_contains, lemma_text_order_total,
    path_order, sorted, text_order, Relation,
};
use crate::override_laws::{lemma_lines_of_ended, no_break};
use crate::path::{components, joined, lemma_strip_join, same_path, within};
use crate::state::{app_in, runtime_in, AppView, RuntimeView, StateErrorView};
use crate::static_overrides::ended_lines;
use crate::text::{chomp, starts_with};
use vstd::prelude::*;

verus! {

/// Whether a text can stand on a line of its own.
pub open spec fn fits_on_a_line(text: Seq<char>) -> bool {
    no_break(text) && chomp(text) == text
}

/// The mark of a deployment is made of two lines: what is deployed, and at which commit.
pub open spec fn mark(ref_name: Seq<char>, commit: Seq<char>) -> Seq<char> {
    ended_lines(seq![ref_name, commit])
}

proof fn lemma_marks_are_read(ref_name: Seq<char>, commit: Seq<char>)
    requires
        fits_on_a_line(ref_name),
        fits_on_a_line(commit),
    ensures
        marker_of(mark(ref_name, commit)) == Ok::<(Seq<char>, Seq<char>), StateErrorView>(
            (ref_name, commit),
        ),
{
    let ls = seq![ref_name, commit];
    assert forall|i: int| 0 <= i < ls.len() implies no_break(#[trigger] ls[i]) && chomp(ls[i])
        == ls[i] by {
        assert(i == 0 || i == 1);
    }
    lemma_lines_of_ended(ls);
}

/// A launch uses what is deployed in the directories that it was given: the references and the
/// commits are those of their marks, whatever is installed meanwhile. Nothing else of the
/// application changes.
pub proof fn lemma_launches_use_what_is_deployed(
    paths: Installation,
    app: AppView,
    app_dir: Seq<char>,
    runtime_dir: Seq<char>,
    app_ref: Seq<char>,
    app_commit: Seq<char>,
    runtime_ref: Seq<char>,
    runtime_commit: Seq<char>,
)
    requires
        fits_on_a_line(app_ref),
        fits_on_a_line(app_commit),
        fits_on_a_line("runtime/"@ + runtime_ref),
        fits_on_a_line(runtime_commit),
        components(paths.data_root@).len() > 0,
        within(app_dir, paths.data_root@),
        within(runtime_dir, paths.data_root@),
    ensures
        ({
            let pinned = pinned_app(
                paths,
                app,
                app_dir,
                runtime_dir,
                Some(mark(app_ref, app_commit)),
                Some(mark("runtime/"@ + runtime_ref, runtime_commit)),
            );
            &&& pinned is Ok
            &&& pinned->Ok_0.app_ref == app_ref
            &&& pinned->Ok_0.app_commit == app_commit
            &&& pinned->Ok_0.runtime_ref == runtime_ref
            &&& pinned->Ok_0.runtime_commit == runtime_commit
            &&& same_path(joined(paths.data_root@, pinned->Ok_0.app_dir), app_dir)
            &&& same_path(joined(paths.data_root@, pinned->Ok_0.runtime_dir), runtime_dir)
            &&& pinned->Ok_0 == (AppView {
                app_ref,
                app_commit,
                runtime_ref,
                runtime_commit,
                app_dir: pinned->Ok_0.app_dir,
                runtime_dir: pinned->Ok_0.runtime_dir,
                ..app
            })
        }),
{
    reveal_strlit("runtime/");
    lemma_marks_are_read(app_ref, app_commit);
    lemma_marks_are_read("runtime/"@ + runtime_ref, runtime_commit);
    let full = "runtime/"@ + runtime_ref;
    assert(full.take(8) =~= "runtime/"@);
    assert(full.skip(8) =~= runtime_ref);
    lemma_strip_join(paths.data_root@, app_dir);
    lemma_strip_join(paths.data_root@, runtime_dir);
}

/// A directory holds a runtime if and only if its mark says so, and it is known by the reference and
/// the commit of its mark. An application that is deployed there is none.
pub proof fn lemma_marked_runtimes(
    paths: Installation,
    path: Seq<char>,
    ref_name: Seq<char>,
    commit: Seq<char>,
)
    requires
        fits_on_a_line("runtime/"@ + ref_name),
        fits_on_a_line("app/"@ + ref_name),
        fits_on_a_line(commit),
        components(paths.data_root@).len() > 0,
        within(path, paths.data_root@),
    ensures
        deployed_runtime(paths, path, None) == Ok::<Option<RuntimeView>, StateErrorView>(None),
        deployed_runtime(paths, path, Some(mark("app/"@ + ref_name, commit))) == Ok::<
            Option<RuntimeView>,
            StateErrorView,
        >(None),
        ({
            let found = deployed_runtime(paths, path, Some(mark("runtime/"@ + ref_name, commit)));
            &&& found is Ok
            &&& found->Ok_0 is Some
            &&& found->Ok_0->0.runtime_ref == ref_name
            &&& found->Ok_0->0.runtime_commit == commit
            &&& same_path(joined(paths.data_root@, found->Ok_0->0.runtime_dir), path)
        }),
{
    reveal_strlit("runtime/");
    reveal_strlit("app/");
    lemma_marks_are_read("runtime/"@ + ref_name, commit);
    lemma_marks_are_read("app/"@ + ref_name, commit);
    let full = "runtime/"@ + ref_name;
    assert(full.take(8) =~= "runtime/"@);
    assert(full.skip(8) =~= ref_name);
    let other = "app/"@ + ref_name;
    if starts_with(other, "runtime/"@) {
        assert(other.take(8)[0] == 'a');
        assert("runtime/"@[0] == 'r');
    }
    lemma_strip_join(paths.data_root@, path);
}

proof fn lemma_distinct_members(runtimes: Seq<RuntimeView>, x: RuntimeView)
    requires
        distinct_deployments(runtimes).contains(x),
    ensures
        runtimes.contains(x),
    decreases runtimes.len(),
{
    let all = distinct_deployments(runtimes);
    let i = choose|i: int| 0 <= i < all.len() && all[i] == x;
    if runtimes.len() > 0 {
        let head = runtimes.drop_last();
        let before = distinct_deployments(head);
        if i < before.len() {
            assert(before[i] == x);
            lemma_distinct_members(head, x);
            let k = choose|k: int| 0 <= k < head.len() && head[k] == x;
            assert(runtimes[k] == x);
        } else {
            assert(runtimes[runtimes.len() - 1] == x);
        }
    }
}

proof fn lemma_distinct_covers(runtimes: Seq<RuntimeView>, k: int)
    requires
        0 <= k < runtimes.len(),
    ensures
        is_listed(distinct_deployments(runtimes), runtimes[k].runtime_dir),
    decreases runtimes.len(),
{
    let head = runtimes.drop_last();
    let before = distinct_deployments(head);
    let all = distinct_deployments(runtimes);
    if k < head.len() {
        lemma_distinct_covers(head, k);
        let i = choose|i: int|
            0 <= i < before.len() && same_path(
                (#[trigger] before[i]).runtime_dir,
                head[k].runtime_dir,
            );
        assert(all[i] == before[i]);
    } else {
        let n = all.len() - 1;
        assert(same_path(all[n].runtime_dir, runtimes[k].runtime_dir));
    }
}

proof fn lemma_distinct_neighbours(runtimes: Seq<RuntimeView>, i: int)
    requires
        0 <= i,
        i + 1 < distinct_deployments(runtimes).len(),
    ensures
        !same_path(
            distinct_deployments(runtimes)[i].runtime_dir,
            distinct_deployments(runtimes)[i + 1].runtime_dir,
        ),
    decreases runtimes.len(),
{
    let head = runtimes.drop_last();
    let before = distinct_deployments(head);
    let all = distinct_deployments(runtimes);
    if i + 1 < before.len() {
        lemma_distinct_neighbours(head, i);
        assert(all[i] == before[i]);
        assert(all[i + 1] == before[i + 1]);
    } else {
        assert(all[i] == before.last());
    }
}

/// Whether no two runtimes that follow each other are in the same directory.
pub open spec fn neighbours_differ(runtimes: Seq<RuntimeView>) -> bool {
    forall|i: int, j: int|
        0 <= i && i + 1 == j && j < runtimes.len() ==> !same_path(
            (#[trigger] runtimes[i]).runtime_dir,
            (#[trigger] runtimes[j]).runtime_dir,
        )
}

/// Whether a directory is among those of the runtimes.
pub open spec fn is_listed(runtimes: Seq<RuntimeView>, directory: Seq<char>) -> bool {
    exists|i: int|
        0 <= i < runtimes.len() && same_path((#[trigger] runtimes[i]).runtime_dir, directory)
}

/// Every runtime that was found is listed by its directory, and nothing that was not found is; and
/// no two that follow each other are in the same directory.
pub proof fn lemma_found_runtimes_are_listed(found: Seq<RuntimeView>)
    ensures
        ({
            let listed = distinct_deployments(
                sorted(found, |a: RuntimeView, b: RuntimeView| deployment_le(a, b)),
            );
            &&& forall|i: int| 0 <= i < listed.len() ==> found.contains(#[trigger] listed[i])
            &&& forall|k: int|
                0 <= k < found.len() ==> is_listed(listed, (#[trigger] found[k]).runtime_dir)
            &&& neighbours_differ(listed)
        }),
{
    let le = |a: RuntimeView, b: RuntimeView| deployment_le(a, b);
    let all = sorted(found, le);
    let listed = distinct_deployments(all);
    lemma_sorted_contains(found, le);
    assert forall|i: int| 0 <= i < listed.len() implies found.contains(#[trigger] listed[i]) by {
        assert(listed.contains(listed[i]));
        lemma_distinct_members(all, listed[i]);
    }
    assert forall|i: int, j: int| 0 <= i && i + 1 == j && j < listed.len() implies !same_path(
        (#[trigger] listed[i]).runtime_dir,
        (#[trigger] listed[j]).runtime_dir,
    ) by {
        lemma_distinct_neighbours(all, i);
    }
    assert forall|k: int| 0 <= k < found.len() implies is_listed(
        listed,
        (#[trigger] found[k]).runtime_dir,
    ) by {
        assert(found.contains(found[k]));
        assert(all.contains(found[k]));
        let i = choose|i: int| 0 <= i < all.len() && all[i] == found[k];
        lemma_distinct_covers(all, i);
    }
}

/// Applications are listed by their ids and runtimes by their references, as in a dictionary; and
/// among the deployments of one reference the directories are in order too.
pub proof fn lemma_lists_are_in_order(
    apps: Seq<AppView>,
    runtimes: Seq<RuntimeView>,
    i: int,
    j: int,
)
    ensures
        0 <= i <= j < apps.len() ==> text_order(
            sorted(apps, |a: AppView, b: AppView| app_le(a, b))[i].app_id,
            sorted(apps, |a: AppView, b: AppView| app_le(a, b))[j].app_id,
        ) != Relation::After,
        0 <= i <= j < runtimes.len() ==> text_order(
            sorted(runtimes, |a: RuntimeView, b: RuntimeView| runtime_le(a, b))[i].runtime_ref,
            sorted(runtimes, |a: RuntimeView, b: RuntimeView| runtime_le(a, b))[j].runtime_ref,
        ) != Relation::After,
        0 <= i <= j < runtimes.len() ==> text_order(
            sorted(runtimes, |a: RuntimeView, b: RuntimeView| deployment_le(a, b))[i].runtime_ref,
            sorted(runtimes, |a: RuntimeView, b: RuntimeView| deployment_le(a, b))[j].runtime_ref,
        ) != Relation::After,
{
    let f = |a: AppView, b: AppView| app_le(a, b);
    let g = |a: RuntimeView, b: RuntimeView| runtime_le(a, b);
    let h = |a: RuntimeView, b: RuntimeView| deployment_le(a, b);
    lemma_list_orders();
    lemma_sorted(apps, f);
    lemma_sorted(runtimes, g);
    lemma_sorted(runtimes, h);
    if 0 <= i <= j < apps.len() {
        assert(f(sorted(apps, f)[i], sorted(apps, f)[j]));
    }
    if 0 <= i <= j < runtimes.len() {
        assert(g(sorted(runtimes, g)[i], sorted(runtimes, g)[j]));
        assert(h(sorted(runtimes, h)[i], sorted(runtimes, h)[j]));
    }
}

proof fn lemma_text_le(a: Seq<char>, b: Seq<char>, c: Seq<char>)
    ensures
        text_order(a, b) != Relation::After || text_order(b, a) != Relation::After,
        text_order(a, b) != Relation::After && text_order(b, c) != Relation::After ==> text_order(
            a,
            c,
        ) != Relation::After,
        text_order(a, b) == Relation::Same <==> a == b,
        text_order(a, b) == Relation::Before && text_order(b, c) == Relation::Before
            ==> text_order(a, c) == Relation::Before,
        text_order(b, a) == crate::order::flipped(text_order(a, b)),
{
    lemma_text_order_total();
    let f = |x: Seq<char>, y: Seq<char>| text_order(x, y);
    assert(f(a, b) == Relation::Same <==> a == b);
    assert(f(b, c) == Relation::Same <==> b == c);
    assert(f(b, a) == crate::order::flipped(f(a, b)));
    assert(f(a, b) == Relation::Before && f(b, c) == Relation::Before ==> f(a, c)
        == Relation::Before);
}

proof fn lemma_list_orders()
    ensures
        is_total(|a: AppView, b: AppView| app_le(a, b)),
        is_total(|a: RuntimeView, b: RuntimeView| runtime_le(a, b)),
        is_total(|a: RuntimeView, b: RuntimeView| deployment_le(a, b)),
{
    reveal(is_total);
    let f = |a: AppView, b: AppView| app_le(a, b);
    let g = |a: RuntimeView, b: RuntimeView| runtime_le(a, b);
    let h = |a: RuntimeView, b: RuntimeView| deployment_le(a, b);
    assert forall|a: AppView, b: AppView| #[trigger] f(a, b) || f(b, a) by {
        lemma_text_le(a.app_id, b.app_id, b.app_id);
    }
    assert forall|a: AppView, b: AppView, c: AppView| #[trigger] f(a, b) && #[trigger] f(
        b,
        c,
    ) implies f(a, c) by {
        lemma_text_le(a.app_id, b.app_id, c.app_id);
    }
    assert forall|a: RuntimeView, b: RuntimeView| #[trigger] g(a, b) || g(b, a) by {
        lemma_text_le(a.runtime_ref, b.runtime_ref, b.runtime_ref);
    }
    assert forall|a: RuntimeView, b: RuntimeView, c: RuntimeView| #[trigger] g(a, b) && #[trigger] g(
        b,
        c,
    ) implies g(a, c) by {
        lemma_text_le(a.runtime_ref, b.runtime_ref, c.runtime_ref);
    }
    assert forall|a: RuntimeView, b: RuntimeView| #[trigger] h(a, b) || h(b, a) by {
        lemma_text_le(a.runtime_ref, b.runtime_ref, b.runtime_ref);
        lemma_path_order_total(a.runtime_dir, b.runtime_dir, b.runtime_dir);
    }
    assert forall|a: RuntimeView, b: RuntimeView, c: RuntimeView| #[trigger] h(a, b) && #[trigger] h(
        b,
        c,
    ) implies h(a, c) by {
        lemma_text_le(a.runtime_ref, b.runtime_ref, c.runtime_ref);
        lemma_text_le(b.runtime_ref, c.runtime_ref, c.runtime_ref);
        lemma_text_le(a.runtime_ref, c.runtime_ref, c.runtime_ref);
        lemma_path_le(a.runtime_dir, b.runtime_dir, c.runtime_dir);
    }
}

proof fn lemma_path_le(p: Seq<char>, q: Seq<char>, r: Seq<char>)
    ensures
        path_order(p, q) != Relation::After && path_order(q, r) != Relation::After ==> path_order(
            p,
            r,
        ) != Relation::After,
{
    lemma_path_order_total(p, q, r);
    lemma_path_order_total(q, r, p);
    lemma_path_order_total(p, r, q);
}

/// The records of applications and of runtimes are read one by one in their order; and one that
/// cannot be read spoils them all.
pub proof fn lemma_records_are_read_one_by_one(records: Seq<(Seq<char>, Seq<char>)>)
    ensures
        apps_in(records) is Ok <==> forall|i: int|
            0 <= i < records.len() ==> app_in((#[trigger] records[i]).1, records[i].0) is Ok,
        apps_in(records) is Ok ==> apps_in(records)->Ok_0.len() == records.len(),
        apps_in(records) is Ok ==> forall|i: int|
            0 <= i < records.len() ==> app_in((#[trigger] records[i]).1, records[i].0)->Ok_0
                == apps_in(records)->Ok_0[i],
        runtimes_in(records) is Ok <==> forall|i: int|
            0 <= i < records.len() ==> runtime_in((#[trigger] records[i]).1, records[i].0) is Ok,
        runtimes_in(records) is Ok ==> runtimes_in(records)->Ok_0.len() == records.len(),
        runtimes_in(records) is Ok ==> forall|i: int|
            0 <= i < records.len() ==> runtime_in((#[trigger] records[i]).1, records[i].0)->Ok_0
                == runtimes_in(records)->Ok_0[i],
    decreases records.len(),
{
    if records.len() > 0 {
        let head = records.drop_last();
        lemma_records_are_read_one_by_one(head);
        assert forall|i: int| 0 <= i < head.len() implies #[trigger] records[i] == head[i] by {}
        let last = records[records.len() - 1];
        assert(records.last() == last);
        if apps_in(records) is Ok {
            assert forall|i: int| 0 <= i < records.len() implies app_in(
                (#[trigger] records[i]).1,
                records[i].0,
            ) is Ok && app_in(records[i].1, records[i].0)->Ok_0 == apps_in(records)->Ok_0[i] by {
                if i < head.len() {
                    assert(head[i] == records[i]);
                }
            }
        }
        if forall|i: int|
            0 <= i < records.len() ==> app_in((#[trigger] records[i]).1, records[i].0) is Ok {
            assert forall|i: int| 0 <= i < head.len() implies app_in(
                (#[trigger] head[i]).1,
                head[i].0,
            ) is Ok by {
                assert(head[i] == records[i]);
            }
        }
        if runtimes_in(records) is Ok {
            assert forall|i: int| 0 <= i < records.len() implies runtime_in(
                (#[trigger] records[i]).1,
                records[i].0,
            ) is Ok && runtime_in(records[i].1, records[i].0)->Ok_0 == runtimes_in(
                records,
            )->Ok_0[i] by {
                if i < head.len() {
                    assert(head[i] == records[i]);
                }
            }
        }
        if forall|i: int|
            0 <= i < records.len() ==> runtime_in((#[trigger] records[i]).1, records[i].0) is Ok {
            assert forall|i: int| 0 <= i < head.len() implies runtime_in(
                (#[trigger] head[i]).1,
                head[i].0,
            ) is Ok by {
                assert(head[i] == records[i]);
            }
        }
    }
}

} // verus!
