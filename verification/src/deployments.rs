//! The deployments of applications and runtimes: which are installed, which are in use, and which
//! are removed.

use crate::installation::Installation;
use crate::order::{order_paths, order_texts, path_order, sort_by, sorted, text_order, Relation};
use crate::path::{same_path, FsPath};
use crate::recovery_order::names;
use crate::state::{
    app_in, read_app, read_runtime, relative_in, runtime_in, AppRecord, AppView, RuntimeRecord,
    RuntimeView, StateError, StateErrorView, StateFile,
};
use crate::text::{lemma_views_push, lines, split_lines, starts_with, strip_prefix, texts, views};
use vstd::prelude::*;

verus! {

/// The reference and the commit that the mark of a deployment names.
pub open spec fn marker_of(text: Seq<char>) -> Result<(Seq<char>, Seq<char>), StateErrorView> {
    let ls = lines(text);
    if ls.len() == 0 {
        Err(StateErrorView::MarkerWithoutRef)
    } else if ls.len() == 1 {
        Err(StateErrorView::MarkerWithoutCommit)
    } else {
        Ok((ls[0], ls[1]))
    }
}

/// The reference and the commit of a deployment; `marker` is the text of its mark, where it has
/// one.
pub fn deployment_marker(marker: Option<&str>) -> (r: Result<Option<(String, String)>, StateError>)
    ensures
        match (marker, r) {
            (None, Ok(None)) => true,
            (Some(text), Ok(Some((ref_name, commit)))) => marker_of(text@) == Ok::<
                (Seq<char>, Seq<char>),
                StateErrorView,
            >((ref_name@, commit@)),
            (Some(text), Err(error)) => marker_of(text@) == Err::<
                (Seq<char>, Seq<char>),
                StateErrorView,
            >(error@),
            _ => false,
        },
{
    let text = match marker {
        Some(text) => text,
        None => {
            return Ok(None);
        },
    };
    let ls = split_lines(text);
    let ghost all = texts(ls@);
    assert(all.len() == ls@.len());
    if ls.len() == 0 {
        return Err(StateError::MarkerWithoutRef);
    }
    if ls.len() == 1 {
        return Err(StateError::MarkerWithoutCommit);
    }
    assert(all[0] == ls@[0]@ && all[1] == ls@[1]@);
    Ok(Some((ls[0].clone(), ls[1].clone())))
}

/// The reference of a deployment.
pub fn checkout_ref(marker: Option<&str>) -> (r: Result<Option<String>, StateError>)
    ensures
        match (marker, r) {
            (None, Ok(None)) => true,
            (Some(text), Ok(Some(ref_name))) => marker_of(text@) matches Ok((name, _)) && name
                == ref_name@,
            (Some(text), Err(error)) => marker_of(text@) == Err::<
                (Seq<char>, Seq<char>),
                StateErrorView,
            >(error@),
            _ => false,
        },
{
    match deployment_marker(marker)? {
        Some((ref_name, _)) => Ok(Some(ref_name)),
        None => Ok(None),
    }
}

/// A reference without the word that says that it is one of a runtime.
pub open spec fn without_kind(ref_name: Seq<char>) -> Seq<char> {
    if starts_with(ref_name, "runtime/"@) {
        ref_name.skip(8)
    } else {
        ref_name
    }
}

/// A path as it is written down, or as it is where it lies outside of the installation.
pub open spec fn relative_or_same(paths: Installation, path: Seq<char>) -> Seq<char> {
    match relative_in(paths, path) {
        Some(relative) => relative,
        None => path,
    }
}

/// An application with the directories that a launch uses, and the references and commits that
/// these are marked with.
pub open spec fn pinned_app(
    paths: Installation,
    app: AppView,
    app_dir: Seq<char>,
    runtime_dir: Seq<char>,
    app_marker: Option<Seq<char>>,
    runtime_marker: Option<Seq<char>>,
) -> Result<AppView, StateErrorView> {
    let placed = AppView {
        app_dir: relative_or_same(paths, app_dir),
        runtime_dir: relative_or_same(paths, runtime_dir),
        ..app
    };
    let marked = match app_marker {
        None => Ok::<AppView, StateErrorView>(placed),
        Some(text) => match marker_of(text) {
            Ok((app_ref, app_commit)) => Ok(AppView { app_ref, app_commit, ..placed }),
            Err(error) => Err(error),
        },
    };
    match (marked, runtime_marker) {
        (Err(error), _) => Err(error),
        (Ok(marked), None) => Ok(marked),
        (Ok(marked), Some(text)) => match marker_of(text) {
            Ok((ref_name, runtime_commit)) => Ok(
                AppView { runtime_ref: without_kind(ref_name), runtime_commit, ..marked },
            ),
            Err(error) => Err(error),
        },
    }
}

fn relative_or_given(paths: &Installation, path: &FsPath) -> (r: FsPath)
    ensures
        r@ == relative_or_same(*paths, path@),
{
    match paths.relative_data_path(path) {
        Ok(relative) => relative,
        Err(_) => path.clone(),
    }
}

pub open spec fn optional_str(text: Option<&str>) -> Option<Seq<char>> {
    match text {
        Some(text) => Some(text@),
        None => None,
    }
}

/// The deployment that a launch uses, from the record of the application and the marks of the
/// directories.
pub fn pinned_deployment_for_app(
    paths: &Installation,
    app: AppRecord,
    app_dir: &FsPath,
    runtime_dir: &FsPath,
    app_marker: Option<&str>,
    runtime_marker: Option<&str>,
) -> (r: Result<AppRecord, StateError>)
    ensures
        match r {
            Ok(pinned) => pinned_app(
                *paths,
                app@,
                app_dir@,
                runtime_dir@,
                optional_str(app_marker),
                optional_str(runtime_marker),
            ) == Ok::<AppView, StateErrorView>(pinned@),
            Err(error) => pinned_app(
                *paths,
                app@,
                app_dir@,
                runtime_dir@,
                optional_str(app_marker),
                optional_str(runtime_marker),
            ) == Err::<AppView, StateErrorView>(error@),
        },
{
    let mut app = app;
    app.app_dir = relative_or_given(paths, app_dir);
    app.runtime_dir = relative_or_given(paths, runtime_dir);
    if let Some((ref_name, commit)) = deployment_marker(app_marker)? {
        app.app_ref = ref_name;
        app.app_commit = commit;
    }
    if let Some((ref_name, commit)) = deployment_marker(runtime_marker)? {
        proof {
            reveal_strlit("runtime/");
        }
        app.runtime_ref = match strip_prefix(&ref_name, "runtime/") {
            Some(rest) => rest,
            None => ref_name,
        };
        app.runtime_commit = commit;
    }
    Ok(app)
}

/// The runtime that is deployed in a directory, where one is.
pub open spec fn deployed_runtime(
    paths: Installation,
    path: Seq<char>,
    marker: Option<Seq<char>>,
) -> Result<Option<RuntimeView>, StateErrorView> {
    match marker {
        None => Ok(None),
        Some(text) => match marker_of(text) {
            Err(error) => Err(error),
            Ok((ref_name, runtime_commit)) => if !starts_with(ref_name, "runtime/"@) {
                Ok(None)
            } else {
                match relative_in(paths, path) {
                    None => Err(StateErrorView::OutsideDataRoot(path)),
                    Some(runtime_dir) => Ok(
                        Some(
                            RuntimeView {
                                runtime_ref: ref_name.skip(8),
                                runtime_commit,
                                runtime_dir,
                            },
                        ),
                    ),
                }
            },
        },
    }
}

/// The runtime that is deployed in a directory, where one is.
pub fn runtime_deployment_from_path(
    paths: &Installation,
    path: &FsPath,
    marker: Option<&str>,
) -> (r: Result<Option<RuntimeRecord>, StateError>)
    ensures
        match (r, deployed_runtime(*paths, path@, optional_str(marker))) {
            (Ok(Some(runtime)), Ok(Some(view))) => runtime@ == view,
            (Ok(None), Ok(None)) => true,
            (Err(error), Err(e)) => error@ == e,
            _ => false,
        },
{
    let (ref_name, runtime_commit) = match deployment_marker(marker)? {
        Some(pair) => pair,
        None => {
            return Ok(None);
        },
    };
    proof {
        reveal_strlit("runtime/");
    }
    let runtime_ref = match strip_prefix(&ref_name, "runtime/") {
        Some(rest) => rest,
        None => {
            return Ok(None);
        },
    };
    match paths.relative_data_path(path) {
        Ok(runtime_dir) => Ok(Some(RuntimeRecord { runtime_ref, runtime_commit, runtime_dir })),
        Err(_) => Err(StateError::OutsideDataRoot(path.clone())),
    }
}

/// Runtimes are put in the order of their references, and of their directories.
pub open spec fn deployment_le(a: RuntimeView, b: RuntimeView) -> bool {
    match text_order(a.runtime_ref, b.runtime_ref) {
        Relation::Before => true,
        Relation::Same => path_order(a.runtime_dir, b.runtime_dir) != Relation::After,
        Relation::After => false,
    }
}

fn deployment_at_most(a: &RuntimeRecord, b: &RuntimeRecord) -> (r: bool)
    ensures
        r == deployment_le(a@, b@),
{
    match order_texts(&a.runtime_ref, &b.runtime_ref) {
        Relation::Before => true,
        Relation::Same => match order_paths(&a.runtime_dir, &b.runtime_dir) {
            Relation::After => false,
            _ => true,
        },
        Relation::After => false,
    }
}

/// The deployments without those whose directory is that of the one before.
pub open spec fn distinct_deployments(runtimes: Seq<RuntimeView>) -> Seq<RuntimeView>
    decreases runtimes.len(),
{
    if runtimes.len() == 0 {
        Seq::empty()
    } else {
        let before = distinct_deployments(runtimes.drop_last());
        if before.len() > 0 && same_path(before.last().runtime_dir, runtimes.last().runtime_dir) {
            before
        } else {
            before.push(runtimes.last())
        }
    }
}

/// The deployments of runtimes in order, each directory once.
pub fn list_runtime_deployments(found: Vec<RuntimeRecord>) -> (r: Vec<RuntimeRecord>)
    ensures
        views(r@) == distinct_deployments(
            sorted(views(found@), |a: RuntimeView, b: RuntimeView| deployment_le(a, b)),
        ),
{
    let ordered = sort_by(
        found,
        deployment_at_most,
        Ghost(|a: RuntimeView, b: RuntimeView| deployment_le(a, b)),
    );
    let ghost all = views(ordered@);
    let mut out: Vec<RuntimeRecord> = Vec::new();
    let mut i: usize = 0;
    assert(views(out@) =~= distinct_deployments(all.take(0)));
    while i < ordered.len()
        invariant
            i <= ordered@.len(),
            all == views(ordered@),
            views(out@) == distinct_deployments(all.take(i as int)),
        decreases ordered@.len() - i,
    {
        let ghost next = all.take(i + 1);
        assert(next.drop_last() =~= all.take(i as int));
        assert(next.last() == ordered@[i as int]@);
        assert(views(out@).len() == out@.len());
        let n: usize = out.len();
        assert(n > 0 ==> views(out@).last() == out@[n - 1]@);
        if n > 0 && out[n - 1].runtime_dir.same_as(&ordered[i].runtime_dir) {
        } else {
            let runtime = ordered[i].clone();
            proof {
                lemma_views_push(out@, runtime);
            }
            out.push(runtime);
        }
        i += 1;
    }
    assert(all.take(i as int) =~= all);
    out
}

/// The applications that records tell of, up to the first record that cannot be read.
pub open spec fn apps_in(records: Seq<(Seq<char>, Seq<char>)>) -> Result<Seq<AppView>, StateErrorView>
    decreases records.len(),
{
    if records.len() == 0 {
        Ok(Seq::empty())
    } else {
        match apps_in(records.drop_last()) {
            Err(error) => Err(error),
            Ok(before) => match app_in(records.last().1, records.last().0) {
                Ok(app) => Ok(before.push(app)),
                Err(error) => Err(error),
            },
        }
    }
}

proof fn lemma_apps_refused(records: Seq<(Seq<char>, Seq<char>)>, n: int)
    requires
        0 <= n <= records.len(),
        apps_in(records.take(n)) is Err,
    ensures
        apps_in(records) == apps_in(records.take(n)),
    decreases records.len(),
{
    if n == records.len() {
        assert(records.take(n) =~= records);
    } else {
        assert(records.drop_last().take(n) =~= records.take(n));
        lemma_apps_refused(records.drop_last(), n);
    }
}

/// Applications are put in the order of their ids.
pub open spec fn app_le(a: AppView, b: AppView) -> bool {
    text_order(a.app_id, b.app_id) != Relation::After
}

fn app_at_most(a: &AppRecord, b: &AppRecord) -> (r: bool)
    ensures
        r == app_le(a@, b@),
{
    match order_texts(&a.app_id, &b.app_id) {
        Relation::After => false,
        _ => true,
    }
}

/// The applications that records tell of, in the order of their ids.
pub fn list_apps(records: &[StateFile]) -> (r: Result<Vec<AppRecord>, StateError>)
    ensures
        match (r, apps_in(views(records@))) {
            (Ok(apps), Ok(found)) => views(apps@) == sorted(
                found,
                |a: AppView, b: AppView| app_le(a, b),
            ),
            (Err(error), Err(e)) => error@ == e,
            _ => false,
        },
{
    let ghost all = views(records@);
    let mut found: Vec<AppRecord> = Vec::new();
    let mut i: usize = 0;
    assert(all.take(0) =~= Seq::<(Seq<char>, Seq<char>)>::empty());
    assert(views(found@) =~= Seq::<AppView>::empty());
    while i < records.len()
        invariant
            i <= records@.len(),
            all == views(records@),
            apps_in(all.take(i as int)) == Ok::<Seq<AppView>, StateErrorView>(views(found@)),
        decreases records@.len() - i,
    {
        let ghost next = all.take(i + 1);
        assert(next.drop_last() =~= all.take(i as int));
        assert(next.last() == records@[i as int]@);
        match read_app(&records[i].text, &records[i].path) {
            Ok(app) => {
                proof {
                    lemma_views_push(found@, app);
                }
                found.push(app);
            },
            Err(error) => {
                proof {
                    lemma_apps_refused(all, i + 1);
                }
                return Err(error);
            },
        }
        i += 1;
    }
    assert(all.take(i as int) =~= all);
    Ok(sort_by(found, app_at_most, Ghost(|a: AppView, b: AppView| app_le(a, b))))
}

/// The runtimes that records tell of, up to the first record that cannot be read.
pub open spec fn runtimes_in(records: Seq<(Seq<char>, Seq<char>)>) -> Result<Seq<RuntimeView>, StateErrorView>
    decreases records.len(),
{
    if records.len() == 0 {
        Ok(Seq::empty())
    } else {
        match runtimes_in(records.drop_last()) {
            Err(error) => Err(error),
            Ok(before) => match runtime_in(records.last().1, records.last().0) {
                Ok(runtime) => Ok(before.push(runtime)),
                Err(error) => Err(error),
            },
        }
    }
}

proof fn lemma_runtimes_refused(records: Seq<(Seq<char>, Seq<char>)>, n: int)
    requires
        0 <= n <= records.len(),
        runtimes_in(records.take(n)) is Err,
    ensures
        runtimes_in(records) == runtimes_in(records.take(n)),
    decreases records.len(),
{
    if n == records.len() {
        assert(records.take(n) =~= records);
    } else {
        assert(records.drop_last().take(n) =~= records.take(n));
        lemma_runtimes_refused(records.drop_last(), n);
    }
}

/// Runtimes are put in the order of their references.
pub open spec fn runtime_le(a: RuntimeView, b: RuntimeView) -> bool {
    text_order(a.runtime_ref, b.runtime_ref) != Relation::After
}

fn runtime_at_most(a: &RuntimeRecord, b: &RuntimeRecord) -> (r: bool)
    ensures
        r == runtime_le(a@, b@),
{
    match order_texts(&a.runtime_ref, &b.runtime_ref) {
        Relation::After => false,
        _ => true,
    }
}

/// The runtimes that records tell of, in the order of their references.
pub fn list_runtimes(records: &[StateFile]) -> (r: Result<Vec<RuntimeRecord>, StateError>)
    ensures
        match (r, runtimes_in(views(records@))) {
            (Ok(runtimes), Ok(found)) => views(runtimes@) == sorted(
                found,
                |a: RuntimeView, b: RuntimeView| runtime_le(a, b),
            ),
            (Err(error), Err(e)) => error@ == e,
            _ => false,
        },
{
    let ghost all = views(records@);
    let mut found: Vec<RuntimeRecord> = Vec::new();
    let mut i: usize = 0;
    assert(all.take(0) =~= Seq::<(Seq<char>, Seq<char>)>::empty());
    assert(views(found@) =~= Seq::<RuntimeView>::empty());
    while i < records.len()
        invariant
            i <= records@.len(),
            all == views(records@),
            runtimes_in(all.take(i as int)) == Ok::<Seq<RuntimeView>, StateErrorView>(
                views(found@),
            ),
        decreases records@.len() - i,
    {
        let ghost next = all.take(i + 1);
        assert(next.drop_last() =~= all.take(i as int));
        assert(next.last() == records@[i as int]@);
        match read_runtime(&records[i].text, &records[i].path) {
            Ok(runtime) => {
                proof {
                    lemma_views_push(found@, runtime);
                }
                found.push(runtime);
            },
            Err(error) => {
                proof {
                    lemma_runtimes_refused(all, i + 1);
                }
                return Err(error);
            },
        }
        i += 1;
    }
    assert(all.take(i as int) =~= all);
    Ok(sort_by(found, runtime_at_most, Ghost(|a: RuntimeView, b: RuntimeView| runtime_le(a, b))))
}

} // verus!
