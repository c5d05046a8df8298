//! The records of what runs, and of what applications export to the desktop.

use crate::application_entrypoint::sandbox_name_of;
use crate::flatpak_metadata::{last_value, pair_texts};
use crate::installation::Installation;
use crate::launch_environment::push_env;
use crate::numbers::{decimal, render_u64};
use crate::path::{joined, path_texts, FsPath};
use crate::state::{
    app_from_values, app_in, app_of, app_path, deployment_entries, get_app, push_deployment,
    read_values, record_text, required, safe_name, state_entries, write_entries, AppRecord, AppView,
    StateError, StateErrorView, StateValues, StateWrite,
};
use crate::static_overrides::ended_lines;
use crate::text::{
    concat, concat3, has_prefix, join, join_texts, lemma_views_push, lines, split_lines,
    starts_with, texts, trim, trim_text,
};
use vstd::prelude::*;

verus! {

/// The record of a running instance.
pub open spec fn run_path(
    paths: Installation,
    app_id: Seq<char>,
    instance_id: Seq<char>,
) -> Seq<char> {
    joined(
        paths.spec_runs(),
        sandbox_name_of(app_id) + "."@ + sandbox_name_of(instance_id) + ".ini"@,
    )
}

/// Why an instance cannot have a record.
pub open spec fn run_refusal(app_id: Seq<char>, instance_id: Seq<char>) -> Option<StateErrorView> {
    if app_id.contains('/') {
        Some(StateErrorView::InvalidName(app_id))
    } else if instance_id.contains('/') {
        Some(StateErrorView::InvalidName(instance_id))
    } else {
        None
    }
}

pub fn run_record_path(paths: &Installation, app_id: &str, instance_id: &str) -> (r: Result<
    FsPath,
    StateError,
>)
    ensures
        match r {
            Ok(path) => run_refusal(app_id@, instance_id@) is None && path@ == run_path(
                *paths,
                app_id@,
                instance_id@,
            ),
            Err(error) => run_refusal(app_id@, instance_id@) == Some(error@),
        },
{
    let app = safe_name(app_id)?;
    let instance = safe_name(instance_id)?;
    let mut file = concat3(&app, ".", &instance);
    file.append(".ini");
    Ok(paths.runs().join(&file))
}

/// What is written down of a running instance: the deployment that it keeps from being removed,
/// and the extensions that it uses, where they are known.
pub open spec fn run_entries(
    app_id: Seq<char>,
    instance_id: Seq<char>,
    root: Seq<char>,
    launcher_pid: u32,
    child_pid: u32,
    deployment: Option<AppView>,
    extension_refs: Seq<Seq<char>>,
) -> Seq<(Seq<char>, Seq<char>)> {
    let base = seq![
        ("app_id"@, app_id),
        ("instance_id"@, instance_id),
        ("root"@, root),
        ("launcher_pid"@, decimal(launcher_pid as nat)),
        ("child_pid"@, decimal(child_pid as nat)),
    ];
    let pinned = match deployment {
        Some(app) => base + deployment_entries(app),
        None => base,
    };
    if extension_refs.len() > 0 {
        pinned.push(("extension_refs"@, join(extension_refs, ";"@)))
    } else {
        pinned
    }
}

pub open spec fn deployment_view(app: Option<&AppRecord>) -> Option<AppView> {
    match app {
        Some(app) => Some(app@),
        None => None,
    }
}

fn write_run_record_inner(
    paths: &Installation,
    app_id: &str,
    instance_id: &str,
    root: &FsPath,
    launcher_pid: u32,
    child_pid: u32,
    deployment: Option<&AppRecord>,
    extension_refs: &[String],
) -> (r: Result<StateWrite, StateError>)
    ensures
        match r {
            Ok(write) => run_refusal(app_id@, instance_id@) is None && write@ == (
                run_path(*paths, app_id@, instance_id@),
                record_text(
                    run_entries(
                        app_id@,
                        instance_id@,
                        root@,
                        launcher_pid,
                        child_pid,
                        deployment_view(deployment),
                        texts(extension_refs@),
                    ),
                ),
            ),
            Err(error) => run_refusal(app_id@, instance_id@) == Some(error@),
        },
{
    let path = run_record_path(paths, app_id, instance_id)?;
    let launcher = render_u64(launcher_pid as u64);
    let child = render_u64(child_pid as u64);
    let mut entries: Vec<(String, String)> = Vec::new();
    assert(pair_texts(entries@) =~= Seq::<(Seq<char>, Seq<char>)>::empty());
    push_env(&mut entries, "app_id", app_id);
    push_env(&mut entries, "instance_id", instance_id);
    push_env(&mut entries, "root", root.as_str());
    push_env(&mut entries, "launcher_pid", &launcher);
    push_env(&mut entries, "child_pid", &child);
    if let Some(app) = deployment {
        push_deployment(&mut entries, app);
    }
    assert(texts(extension_refs@).len() == extension_refs@.len());
    if extension_refs.len() > 0 {
        let refs = join_texts(extension_refs, ";");
        push_env(&mut entries, "extension_refs", &refs);
    }
    assert(pair_texts(entries@) =~= run_entries(
        app_id@,
        instance_id@,
        root@,
        launcher_pid,
        child_pid,
        deployment_view(deployment),
        texts(extension_refs@),
    ));
    let text = write_entries(entries.as_slice());
    Ok(StateWrite { path, text })
}

/// Writes down a running instance.
pub fn write_run_record(
    paths: &Installation,
    app_id: &str,
    instance_id: &str,
    root: &FsPath,
    launcher_pid: u32,
    child_pid: u32,
) -> (r: Result<StateWrite, StateError>)
    ensures
        match r {
            Ok(write) => run_refusal(app_id@, instance_id@) is None && write@ == (
                run_path(*paths, app_id@, instance_id@),
                record_text(
                    run_entries(
                        app_id@,
                        instance_id@,
                        root@,
                        launcher_pid,
                        child_pid,
                        None,
                        Seq::empty(),
                    ),
                ),
            ),
            Err(error) => run_refusal(app_id@, instance_id@) == Some(error@),
        },
{
    let none: Vec<String> = Vec::new();
    assert(texts(none@) =~= Seq::<Seq<char>>::empty());
    write_run_record_inner(
        paths,
        app_id,
        instance_id,
        root,
        launcher_pid,
        child_pid,
        None,
        none.as_slice(),
    )
}

/// Writes down a running instance and the deployment that it uses.
pub fn write_pinned_run_record(
    paths: &Installation,
    instance_id: &str,
    root: &FsPath,
    launcher_pid: u32,
    child_pid: u32,
    app: &AppRecord,
) -> (r: Result<StateWrite, StateError>)
    ensures
        match r {
            Ok(write) => run_refusal(app@.app_id, instance_id@) is None && write@ == (
                run_path(*paths, app@.app_id, instance_id@),
                record_text(
                    run_entries(
                        app@.app_id,
                        instance_id@,
                        root@,
                        launcher_pid,
                        child_pid,
                        Some(app@),
                        Seq::empty(),
                    ),
                ),
            ),
            Err(error) => run_refusal(app@.app_id, instance_id@) == Some(error@),
        },
{
    let none: Vec<String> = Vec::new();
    assert(texts(none@) =~= Seq::<Seq<char>>::empty());
    write_pinned_run_record_with_extensions(
        paths,
        instance_id,
        root,
        launcher_pid,
        child_pid,
        app,
        none.as_slice(),
    )
}

/// Writes down a running instance, the deployment that it uses, and its extensions.
pub fn write_pinned_run_record_with_extensions(
    paths: &Installation,
    instance_id: &str,
    root: &FsPath,
    launcher_pid: u32,
    child_pid: u32,
    app: &AppRecord,
    extension_refs: &[String],
) -> (r: Result<StateWrite, StateError>)
    ensures
        match r {
            Ok(write) => run_refusal(app@.app_id, instance_id@) is None && write@ == (
                run_path(*paths, app@.app_id, instance_id@),
                record_text(
                    run_entries(
                        app@.app_id,
                        instance_id@,
                        root@,
                        launcher_pid,
                        child_pid,
                        Some(app@),
                        texts(extension_refs@),
                    ),
                ),
            ),
            Err(error) => run_refusal(app@.app_id, instance_id@) == Some(error@),
        },
{
    write_run_record_inner(
        paths,
        &app.app_id,
        instance_id,
        root,
        launcher_pid,
        child_pid,
        Some(app),
        extension_refs,
    )
}

/// What is written down of a sandbox that is nested in another one.
pub open spec fn nested_run_entries(
    app_id: Seq<char>,
    instance_id: Seq<char>,
    root: Seq<char>,
    parent_root: Seq<char>,
    launcher_pid: u32,
) -> Seq<(Seq<char>, Seq<char>)> {
    seq![
        ("app_id"@, app_id),
        ("instance_id"@, instance_id),
        ("root"@, root),
        ("parent_root"@, parent_root),
        ("launcher_pid"@, decimal(launcher_pid as nat)),
    ]
}

/// Writes down a sandbox that is nested in another one, so that it is found again, and the other
/// one kept, even if its launcher is gone. This is done before its root directory is made.
pub fn write_nested_run_record(
    paths: &Installation,
    app_id: &str,
    instance_id: &str,
    root: &FsPath,
    parent_root: &FsPath,
    launcher_pid: u32,
) -> (r: Result<StateWrite, StateError>)
    ensures
        match r {
            Ok(write) => run_refusal(app_id@, instance_id@) is None && write@ == (
                run_path(*paths, app_id@, instance_id@),
                record_text(
                    nested_run_entries(app_id@, instance_id@, root@, parent_root@, launcher_pid),
                ),
            ),
            Err(error) => run_refusal(app_id@, instance_id@) == Some(error@),
        },
{
    let path = run_record_path(paths, app_id, instance_id)?;
    let launcher = render_u64(launcher_pid as u64);
    let mut entries: Vec<(String, String)> = Vec::new();
    assert(pair_texts(entries@) =~= Seq::<(Seq<char>, Seq<char>)>::empty());
    push_env(&mut entries, "app_id", app_id);
    push_env(&mut entries, "instance_id", instance_id);
    push_env(&mut entries, "root", root.as_str());
    push_env(&mut entries, "parent_root", parent_root.as_str());
    push_env(&mut entries, "launcher_pid", &launcher);
    assert(pair_texts(entries@) =~= nested_run_entries(
        app_id@,
        instance_id@,
        root@,
        parent_root@,
        launcher_pid,
    ));
    let text = write_entries(entries.as_slice());
    Ok(StateWrite { path, text })
}

/// What is read of a record of a running instance that stands at a path, where it can be read.
pub open spec fn run_values(text: Seq<char>, path: Seq<char>) -> Result<
    Seq<(Seq<char>, Seq<char>)>,
    StateErrorView,
> {
    match state_entries(lines(text), path) {
        Ok(entries) => Ok(entries.push(("_path"@, path))),
        Err(error) => Err(error),
    }
}

/// What a record of a running instance says, and where it stands.
pub fn read_run_record(text: &str, path: &FsPath) -> (r: Result<StateValues, StateError>)
    ensures
        match r {
            Ok(values) => run_values(text@, path@) == Ok::<
                Seq<(Seq<char>, Seq<char>)>,
                StateErrorView,
            >(values@),
            Err(error) => run_values(text@, path@) == Err::<
                Seq<(Seq<char>, Seq<char>)>,
                StateErrorView,
            >(error@),
        },
{
    let mut values = read_values(text, path)?;
    push_env(&mut values.entries, "_path", path.as_str());
    Ok(values)
}

/// The deployment that a record of a running instance tells of. Where it does not tell of one, it
/// is that of the installed application; `installed` is the text of the record of that, if it can
/// be read.
pub fn app_from_run_record(
    paths: &Installation,
    values: &StateValues,
    installed: Option<&str>,
) -> (r: Result<AppRecord, StateError>)
    ensures
        if last_value(values@, "app_commit"@) is Some {
            match r {
                Ok(app) => app_of(values@) == Ok::<AppView, StateErrorView>(app@),
                Err(error) => app_of(values@) == Err::<AppView, StateErrorView>(error@),
            }
        } else {
            match last_value(values@, "app_id"@) {
                None => r matches Err(error) && error@ == StateErrorView::Missing("app_id"@),
                Some(app_id) => match r {
                    Ok(app) => installed is Some && !app_id.contains('/') && app_in(
                        installed->0@,
                        app_path(*paths, app_id),
                    ) == Ok::<AppView, StateErrorView>(app@),
                    Err(error) => if app_id.contains('/') {
                        error@ == StateErrorView::InvalidName(app_id)
                    } else {
                        error@ == StateErrorView::NotInstalled(app_id) && (installed is None
                            || app_in(installed->0@, app_path(*paths, app_id)) is Err)
                    },
                },
            }
        },
{
    if values.get("app_commit").is_some() {
        return app_from_values(values);
    }
    let app_id = required(values, "app_id")?;
    get_app(paths, &app_id, installed)
}

/// The record of what an application exports.
pub open spec fn export_path(paths: Installation, app_id: Seq<char>) -> Seq<char> {
    joined(joined(paths.spec_refs(), "exports"@), sandbox_name_of(app_id) + ".list"@)
}

pub fn export_record_path(paths: &Installation, app_id: &str) -> (r: Result<FsPath, StateError>)
    ensures
        match r {
            Ok(path) => !app_id@.contains('/') && path@ == export_path(*paths, app_id@),
            Err(error) => app_id@.contains('/') && error@ == StateErrorView::InvalidName(app_id@),
        },
{
    let name = safe_name(app_id)?;
    let file = concat(&name, ".list");
    Ok(paths.refs().join("exports").join(&file))
}

/// Writes down what an application exports, one path on each line.
pub fn write_export_record(installation: &Installation, app_id: &str, paths: &[FsPath]) -> (r:
    Result<StateWrite, StateError>)
    ensures
        match r {
            Ok(write) => !app_id@.contains('/') && write@ == (
                export_path(*installation, app_id@),
                ended_lines(path_texts(paths@)),
            ),
            Err(error) => app_id@.contains('/') && error@ == StateErrorView::InvalidName(app_id@),
        },
{
    let path = export_record_path(installation, app_id)?;
    let ghost all = path_texts(paths@);
    let mut text = String::new();
    let mut i: usize = 0;
    assert(text@ =~= ended_lines(all.take(0)));
    while i < paths.len()
        invariant
            i <= paths@.len(),
            all == path_texts(paths@),
            text@ == ended_lines(all.take(i as int)),
        decreases paths@.len() - i,
    {
        let ghost next = all.take(i + 1);
        assert(next.drop_last() =~= all.take(i as int));
        assert(next.last() == paths@[i as int]@);
        text.append(paths[i].as_str());
        text.append("\n");
        i += 1;
    }
    assert(all.take(i as int) =~= all);
    Ok(StateWrite { path, text })
}

/// The paths that the lines of a record name; empty lines and remarks name none.
pub open spec fn exported_paths(ls: Seq<Seq<char>>) -> Seq<Seq<char>>
    decreases ls.len(),
{
    if ls.len() == 0 {
        Seq::empty()
    } else {
        let before = exported_paths(ls.drop_last());
        let line = trim(ls.last());
        if line.len() == 0 || starts_with(line, "#"@) {
            before
        } else {
            before.push(line)
        }
    }
}

/// What an application exports; `text` is what stands at `export_record_path`, if anything does.
pub fn read_export_record(text: Option<&str>) -> (r: Vec<FsPath>)
    ensures
        path_texts(r@) == (match text {
            Some(text) => exported_paths(lines(text@)),
            None => Seq::empty(),
        }),
{
    let mut out: Vec<FsPath> = Vec::new();
    assert(path_texts(out@) =~= Seq::<Seq<char>>::empty());
    let text = match text {
        Some(text) => text,
        None => {
            return out;
        },
    };
    let ls = split_lines(text);
    let ghost all = texts(ls@);
    let mut i: usize = 0;
    assert(path_texts(out@) =~= exported_paths(all.take(0)));
    while i < ls.len()
        invariant
            i <= ls@.len(),
            all == texts(ls@),
            path_texts(out@) == exported_paths(all.take(i as int)),
        decreases ls@.len() - i,
    {
        let ghost next = all.take(i + 1);
        assert(next.drop_last() =~= all.take(i as int));
        assert(next.last() == ls@[i as int]@);
        let line = trim_text(&ls[i]);
        if line.as_str().unicode_len() != 0 && !has_prefix(&line, "#") {
            let path = FsPath { text: line };
            proof {
                lemma_views_push(out@, path);
            }
            out.push(path);
        }
        i += 1;
    }
    assert(all.take(i as int) =~= all);
    out
}

} // verus!
