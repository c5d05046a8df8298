//! Under which names records, nested sandboxes and file systems are known.

use crate::application_entrypoint::sandbox_name_of;
use crate::extension_merge::scope_of;
use crate::installation::Installation;
use crate::numbers::decimal;
use crate::path::{file_name_of, joined, within};
use crate::run_records::{export_path, run_path, run_refusal};
use crate::secure_mount::{special_name, SpecialKind};
use crate::spawn_broker::nested_name;
use crate::state::{app_path, runtime_path, temporary_name, StateErrorView};
use vstd::prelude::*;

verus! {

/// What is installed is recorded below the directory of the records, applications, runtimes and what
/// applications export apart from each other; what runs is recorded where it ends with the session.
pub proof fn lemma_where_records_stand(
    paths: Installation,
    app_id: Seq<char>,
    runtime_ref: Seq<char>,
    instance_id: Seq<char>,
)
    ensures
        app_path(paths, app_id) == joined(
            joined(joined(paths.data_root@, "refs"@), "apps"@),
            sandbox_name_of(app_id) + ".ini"@,
        ),
        runtime_path(paths, runtime_ref) == joined(
            joined(joined(paths.data_root@, "refs"@), "runtimes"@),
            sandbox_name_of(runtime_ref) + ".ini"@,
        ),
        export_path(paths, app_id) == joined(
            joined(joined(paths.data_root@, "refs"@), "exports"@),
            sandbox_name_of(app_id) + ".list"@,
        ),
        run_path(paths, app_id, instance_id) == joined(
            joined(paths.runtime_root@, "runs"@),
            sandbox_name_of(app_id) + "."@ + sandbox_name_of(instance_id) + ".ini"@,
        ),
{
}

/// An instance can be recorded if and only if neither its own name nor that of its application holds
/// a slash; the name that does is told, that of the application first.
pub proof fn lemma_names_that_can_be_recorded(app_id: Seq<char>, instance_id: Seq<char>)
    ensures
        run_refusal(app_id, instance_id) is None <==> !app_id.contains('/')
            && !instance_id.contains('/'),
        app_id.contains('/') ==> run_refusal(app_id, instance_id) == Some(
            StateErrorView::InvalidName(app_id),
        ),
        !app_id.contains('/') && instance_id.contains('/') ==> run_refusal(app_id, instance_id)
            == Some(StateErrorView::InvalidName(instance_id)),
{
}

/// A record is first written under a name that begins with a dot, ends in `.tmp` and holds the name of
/// the record, the process and how often it has written.
pub proof fn lemma_records_are_written_apart(path: Seq<char>, pid: nat, sequence: nat)
    ensures
        temporary_name(path, pid, sequence)[0] == '.',
        file_name_of(path) matches Some(name) ==> temporary_name(path, pid, sequence) == "."@ + name
            + "."@ + decimal(pid) + "."@ + decimal(sequence) + ".tmp"@,
        file_name_of(path) is None ==> temporary_name(path, pid, sequence) == ".state."@ + decimal(
            pid,
        ) + "."@ + decimal(sequence) + ".tmp"@,
{
    reveal_strlit(".");
    reveal_strlit("state");
    reveal_strlit(".state.");
    assert("."@ + "state"@ + "."@ =~= ".state."@);
}

/// A sandbox that is nested in another one goes by the name of that, the process that made it and how
/// many it had made.
pub proof fn lemma_names_of_nested_sandboxes(parent: Seq<char>, pid: nat, sequence: nat)
    ensures
        nested_name(parent, pid, sequence) == parent + "-nested-"@ + decimal(pid) + "-"@ + decimal(
            sequence,
        ),
{
}

/// The four file systems that are made of nothing go by the names that the system has for them.
pub proof fn lemma_names_of_special_filesystems()
    ensures
        special_name(SpecialKind::Devfs) == "devfs"@,
        special_name(SpecialKind::Fdescfs) == "fdescfs"@,
        special_name(SpecialKind::Linprocfs) == "linprocfs"@,
        special_name(SpecialKind::Linsysfs) == "linsysfs"@,
{
}

/// Extensions are merged within the application or within the runtime, wherever they are mounted.
pub proof fn lemma_extensions_stay_in_their_tree(target: Seq<char>)
    ensures
        scope_of(target) matches Some(scope) ==> within(target, scope) && (scope == "app"@ || scope
            == "usr"@),
        within(target, "app"@) ==> scope_of(target) == Some("app"@),
        within(target, "usr"@) && !within(target, "app"@) ==> scope_of(target) == Some("usr"@),
        !within(target, "app"@) && !within(target, "usr"@) ==> scope_of(target) is None,
{
}

} // verus!
