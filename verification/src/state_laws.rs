//! What holds of records as a whole: what was written down is read back.

use crate::application_entrypoint::{lemma_sandbox_name, sandbox_name_of};
use crate::flatpak_metadata::last_value;
use crate::installation::Installation;
use crate::numbers::{decimal, is_digit, lemma_decimal};
use crate::path::joined;
use crate::override_laws::{lemma_lines_of_chomped, lemma_lines_of_ended, no_break};
use crate::run_records::{
    exported_paths, nested_run_entries, run_entries, run_path, run_values,
};
use crate::stale_sandbox_recovery::{launcher_of, ownership_of, OwnershipView};
use crate::state::{
    app_entries, app_in, app_keys, app_of, entry_lines, first_missing, record_text, runtime_entries,
    runtime_in, runtime_keys, state_entries, state_line, AppView, RuntimeView, StateErrorView,
    StateLine,
};
use crate::static_overrides::ended_lines;
use crate::text::{
    chomp, is_space, is_trimmed, join, lemma_first_index_unique, lemma_trim, lines, starts_with,
    trim, trim_end,
};
use vstd::prelude::*;

verus! {

/// Whether a line can hold the value of a key so that it is read back: it fits on the line and
/// does not end in white space.
pub open spec fn clean_value(value: Seq<char>) -> bool {
    no_break(value) && (value.len() > 0 ==> !is_space(value.last()))
}

/// Whether a line can begin with the key.
pub open spec fn clean_key(key: Seq<char>) -> bool {
    &&& key.len() > 0
    &&& no_break(key)
    &&& !key.contains('=')
    &&& !is_space(key[0])
    &&& key[0] != '#'
}

/// Whether entries can be written down: each has a line of its own.
pub open spec fn writable_entries(entries: Seq<(Seq<char>, Seq<char>)>) -> bool {
    forall|i: int|
        0 <= i < entries.len() ==> clean_key((#[trigger] entries[i]).0) && no_break(entries[i].1)
}

/// Entries as they are read once they were written down: what ends a value is lost where it is
/// white space.
pub open spec fn entries_back(entries: Seq<(Seq<char>, Seq<char>)>) -> Seq<
    (Seq<char>, Seq<char>),
> {
    Seq::new(entries.len(), |i: int| (entries[i].0, trim_end(entries[i].1)))
}

/// White space at the end of a text is that of its last part.
proof fn lemma_trim_end_after(prefix: Seq<char>, value: Seq<char>)
    requires
        prefix.len() > 0,
        !is_space(prefix.last()),
    ensures
        trim_end(prefix + value) == prefix + trim_end(value),
    decreases value.len(),
{
    let s = prefix + value;
    if value.len() == 0 {
        assert(s =~= prefix);
        assert(prefix + trim_end(value) =~= prefix);
    } else {
        assert(s.last() == value.last());
        if is_space(value.last()) {
            assert(s.drop_last() =~= prefix + value.drop_last());
            lemma_trim_end_after(prefix, value.drop_last());
        }
    }
}

/// A line that holds an entry says just that.
proof fn lemma_entry_line(key: Seq<char>, value: Seq<char>)
    requires
        clean_key(key),
        no_break(value),
    ensures
        no_break(key + "="@ + value),
        state_line(chomp(key + "="@ + value)) == StateLine::Entry(key, trim_end(value)),
{
    reveal_strlit("=");
    reveal_strlit("#");
    let prefix = key + "="@;
    let whole = prefix + value;
    assert forall|j: int| 0 <= j < whole.len() implies whole[j] != '\n' by {
        if j < key.len() {
            assert(key.contains(key[j]));
        } else if j > key.len() {
            assert(value.contains(value[j - key.len() - 1]));
        }
    }
    assert(prefix.last() == '=');
    let kept = if value.len() > 0 && value.last() == '\r' {
        value.drop_last()
    } else {
        value
    };
    assert(chomp(whole) =~= prefix + kept) by {
        if value.len() > 0 {
            assert(whole.last() == value.last());
        } else {
            assert(whole.last() == '=');
        }
    }
    assert(trim_end(kept) == trim_end(value));
    lemma_trim_end_after(prefix, kept);
    let line = prefix + trim_end(value);
    assert((prefix + kept)[0] == key[0]);
    assert(trim(prefix + kept) == line);
    assert(line[0] == key[0]);
    assert(line.take(1) =~= seq![key[0]]);
    assert(!starts_with(line, "#"@)) by {
        assert("#"@[0] == '#');
        if starts_with(line, "#"@) {
            assert(line.take(1)[0] == '#');
        }
    }
    assert forall|j: int| 0 <= j < key.len() implies line[j] != '=' by {
        assert(key.contains(key[j]));
    }
    assert(line[key.len() as int] == '=');
    lemma_first_index_unique(line, '=', key.len() as int);
    assert(line.take(key.len() as int) =~= key);
    assert(line.skip(key.len() as int + 1) =~= trim_end(value));
}

/// Lines without a carriage return at the end of any.
spec fn chomped(ls: Seq<Seq<char>>) -> Seq<Seq<char>> {
    Seq::new(ls.len(), |i: int| chomp(ls[i]))
}

proof fn lemma_entry_lines_read(entries: Seq<(Seq<char>, Seq<char>)>, path: Seq<char>)
    requires
        writable_entries(entries),
    ensures
        state_entries(chomped(entry_lines(entries)), path) == Ok::<
            Seq<(Seq<char>, Seq<char>)>,
            StateErrorView,
        >(entries_back(entries)),
    decreases entries.len(),
{
    let ls = chomped(entry_lines(entries));
    if entries.len() > 0 {
        let head = entries.drop_last();
        assert forall|i: int| 0 <= i < head.len() implies clean_key((#[trigger] head[i]).0)
            && no_break(head[i].1) by {
            assert(head[i] == entries[i]);
        }
        lemma_entry_lines_read(head, path);
        assert(ls.drop_last() =~= chomped(entry_lines(head)));
        let last = entries[entries.len() - 1];
        lemma_entry_line(last.0, last.1);
        assert(ls.last() == chomp(last.0 + "="@ + last.1));
        assert(entries_back(entries) =~= entries_back(head).push((last.0, trim_end(last.1))));
    } else {
        assert(entries_back(entries) =~= Seq::empty());
    }
}

/// Entries that are written down are read back.
pub proof fn lemma_record_round_trip(entries: Seq<(Seq<char>, Seq<char>)>, path: Seq<char>)
    requires
        writable_entries(entries),
    ensures
        state_entries(lines(record_text(entries)), path) == Ok::<
            Seq<(Seq<char>, Seq<char>)>,
            StateErrorView,
        >(entries_back(entries)),
{
    let ls = entry_lines(entries);
    assert forall|i: int| 0 <= i < ls.len() implies no_break(#[trigger] ls[i]) by {
        assert(clean_key(entries[i].0));
        lemma_entry_line(entries[i].0, entries[i].1);
    }
    lemma_lines_of_chomped(ls);
    assert(lines(record_text(entries)) =~= chomped(ls));
    lemma_entry_lines_read(entries, path);
}

/// Where no later entry has the key of an entry, the key has the value of that entry.
proof fn lemma_last_is(entries: Seq<(Seq<char>, Seq<char>)>, i: int)
    requires
        0 <= i < entries.len(),
        forall|j: int| i < j < entries.len() ==> (#[trigger] entries[j]).0 != entries[i].0,
    ensures
        last_value(entries, entries[i].0) == Some(entries[i].1),
    decreases entries.len(),
{
    if i < entries.len() - 1 {
        let head = entries.drop_last();
        assert(entries[entries.len() - 1].0 != entries[i].0);
        assert forall|j: int| i < j < head.len() implies (#[trigger] head[j]).0 != head[i].0 by {
            assert(head[j] == entries[j]);
        }
        lemma_last_is(head, i);
    }
}

/// The keys of the record of an application are clean and differ from each other.
proof fn lemma_app_keys()
    ensures
        forall|i: int| 0 <= i < app_keys().len() ==> clean_key(#[trigger] app_keys()[i]),
        forall|i: int, j: int|
            0 <= i < j < app_keys().len() ==> (#[trigger] app_keys()[i]) != (
            #[trigger] app_keys()[j]),
{
    reveal_strlit("app_id");
    reveal_strlit("app_ref");
    reveal_strlit("app_commit");
    reveal_strlit("app_dir");
    reveal_strlit("arch");
    reveal_strlit("branch");
    reveal_strlit("runtime_ref");
    reveal_strlit("runtime_commit");
    reveal_strlit("runtime_dir");
    reveal_strlit("command");
    assert("app_ref"@[4] == 'r');
    assert("app_dir"@[4] == 'd');
    assert("branch"@[0] == 'b');
    assert("app_id"@[0] == 'a');
    assert("runtime_ref"@[8] == 'r');
    assert("runtime_dir"@[8] == 'd');
    assert("app_ref"@[0] == 'a');
    assert("command"@[0] == 'c');
}

/// Whether every field of an application fits on a line.
pub open spec fn writable_app(app: AppView) -> bool {
    &&& no_break(app.app_id)
    &&& no_break(app.app_ref)
    &&& no_break(app.app_commit)
    &&& no_break(app.app_dir)
    &&& no_break(app.arch)
    &&& no_break(app.branch)
    &&& no_break(app.runtime_ref)
    &&& no_break(app.runtime_commit)
    &&& no_break(app.runtime_dir)
    &&& no_break(app.command)
}

/// An application as it is read once it was written down.
pub open spec fn app_back(app: AppView) -> AppView {
    AppView {
        app_id: trim_end(app.app_id),
        app_ref: trim_end(app.app_ref),
        app_commit: trim_end(app.app_commit),
        app_dir: trim_end(app.app_dir),
        arch: trim_end(app.arch),
        branch: trim_end(app.branch),
        runtime_ref: trim_end(app.runtime_ref),
        runtime_commit: trim_end(app.runtime_commit),
        runtime_dir: trim_end(app.runtime_dir),
        command: trim_end(app.command),
    }
}

/// Whether every field of an application can be written down so that it is read back.
pub open spec fn clean_app(app: AppView) -> bool {
    &&& clean_value(app.app_id)
    &&& clean_value(app.app_ref)
    &&& clean_value(app.app_commit)
    &&& clean_value(app.app_dir)
    &&& clean_value(app.arch)
    &&& clean_value(app.branch)
    &&& clean_value(app.runtime_ref)
    &&& clean_value(app.runtime_commit)
    &&& clean_value(app.runtime_dir)
    &&& clean_value(app.command)
}

proof fn lemma_nothing_missing(values: Seq<(Seq<char>, Seq<char>)>, keys: Seq<Seq<char>>)
    requires
        forall|i: int| 0 <= i < keys.len() ==> last_value(values, #[trigger] keys[i]) is Some,
    ensures
        first_missing(values, keys) is None,
    decreases keys.len(),
{
    if keys.len() > 0 {
        assert(last_value(values, keys[0]) is Some);
        let rest = keys.skip(1);
        assert forall|i: int| 0 <= i < rest.len() implies last_value(
            values,
            #[trigger] rest[i],
        ) is Some by {
            assert(rest[i] == keys[i + 1]);
        }
        lemma_nothing_missing(values, rest);
    }
}

/// An application that is written down is read back.
pub proof fn lemma_app_round_trip(app: AppView, path: Seq<char>)
    requires
        writable_app(app),
    ensures
        app_in(record_text(app_entries(app)), path) == Ok::<AppView, StateErrorView>(app_back(app)),
        clean_app(app) ==> app_back(app) == app,
{
    let entries = app_entries(app);
    let read = entries_back(entries);
    let keys = app_keys();
    lemma_app_keys();
    assert forall|i: int| 0 <= i < entries.len() implies (#[trigger] entries[i]).0 == keys[i]
        && no_break(entries[i].1) by {}
    assert forall|i: int| 0 <= i < entries.len() implies clean_key((#[trigger] entries[i]).0)
        && no_break(entries[i].1) by {
        assert(clean_key(keys[i]));
    }
    lemma_record_round_trip(entries, path);
    assert forall|i: int| 0 <= i < keys.len() implies last_value(read, #[trigger] keys[i]) == Some(
        trim_end(entries[i].1),
    ) by {
        assert(read[i].0 == keys[i]);
        assert forall|j: int| i < j < read.len() implies (#[trigger] read[j]).0 != read[i].0 by {
            assert(entries[j].0 == keys[j]);
        }
        lemma_last_is(read, i);
    }
    lemma_nothing_missing(read, keys);
    assert(keys[0] == "app_id"@ && keys[1] == "app_ref"@ && keys[2] == "app_commit"@);
    assert(keys[3] == "app_dir"@ && keys[4] == "arch"@ && keys[5] == "branch"@);
    assert(keys[6] == "runtime_ref"@ && keys[7] == "runtime_commit"@ && keys[8]
        == "runtime_dir"@);
    assert(keys[9] == "command"@);
    assert(app_of(read) == Ok::<AppView, StateErrorView>(app_back(app)));
}

/// A runtime that is written down is read back.
pub proof fn lemma_runtime_round_trip(runtime: RuntimeView, path: Seq<char>)
    requires
        no_break(runtime.runtime_ref),
        no_break(runtime.runtime_commit),
        no_break(runtime.runtime_dir),
    ensures
        runtime_in(record_text(runtime_entries(runtime)), path) == Ok::<
            RuntimeView,
            StateErrorView,
        >(
            RuntimeView {
                runtime_ref: trim_end(runtime.runtime_ref),
                runtime_commit: trim_end(runtime.runtime_commit),
                runtime_dir: trim_end(runtime.runtime_dir),
            },
        ),
        clean_value(runtime.runtime_ref) && clean_value(runtime.runtime_commit) && clean_value(
            runtime.runtime_dir,
        ) ==> runtime_in(record_text(runtime_entries(runtime)), path) == Ok::<
            RuntimeView,
            StateErrorView,
        >(runtime),
{
    let entries = runtime_entries(runtime);
    let read = entries_back(entries);
    let keys = runtime_keys();
    let all = app_keys();
    lemma_app_keys();
    assert(all[6] == keys[0] && all[7] == keys[1] && all[8] == keys[2]);
    assert(clean_key(all[6]) && clean_key(all[7]) && clean_key(all[8]));
    assert(all[6] != all[7] && all[6] != all[8] && all[7] != all[8]);
    lemma_record_round_trip(entries, path);
    lemma_last_is(read, 0);
    lemma_last_is(read, 1);
    lemma_last_is(read, 2);
    lemma_nothing_missing(read, keys);
}

/// The keys of the record of a running instance, in the order of the lines.
pub open spec fn run_keys() -> Seq<Seq<char>> {
    seq![
        "app_id"@,
        "instance_id"@,
        "root"@,
        "launcher_pid"@,
        "child_pid"@,
        "app_ref"@,
        "app_commit"@,
        "app_dir"@,
        "arch"@,
        "branch"@,
        "runtime_ref"@,
        "runtime_commit"@,
        "runtime_dir"@,
        "command"@,
        "extension_refs"@,
        "parent_root"@,
        "_path"@,
    ]
}

/// The keys of the record of a running instance are clean and differ from each other.
proof fn lemma_run_keys()
    ensures
        forall|i: int| 0 <= i < run_keys().len() ==> clean_key(#[trigger] run_keys()[i]),
        forall|i: int, j: int|
            0 <= i < j < run_keys().len() ==> (#[trigger] run_keys()[i]) != (
            #[trigger] run_keys()[j]),
{
    reveal_strlit("app_id");
    reveal_strlit("instance_id");
    reveal_strlit("root");
    reveal_strlit("launcher_pid");
    reveal_strlit("child_pid");
    reveal_strlit("app_ref");
    reveal_strlit("app_commit");
    reveal_strlit("app_dir");
    reveal_strlit("arch");
    reveal_strlit("branch");
    reveal_strlit("runtime_ref");
    reveal_strlit("runtime_commit");
    reveal_strlit("runtime_dir");
    reveal_strlit("command");
    reveal_strlit("extension_refs");
    reveal_strlit("parent_root");
    reveal_strlit("_path");
    assert("root"@[0] == 'r' && "arch"@[0] == 'a');
    assert("app_id"@[0] == 'a' && "branch"@[0] == 'b');
    assert("app_ref"@[4] == 'r' && "app_dir"@[4] == 'd');
    assert("app_ref"@[0] == 'a' && "app_dir"@[0] == 'a' && "command"@[0] == 'c');
    assert("instance_id"@[0] == 'i' && "runtime_ref"@[0] == 'r' && "runtime_dir"@[0] == 'r');
    assert("runtime_ref"@[8] == 'r' && "runtime_dir"@[8] == 'd');
    assert("runtime_commit"@[0] == 'r' && "extension_refs"@[0] == 'e');
    assert("parent_root"@[0] == 'p' && "_path"@[0] == '_');
}

/// A key that no entry has says nothing.
proof fn lemma_not_said(entries: Seq<(Seq<char>, Seq<char>)>, key: Seq<char>)
    requires
        forall|j: int| 0 <= j < entries.len() ==> (#[trigger] entries[j]).0 != key,
    ensures
        last_value(entries, key) is None,
    decreases entries.len(),
{
    if entries.len() > 0 {
        let head = entries.drop_last();
        assert(entries[entries.len() - 1].0 != key);
        assert forall|j: int| 0 <= j < head.len() implies (#[trigger] head[j]).0 != key by {
            assert(head[j] == entries[j]);
        }
        lemma_not_said(head, key);
    }
}

/// Entries with different keys are read back from the record of a running instance, and each key
/// has the value that was written down for it.
proof fn lemma_run_values(entries: Seq<(Seq<char>, Seq<char>)>, path: Seq<char>)
    requires
        writable_entries(entries),
        forall|i: int, j: int|
            0 <= i < j < entries.len() ==> (#[trigger] entries[i]).0 != (#[trigger] entries[j]).0,
        forall|i: int| 0 <= i < entries.len() ==> (#[trigger] entries[i]).0 != "_path"@,
    ensures
        run_values(record_text(entries), path) == Ok::<
            Seq<(Seq<char>, Seq<char>)>,
            StateErrorView,
        >(entries_back(entries).push(("_path"@, path))),
        forall|i: int|
            0 <= i < entries.len() ==> last_value(
                entries_back(entries).push(("_path"@, path)),
                (#[trigger] entries[i]).0,
            ) == Some(trim_end(entries[i].1)),
        last_value(entries_back(entries).push(("_path"@, path)), "_path"@) == Some(path),
{
    let values = entries_back(entries).push(("_path"@, path));
    lemma_record_round_trip(entries, path);
    assert forall|i: int| 0 <= i < entries.len() implies last_value(
        values,
        (#[trigger] entries[i]).0,
    ) == Some(trim_end(entries[i].1)) by {
        assert(values[i] == (entries[i].0, trim_end(entries[i].1)));
        assert forall|j: int| i < j < values.len() implies (#[trigger] values[j]).0
            != values[i].0 by {
            if j < entries.len() {
                assert(values[j].0 == entries[j].0);
            }
        }
        lemma_last_is(values, i);
    }
}

/// What a running instance writes down is read back from its record: where its root is and which
/// processes belong to it, the deployment that it uses, whatever is installed meanwhile, and its
/// extensions, which are named if and only if there are any. A value that ends in white space
/// loses that, and changes no other.
#[verifier::rlimit(60)]
pub proof fn lemma_pinned_round_trip(
    app: AppView,
    instance_id: Seq<char>,
    root: Seq<char>,
    launcher_pid: u32,
    child_pid: u32,
    extension_refs: Seq<Seq<char>>,
    path: Seq<char>,
)
    requires
        writable_app(app),
        no_break(instance_id),
        no_break(root),
        no_break(join(extension_refs, ";"@)),
    ensures
        ({
            let entries = run_entries(
                app.app_id,
                instance_id,
                root,
                launcher_pid,
                child_pid,
                Some(app),
                extension_refs,
            );
            let read = run_values(record_text(entries), path);
            &&& read is Ok
            &&& app_of(read->Ok_0) == Ok::<AppView, StateErrorView>(app_back(app))
            &&& clean_app(app) ==> app_of(read->Ok_0) == Ok::<AppView, StateErrorView>(app)
            &&& last_value(read->Ok_0, "app_commit"@) == Some(trim_end(app.app_commit))
            &&& last_value(read->Ok_0, "instance_id"@) == Some(trim_end(instance_id))
            &&& clean_value(instance_id) ==> last_value(read->Ok_0, "instance_id"@) == Some(
                instance_id,
            )
            &&& last_value(read->Ok_0, "root"@) == Some(trim_end(root))
            &&& clean_value(root) ==> last_value(read->Ok_0, "root"@) == Some(root)
            &&& last_value(read->Ok_0, "launcher_pid"@) == Some(decimal(launcher_pid as nat))
            &&& 0 < launcher_pid <= i32::MAX ==> launcher_of(read->Ok_0) == Some(
                launcher_pid as int,
            )
            &&& last_value(read->Ok_0, "child_pid"@) == Some(decimal(child_pid as nat))
            &&& last_value(read->Ok_0, "extension_refs"@) == (if extension_refs.len() > 0 {
                Some(trim_end(join(extension_refs, ";"@)))
            } else {
                None
            })
            &&& extension_refs.len() > 0 && clean_value(join(extension_refs, ";"@)) ==> last_value(
                read->Ok_0,
                "extension_refs"@,
            ) == Some(join(extension_refs, ";"@))
            &&& last_value(read->Ok_0, "_path"@) == Some(path)
        }),
{
    let entries = run_entries(
        app.app_id,
        instance_id,
        root,
        launcher_pid,
        child_pid,
        Some(app),
        extension_refs,
    );
    let values = entries_back(entries).push(("_path"@, path));
    let keys = run_keys();
    lemma_run_keys();
    lemma_clean_number(launcher_pid as nat);
    lemma_decimal(launcher_pid as nat);
    lemma_clean_number(child_pid as nat);
    assert(14 <= entries.len() <= 15);
    assert forall|i: int| 0 <= i < entries.len() implies (#[trigger] entries[i]).0 == keys[i]
        && no_break(entries[i].1) by {}
    assert forall|i: int| 0 <= i < entries.len() implies clean_key((#[trigger] entries[i]).0)
        && no_break(entries[i].1) && entries[i].0 != "_path"@ by {
        assert(clean_key(keys[i]));
        assert(keys[i] != keys[16]);
    }
    assert forall|i: int, j: int| 0 <= i < j < entries.len() implies (#[trigger] entries[i]).0 != (
    #[trigger] entries[j]).0 by {
        assert(keys[i] != keys[j]);
    }
    lemma_run_values(entries, path);
    assert forall|i: int| 0 <= i < entries.len() implies last_value(values, #[trigger] keys[i])
        == Some(trim_end(entries[i].1)) by {
        assert(entries[i].0 == keys[i]);
    }
    let own = app_keys();
    assert forall|i: int| 0 <= i < own.len() implies last_value(
        values,
        #[trigger] own[i],
    ) is Some by {
        if i == 0 {
            assert(own[0] == keys[0]);
        } else {
            assert(own[i] == keys[i + 4]);
        }
    }
    lemma_nothing_missing(values, own);
    assert(keys[0] == "app_id"@ && keys[1] == "instance_id"@ && keys[2] == "root"@);
    assert(keys[3] == "launcher_pid"@ && keys[4] == "child_pid"@);
    assert(keys[5] == "app_ref"@ && keys[6] == "app_commit"@ && keys[7] == "app_dir"@);
    assert(keys[8] == "arch"@ && keys[9] == "branch"@ && keys[10] == "runtime_ref"@);
    assert(keys[11] == "runtime_commit"@ && keys[12] == "runtime_dir"@ && keys[13]
        == "command"@);
    assert(keys[14] == "extension_refs"@);
    if extension_refs.len() == 0 {
        assert forall|j: int| 0 <= j < values.len() implies (#[trigger] values[j]).0
            != keys[14] by {
            if j < entries.len() {
                assert(values[j].0 == entries[j].0);
                assert(keys[j] != keys[14]);
            } else {
                assert(keys[14] != keys[16]);
            }
        }
        lemma_not_said(values, keys[14]);
    }
}

/// A nested sandbox that is written down is read back with its root and that of its parent.
pub proof fn lemma_nested_round_trip(
    app_id: Seq<char>,
    instance_id: Seq<char>,
    root: Seq<char>,
    parent_root: Seq<char>,
    launcher_pid: u32,
    launcher_active: bool,
    path: Seq<char>,
)
    requires
        no_break(app_id),
        no_break(instance_id),
        no_break(root),
        no_break(parent_root),
    ensures
        ({
            let entries = nested_run_entries(app_id, instance_id, root, parent_root, launcher_pid);
            let read = run_values(record_text(entries), path);
            &&& read is Ok
            &&& last_value(read->Ok_0, "app_id"@) == Some(trim_end(app_id))
            &&& last_value(read->Ok_0, "instance_id"@) == Some(trim_end(instance_id))
            &&& last_value(read->Ok_0, "launcher_pid"@) == Some(decimal(launcher_pid as nat))
            &&& 0 < launcher_pid <= i32::MAX ==> launcher_of(read->Ok_0) == Some(
                launcher_pid as int,
            )
            &&& ownership_of(read->Ok_0, launcher_active) == (OwnershipView {
                root: Some(trim_end(root)),
                parent_root: Some(trim_end(parent_root)),
                launcher_active,
                path: Some(path),
            })
            &&& clean_value(root) ==> trim_end(root) == root
            &&& clean_value(parent_root) ==> trim_end(parent_root) == parent_root
        }),
{
    let entries = nested_run_entries(app_id, instance_id, root, parent_root, launcher_pid);
    let keys = run_keys();
    lemma_run_keys();
    lemma_clean_number(launcher_pid as nat);
    lemma_decimal(launcher_pid as nat);
    assert(clean_key(keys[0]) && clean_key(keys[1]) && clean_key(keys[2]) && clean_key(keys[3])
        && clean_key(keys[15]));
    assert(keys[0] != keys[1] && keys[0] != keys[2] && keys[0] != keys[3] && keys[0] != keys[15]);
    assert(keys[1] != keys[2] && keys[1] != keys[3] && keys[1] != keys[15]);
    assert(keys[2] != keys[3] && keys[2] != keys[15] && keys[3] != keys[15]);
    assert(keys[0] != keys[16] && keys[1] != keys[16] && keys[2] != keys[16] && keys[3] != keys[16]
        && keys[15] != keys[16]);
    lemma_run_values(entries, path);
    assert(entries[0].0 == "app_id"@ && entries[1].0 == "instance_id"@);
    assert(entries[2].0 == "root"@ && entries[3].0 == "parent_root"@);
    assert(entries[4].0 == "launcher_pid"@);
}

/// A running instance that is written down is read back with its name, its root and its
/// processes.
pub proof fn lemma_run_round_trip(
    app_id: Seq<char>,
    instance_id: Seq<char>,
    root: Seq<char>,
    launcher_pid: u32,
    child_pid: u32,
    path: Seq<char>,
)
    requires
        no_break(app_id),
        no_break(instance_id),
        no_break(root),
    ensures
        ({
            let entries = run_entries(
                app_id,
                instance_id,
                root,
                launcher_pid,
                child_pid,
                None,
                Seq::empty(),
            );
            let read = run_values(record_text(entries), path);
            &&& read is Ok
            &&& last_value(read->Ok_0, "app_id"@) == Some(trim_end(app_id))
            &&& last_value(read->Ok_0, "instance_id"@) == Some(trim_end(instance_id))
            &&& last_value(read->Ok_0, "root"@) == Some(trim_end(root))
            &&& clean_value(app_id) ==> trim_end(app_id) == app_id
            &&& clean_value(instance_id) ==> trim_end(instance_id) == instance_id
            &&& clean_value(root) ==> trim_end(root) == root
            &&& last_value(read->Ok_0, "launcher_pid"@) == Some(decimal(launcher_pid as nat))
            &&& 0 < launcher_pid <= i32::MAX ==> launcher_of(read->Ok_0) == Some(
                launcher_pid as int,
            )
            &&& last_value(read->Ok_0, "child_pid"@) == Some(decimal(child_pid as nat))
            &&& last_value(read->Ok_0, "_path"@) == Some(path)
        }),
{
    let entries = run_entries(
        app_id,
        instance_id,
        root,
        launcher_pid,
        child_pid,
        None,
        Seq::empty(),
    );
    let keys = run_keys();
    lemma_run_keys();
    lemma_clean_number(launcher_pid as nat);
    lemma_decimal(launcher_pid as nat);
    lemma_clean_number(child_pid as nat);
    assert(entries.len() == 5);
    assert forall|i: int| 0 <= i < entries.len() implies (#[trigger] entries[i]).0 == keys[i]
        && no_break(entries[i].1) by {}
    assert forall|i: int| 0 <= i < entries.len() implies clean_key((#[trigger] entries[i]).0)
        && no_break(entries[i].1) && entries[i].0 != "_path"@ by {
        assert(clean_key(keys[i]));
        assert(keys[i] != keys[16]);
    }
    assert forall|i: int, j: int| 0 <= i < j < entries.len() implies (#[trigger] entries[i]).0 != (
    #[trigger] entries[j]).0 by {
        assert(keys[i] != keys[j]);
    }
    lemma_run_values(entries, path);
    assert(entries[0].0 == "app_id"@ && entries[1].0 == "instance_id"@);
    assert(entries[2].0 == "root"@ && entries[3].0 == "launcher_pid"@);
    assert(entries[4].0 == "child_pid"@);
}

proof fn lemma_clean_number(n: nat)
    ensures
        clean_value(decimal(n)),
{
    lemma_decimal(n);
    let s = decimal(n);
    assert forall|i: int| 0 <= i < s.len() implies s[i] != '\n' by {
        assert(is_digit(s[i]));
    }
    assert(is_digit(s[s.len() - 1]));
}

/// Two instances of an application whose names differ have records of their own.
pub proof fn lemma_run_records_distinct(
    paths: Installation,
    app_id: Seq<char>,
    first: Seq<char>,
    second: Seq<char>,
)
    requires
        sandbox_name_of(first) != sandbox_name_of(second),
    ensures
        run_path(paths, app_id, first) != run_path(paths, app_id, second),
{
    reveal_strlit(".");
    reveal_strlit(".ini");
    let app = sandbox_name_of(app_id);
    let (a, b) = (sandbox_name_of(first), sandbox_name_of(second));
    let f = app + "."@ + a + ".ini"@;
    let g = app + "."@ + b + ".ini"@;
    let runs = paths.spec_runs();
    lemma_sandbox_name(app_id);
    assert forall|j: int| 0 <= j < app.len() implies app[j] != '/' by {
        assert(app.contains(app[j]));
    }
    assert(f[0] != '/' && g[0] != '/') by {
        if app.len() > 0 {
            assert(f[0] == app[0] && g[0] == app[0]);
        } else {
            assert(f[0] == '.' && g[0] == '.');
        }
    }
    let p = joined(runs, f);
    let q = joined(runs, g);
    if p == q {
        assert(p.len() - f.len() == q.len() - g.len());
        let n = p.len() - f.len();
        assert(p.skip(n) =~= f);
        assert(q.skip(n) =~= g);
        let m = app.len() as int + 1;
        assert(f.subrange(m, f.len() - 4) =~= a);
        assert(g.subrange(m, g.len() - 4) =~= b);
        assert(false);
    }
}

/// The files of records once a record was written.
pub open spec fn with_record(
    files: Map<Seq<char>, Seq<char>>,
    write: (Seq<char>, Seq<char>),
) -> Map<Seq<char>, Seq<char>> {
    files.insert(write.0, write.1)
}

/// What is written down of an instance without its deployment: the path, and the text.
pub open spec fn run_write(
    paths: Installation,
    app_id: Seq<char>,
    instance_id: Seq<char>,
    root: Seq<char>,
    launcher_pid: u32,
    child_pid: u32,
) -> (Seq<char>, Seq<char>) {
    (
        run_path(paths, app_id, instance_id),
        record_text(
            run_entries(app_id, instance_id, root, launcher_pid, child_pid, None, Seq::empty()),
        ),
    )
}

/// Two instances of an application whose names differ are written down beside each other: each
/// record is read back with its own instance and root, whatever the other holds, and removing the
/// first leaves the second, and every other, as it was.
pub proof fn lemma_run_records_isolated(
    paths: Installation,
    app_id: Seq<char>,
    first: (Seq<char>, Seq<char>, u32, u32),
    second: (Seq<char>, Seq<char>, u32, u32),
    files: Map<Seq<char>, Seq<char>>,
)
    requires
        sandbox_name_of(first.0) != sandbox_name_of(second.0),
    ensures
        ({
            let (w1, w2) = (
                run_write(paths, app_id, first.0, first.1, first.2, first.3),
                run_write(paths, app_id, second.0, second.1, second.2, second.3),
            );
            let both = with_record(with_record(files, w1), w2);
            let left = both.remove(w1.0);
            &&& w1.0 != w2.0
            &&& both.dom() == files.dom().insert(w1.0).insert(w2.0)
            &&& both[w1.0] == w1.1
            &&& both[w2.0] == w2.1
            &&& left == with_record(files.remove(w1.0), w2)
            &&& left[w2.0] == w2.1
            &&& no_break(app_id) && no_break(first.0) && no_break(first.1) ==> instance_read(
                both[w1.0],
                w1.0,
                first.0,
                first.1,
            )
            &&& no_break(app_id) && no_break(second.0) && no_break(second.1) ==> instance_read(
                both[w2.0],
                w2.0,
                second.0,
                second.1,
            ) && instance_read(left[w2.0], w2.0, second.0, second.1)
        }),
{
    lemma_run_records_distinct(paths, app_id, first.0, second.0);
    let (w1, w2) = (
        run_write(paths, app_id, first.0, first.1, first.2, first.3),
        run_write(paths, app_id, second.0, second.1, second.2, second.3),
    );
    let both = with_record(with_record(files, w1), w2);
    if no_break(app_id) && no_break(first.0) && no_break(first.1) {
        lemma_run_round_trip(app_id, first.0, first.1, first.2, first.3, w1.0);
    }
    if no_break(app_id) && no_break(second.0) && no_break(second.1) {
        lemma_run_round_trip(app_id, second.0, second.1, second.2, second.3, w2.0);
    }
    assert(both.dom() =~= files.dom().insert(w1.0).insert(w2.0));
    assert(both.remove(w1.0) =~= with_record(files.remove(w1.0), w2));
}

/// Whether the text of a record is read with the instance and the root: as they are, where they
/// do not end in white space.
pub open spec fn instance_read(
    text: Seq<char>,
    path: Seq<char>,
    instance_id: Seq<char>,
    root: Seq<char>,
) -> bool {
    let read = run_values(text, path);
    &&& read is Ok
    &&& last_value(read->Ok_0, "instance_id"@) == Some(trim_end(instance_id))
    &&& clean_value(instance_id) ==> trim_end(instance_id) == instance_id
    &&& last_value(read->Ok_0, "root"@) == Some(trim_end(root))
    &&& clean_value(root) ==> trim_end(root) == root
}

/// Whether a path can be written on a line so that it is read back.
pub open spec fn clean_path(path: Seq<char>) -> bool {
    path.len() > 0 && no_break(path) && is_trimmed(path) && path[0] != '#'
}

proof fn lemma_exported(paths: Seq<Seq<char>>)
    requires
        forall|i: int| 0 <= i < paths.len() ==> clean_path(#[trigger] paths[i]),
    ensures
        exported_paths(paths) == paths,
    decreases paths.len(),
{
    reveal_strlit("#");
    if paths.len() > 0 {
        let head = paths.drop_last();
        assert forall|i: int| 0 <= i < head.len() implies clean_path(#[trigger] head[i]) by {
            assert(head[i] == paths[i]);
        }
        lemma_exported(head);
        let last = paths[paths.len() - 1];
        assert(clean_path(last));
        lemma_trim(last);
        if starts_with(last, "#"@) {
            assert(last.take(1)[0] == '#');
        }
        assert(exported_paths(paths) =~= paths);
    } else {
        assert(exported_paths(paths) =~= paths);
    }
}

/// What an application exports is read back as it was written down.
pub proof fn lemma_export_round_trip(paths: Seq<Seq<char>>)
    requires
        forall|i: int| 0 <= i < paths.len() ==> clean_path(#[trigger] paths[i]),
    ensures
        exported_paths(lines(ended_lines(paths))) == paths,
{
    assert forall|i: int| 0 <= i < paths.len() implies no_break(#[trigger] paths[i]) && chomp(
        paths[i],
    ) == paths[i] by {
        assert(clean_path(paths[i]));
    }
    lemma_lines_of_ended(paths);
    lemma_exported(paths);
}

} // verus!
