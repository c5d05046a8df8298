//! What the lines of records and of the table of mounts say, and which records are complete.

use crate::flatpak_metadata::last_value;
use crate::installation::Installation;
use crate::path::{same_path, within};
use crate::stale_sandbox_recovery::{mount_of_line, mounts_in, options_at, MountInfoView};
use crate::state::{
    app_keys, app_of, first_missing, installed_record, relative_in, runtime_keys, runtime_of,
    runtime_part, state_entries, state_line, AppView, StateErrorView, StateLine,
};
use crate::text::{is_trimmed, split_at_text, starts_with};
use crate::text_laws::{
    all_space, lemma_ends_are_cut, lemma_split_at_a_character, lemma_split_at_a_text,
    lemma_trimmed_exactly, stands_at,
};
use vstd::prelude::*;

verus! {

proof fn lemma_same_split(a: Seq<char>, b: Seq<char>, pattern: Seq<char>)
    requires
        pattern.len() > 0,
        forall|k: int| 0 <= k < a.len() ==> !stands_at(a + pattern + b, pattern, k),
    ensures
        split_at_text(a + pattern + b, pattern) == Some((a, b)),
{
    let s = a + pattern + b;
    let n = a.len() as int;
    lemma_split_at_a_text(s, pattern);
    assert(s.subrange(n, n + pattern.len()) =~= pattern);
    assert(stands_at(s, pattern, n));
    let (x, y) = split_at_text(s, pattern)->0;
    let m = x.len() as int;
    assert(s =~= x + pattern + y);
    if m < n {
        assert(s.subrange(m, m + pattern.len()) =~= pattern);
        assert(stands_at(s, pattern, m));
    }
    if n < m {
        assert(!stands_at(s, pattern, n));
    }
    assert(x =~= s.take(n));
    assert(a =~= s.take(n));
    assert(y =~= s.skip(n + pattern.len()));
    assert(b =~= s.skip(n + pattern.len()));
}

/// A line of the table of mounts gives what is mounted, where, and with which options: the first
/// ` on ` ends the source, the first ` (` behind that the place, and the options stand in brackets.
pub proof fn lemma_lines_of_the_mount_table(
    source: Seq<char>,
    place: Seq<char>,
    options: Seq<char>,
)
    requires
        !source.contains(' '),
        !place.contains('('),
        options.len() > 0 ==> options.last() != ')',
    ensures
        mount_of_line(source + " on "@ + place + " ("@ + options + ")"@) == Some(
            MountInfoView { source, mountpoint: place, options },
        ),
{
    reveal_strlit(" on ");
    reveal_strlit(" (");
    reveal_strlit(")");
    let rest = place + " ("@ + (options + ")"@);
    let line = source + " on "@ + place + " ("@ + options + ")"@;
    assert(line =~= source + " on "@ + rest);
    assert forall|k: int| 0 <= k < source.len() implies !stands_at(
        source + " on "@ + rest,
        " on "@,
        k,
    ) by {
        let s = source + " on "@ + rest;
        if stands_at(s, " on "@, k) {
            assert(s.subrange(k, k + 4)[0] == s[k]);
            assert(" on "@[0] == ' ');
            assert(source[k] == ' ');
        }
    }
    lemma_same_split(source, rest, " on "@);
    assert forall|k: int| 0 <= k < place.len() implies !stands_at(rest, " ("@, k) by {
        if stands_at(rest, " ("@, k) {
            assert(rest.subrange(k, k + 2)[1] == rest[k + 1]);
            assert(" ("@[1] == '(');
            if k + 1 < place.len() {
                assert(place[k + 1] == '(');
            } else {
                assert(rest[k + 1] == " ("@[0]);
            }
        }
    }
    lemma_same_split(place, options + ")"@, " ("@);
    lemma_ends_are_cut(options, ')', 1);
    assert(Seq::new(1, |i: int| ')') =~= ")"@);
}

/// Whether a line tells of the mount.
pub open spec fn tells_of(line: Seq<char>, mount: MountInfoView) -> bool {
    mount_of_line(line) == Some(mount)
}

proof fn lemma_mounts_of_lines(ls: Seq<Seq<char>>, x: MountInfoView)
    ensures
        mounts_in(ls).contains(x) <==> exists|i: int|
            0 <= i < ls.len() && tells_of(#[trigger] ls[i], x),
    decreases ls.len(),
{
    let all = mounts_in(ls);
    if ls.len() > 0 {
        let head = ls.drop_last();
        let before = mounts_in(head);
        lemma_mounts_of_lines(head, x);
        if before.contains(x) {
            let i = choose|i: int| 0 <= i < head.len() && tells_of(#[trigger] head[i], x);
            assert(ls[i] == head[i]);
            let k = choose|k: int| 0 <= k < before.len() && before[k] == x;
            assert(all[k] == x);
        }
        if tells_of(ls[ls.len() - 1], x) {
            assert(all[before.len() as int] == x);
        }
        if all.contains(x) && !before.contains(x) {
            let k = choose|k: int| 0 <= k < all.len() && all[k] == x;
            if k < before.len() {
                assert(before[k] == x);
            }
            assert(tells_of(ls[ls.len() - 1], x));
        }
        if exists|i: int| 0 <= i < ls.len() && tells_of(#[trigger] ls[i], x) {
            let i = choose|i: int|
                0 <= i < ls.len() && tells_of(#[trigger] ls[i], x);
            if i < head.len() {
                assert(head[i] == ls[i]);
            }
        }
    }
}

/// A mount is one of the system's if and only if a line of the table tells of it.
pub proof fn lemma_the_mount_table_is_read(ls: Seq<Seq<char>>, mount: MountInfoView)
    ensures
        mounts_in(ls).contains(mount) <==> exists|i: int|
            0 <= i < ls.len() && tells_of(#[trigger] ls[i], mount),
{
    lemma_mounts_of_lines(ls, mount);
}

/// The options of a path are those of the first mount at it, from a place on.
pub proof fn lemma_options_of_the_first_mount(
    mounts: Seq<MountInfoView>,
    path: Seq<char>,
    from: int,
    k: int,
)
    requires
        0 <= from <= k <= mounts.len(),
        forall|i: int| from <= i < k ==> !same_path((#[trigger] mounts[i]).mountpoint, path),
        k < mounts.len() ==> same_path(mounts[k].mountpoint, path),
    ensures
        options_at(mounts, path, from) == (if k < mounts.len() {
            Some(mounts[k].options)
        } else {
            None
        }),
    decreases k - from,
{
    if from < k {
        lemma_options_of_the_first_mount(mounts, path, from + 1, k);
    }
}

/// A line of a record is an entry if it holds a `=` and does not begin with a `#`; the first `=` ends
/// the key. A line that begins with a `#`, or holds white space alone, says nothing, and any other
/// cannot be read.
pub proof fn lemma_lines_of_a_record(
    before: Seq<char>,
    line: Seq<char>,
    after: Seq<char>,
    key: Seq<char>,
    value: Seq<char>,
)
    requires
        all_space(before),
        all_space(after),
        is_trimmed(line),
    ensures
        line.len() == 0 || line[0] == '#' <==> state_line(before + line + after)
            == StateLine::Nothing,
        line.len() > 0 && line[0] != '#' && !line.contains('=') <==> state_line(
            before + line + after,
        ) == StateLine::Invalid(line),
        line == key + seq!['='] + value && !key.contains('=') && line[0] != '#' ==> state_line(
            before + line + after,
        ) == StateLine::Entry(key, value),
{
    lemma_trimmed_exactly(before, line, after);
    reveal_strlit("#");
    let mark = "#"@;
    if line.len() > 0 {
        if line[0] == '#' {
            assert(line.take(1) =~= mark);
        } else if starts_with(line, mark) {
            assert(line.take(1)[0] == mark[0]);
        }
    }
    lemma_split_at_a_character(line, line, '=');
    lemma_split_at_a_character(key, value, '=');
}

/// A record can be read if and only if each of its lines can, and what cannot be read of it is the
/// first line that cannot.
pub proof fn lemma_records_are_read_whole(ls: Seq<Seq<char>>, path: Seq<char>, n: int)
    requires
        0 <= n <= ls.len(),
        forall|i: int| 0 <= i < n ==> !(state_line(#[trigger] ls[i]) is Invalid),
        n < ls.len() ==> state_line(ls[n]) is Invalid,
    ensures
        n == ls.len() ==> state_entries(ls, path) is Ok,
        n < ls.len() ==> state_entries(ls, path) == Err::<
            Seq<(Seq<char>, Seq<char>)>,
            StateErrorView,
        >(StateErrorView::InvalidLine(path, state_line(ls[n])->Invalid_0)),
    decreases ls.len(),
{
    if ls.len() > 0 {
        let head = ls.drop_last();
        if n < ls.len() {
            if n < head.len() {
                assert(head[n] == ls[n]);
                lemma_records_are_read_whole(head, path, n);
            } else {
                lemma_records_are_read_whole(head, path, n);
                assert(ls.last() == ls[n]);
            }
        } else {
            lemma_records_are_read_whole(head, path, n - 1);
            assert(ls.last() == ls[n - 1]);
        }
    }
}

/// What a record says of a key.
pub open spec fn said(values: Seq<(Seq<char>, Seq<char>)>, key: Seq<char>) -> bool {
    last_value(values, key) is Some
}

proof fn lemma_missing(values: Seq<(Seq<char>, Seq<char>)>, keys: Seq<Seq<char>>)
    ensures
        first_missing(values, keys) is None <==> forall|i: int|
            0 <= i < keys.len() ==> said(values, #[trigger] keys[i]),
        first_missing(values, keys) matches Some(key) ==> !said(values, key) && exists|i: int|
            0 <= i < keys.len() && #[trigger] keys[i] == key && forall|k: int|
                0 <= k < i ==> said(values, #[trigger] keys[k]),
    decreases keys.len(),
{
    if keys.len() > 0 && said(values, keys[0]) {
        let rest = keys.skip(1);
        lemma_missing(values, rest);
        assert forall|i: int| 0 <= i < rest.len() implies #[trigger] rest[i] == keys[i + 1] by {}
        if first_missing(values, rest) is None {
            assert forall|i: int| 0 <= i < keys.len() implies said(values, #[trigger] keys[i]) by {
                if i > 0 {
                    assert(rest[i - 1] == keys[i]);
                }
            }
        } else {
            let key = first_missing(values, rest)->0;
            let i = choose|i: int|
                0 <= i < rest.len() && #[trigger] rest[i] == key && forall|k: int|
                    0 <= k < i ==> said(values, #[trigger] rest[k]);
            assert(keys[i + 1] == key);
            assert forall|k: int| 0 <= k < i + 1 implies said(values, #[trigger] keys[k]) by {
                if k > 0 {
                    assert(rest[k - 1] == keys[k]);
                }
            }
        }
    } else if keys.len() > 0 {
        assert(keys[0] == keys[0]);
    }
}

/// The record of an application names it, its reference, its commit, its directory, its architecture
/// and its branch, the same of its runtime but for the last two, and the command that it runs. Each
/// must be there, and is what the record says of it.
pub proof fn lemma_records_of_applications(values: Seq<(Seq<char>, Seq<char>)>)
    ensures
        app_of(values) is Ok <==> said(values, "app_id"@) && said(values, "app_ref"@) && said(
            values,
            "app_commit"@,
        ) && said(values, "app_dir"@) && said(values, "arch"@) && said(values, "branch"@) && said(
            values,
            "runtime_ref"@,
        ) && said(values, "runtime_commit"@) && said(values, "runtime_dir"@) && said(
            values,
            "command"@,
        ),
        app_of(values) matches Ok(app) ==> {
            &&& last_value(values, "app_id"@) == Some(app.app_id)
            &&& last_value(values, "app_ref"@) == Some(app.app_ref)
            &&& last_value(values, "app_commit"@) == Some(app.app_commit)
            &&& last_value(values, "app_dir"@) == Some(app.app_dir)
            &&& last_value(values, "arch"@) == Some(app.arch)
            &&& last_value(values, "branch"@) == Some(app.branch)
            &&& last_value(values, "runtime_ref"@) == Some(app.runtime_ref)
            &&& last_value(values, "runtime_commit"@) == Some(app.runtime_commit)
            &&& last_value(values, "runtime_dir"@) == Some(app.runtime_dir)
            &&& last_value(values, "command"@) == Some(app.command)
        },
        app_of(values) matches Err(error) ==> (error matches StateErrorView::Missing(key) && !said(
            values,
            key,
        )),
        !said(values, "app_id"@) ==> app_of(values) == Err::<AppView, StateErrorView>(
            StateErrorView::Missing("app_id"@),
        ),
{
    lemma_missing(values, app_keys());
    let keys = app_keys();
    assert(keys[0] == "app_id"@ && keys[1] == "app_ref"@ && keys[2] == "app_commit"@ && keys[3]
        == "app_dir"@ && keys[4] == "arch"@ && keys[5] == "branch"@ && keys[6] == "runtime_ref"@
        && keys[7] == "runtime_commit"@ && keys[8] == "runtime_dir"@ && keys[9] == "command"@);
}

/// The record of a runtime names its reference, its commit and its directory, and each must be there.
pub proof fn lemma_records_of_runtimes(values: Seq<(Seq<char>, Seq<char>)>)
    ensures
        runtime_of(values) is Ok <==> said(values, "runtime_ref"@) && said(
            values,
            "runtime_commit"@,
        ) && said(values, "runtime_dir"@),
        runtime_of(values) matches Ok(runtime) ==> {
            &&& last_value(values, "runtime_ref"@) == Some(runtime.runtime_ref)
            &&& last_value(values, "runtime_commit"@) == Some(runtime.runtime_commit)
            &&& last_value(values, "runtime_dir"@) == Some(runtime.runtime_dir)
        },
        runtime_of(values) matches Err(error) ==> (error matches StateErrorView::Missing(key)
            && !said(values, key)),
{
    lemma_missing(values, runtime_keys());
    let keys = runtime_keys();
    assert(keys[0] == "runtime_ref"@ && keys[1] == "runtime_commit"@ && keys[2] == "runtime_dir"@);
}

/// An application can be written down if and only if it and its runtime lie in the installation; what
/// does not is named, the application first. Nothing but the two directories is changed.
pub proof fn lemma_installed_below_the_installation(paths: Installation, installed: AppView)
    ensures
        installed_record(paths, installed) is Ok <==> within(installed.app_dir, paths.data_root@)
            && within(installed.runtime_dir, paths.data_root@),
        !within(installed.app_dir, paths.data_root@) ==> installed_record(paths, installed) == Err::<
            AppView,
            StateErrorView,
        >(StateErrorView::OutsideDataRoot(installed.app_dir)),
        within(installed.app_dir, paths.data_root@) && !within(
            installed.runtime_dir,
            paths.data_root@,
        ) ==> installed_record(paths, installed) == Err::<AppView, StateErrorView>(
            StateErrorView::OutsideDataRoot(installed.runtime_dir),
        ),
        installed_record(paths, installed) matches Ok(app) ==> {
            &&& app.app_id == installed.app_id
            &&& app.app_ref == installed.app_ref
            &&& app.app_commit == installed.app_commit
            &&& app.arch == installed.arch
            &&& app.branch == installed.branch
            &&& app.runtime_ref == installed.runtime_ref
            &&& app.runtime_commit == installed.runtime_commit
            &&& app.command == installed.command
            &&& relative_in(paths, installed.app_dir) == Some(app.app_dir)
            &&& relative_in(paths, installed.runtime_dir) == Some(app.runtime_dir)
        },
        runtime_part(installed).runtime_ref == installed.runtime_ref,
        runtime_part(installed).runtime_commit == installed.runtime_commit,
        runtime_part(installed).runtime_dir == installed.runtime_dir,
{
}

} // verus!
