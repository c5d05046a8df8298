//! What an application finds in its environment.

use crate::architecture::FlatpakArchitecture;
use crate::flatpak_metadata::{last_value, list_items, value_of};
use crate::launch_environment::{
    base_variables, expanded, first_value, lemma_set_first, lemma_unset_are_gone, library_dirs,
    merged_env, runtime_dirs, session_variables, value_or_empty, variable_length, with_host_value,
    with_option, with_paths_before, with_paths_behind, without_unset, without_variable,
    SessionSettings,
};
use crate::numbers::decimal;
use crate::path::{components, joined, path_after, within};
use crate::spawn_broker::{lemma_variable_place, variable_place};
use crate::text::{
    join, lemma_first_index_unique, lemma_join_split, lemma_split_join, split, starts_with,
    ends_with,
};
use vstd::prelude::*;

verus! {

proof fn lemma_expanded_after(plain: Seq<char>, rest: Seq<char>, env: Seq<(Seq<char>, Seq<char>)>)
    requires
        !plain.contains('$'),
    ensures
        expanded(plain + rest, env) == plain + expanded(rest, env),
    decreases plain.len(),
{
    if plain.len() == 0 {
        assert(plain + rest =~= rest);
        assert(plain + expanded(rest, env) =~= expanded(rest, env));
    } else {
        let tail = plain.skip(1);
        assert(plain.contains(plain[0]));
        assert(!tail.contains('$')) by {
            if tail.contains('$') {
                let i = choose|i: int| 0 <= i < tail.len() && tail[i] == '$';
                assert(plain[i + 1] == '$');
                assert(plain.contains('$'));
            }
        }
        lemma_expanded_after(tail, rest, env);
        assert((plain + rest).skip(1) =~= tail + rest);
        assert(seq![plain[0]] + (tail + expanded(rest, env)) =~= plain + expanded(rest, env));
    }
}

/// Whether a character is an underscore, a letter or a digit.
pub open spec fn is_word_char(c: char) -> bool {
    c == '_' || ('a' <= c && c <= 'z') || ('A' <= c && c <= 'Z') || ('0' <= c && c <= '9')
}

proof fn lemma_name_length(name: Seq<char>, rest: Seq<char>)
    requires
        forall|i: int| 0 <= i < name.len() ==> is_word_char(#[trigger] name[i]),
        rest.len() > 0 ==> !is_word_char(rest[0]),
    ensures
        variable_length(name + rest) == name.len(),
    decreases name.len(),
{
    if name.len() == 0 {
        assert(name + rest =~= rest);
    } else {
        let tail = name.skip(1);
        assert forall|i: int| 0 <= i < tail.len() implies is_word_char(#[trigger] tail[i]) by {
            assert(tail[i] == name[i + 1]);
        }
        assert(is_word_char(name[0]));
        assert((name + rest).skip(1) =~= tail + rest);
        lemma_name_length(tail, rest);
    }
}

/// In a value, `${NAME}` stands for what the variable of that name holds, and so does `$NAME` up to
/// the first character that is no underscore, letter or digit; what stands around it stays as it
/// is. A variable that is not set holds nothing.
pub proof fn lemma_variables_are_filled_in(
    plain: Seq<char>,
    name: Seq<char>,
    rest: Seq<char>,
    env: Seq<(Seq<char>, Seq<char>)>,
)
    requires
        !plain.contains('$'),
        !name.contains('}'),
    ensures
        expanded(plain + "${"@ + name + "}"@ + rest, env) == plain + (match last_value(env, name) {
            Some(value) => value,
            None => Seq::empty(),
        }) + expanded(rest, env),
        name.len() > 0 && (forall|i: int| 0 <= i < name.len() ==> is_word_char(#[trigger] name[i]))
            && (rest.len() > 0 ==> !is_word_char(rest[0])) ==> expanded(
            plain + "$"@ + name + rest,
            env,
        ) == plain + (match last_value(env, name) {
            Some(value) => value,
            None => Seq::empty(),
        }) + expanded(rest, env),
{
    reveal_strlit("${");
    reveal_strlit("$");
    reveal_strlit("}");
    let value = value_or_empty(env, name);
    let braced = "${"@ + name + "}"@ + rest;
    assert(plain + "${"@ + name + "}"@ + rest =~= plain + braced);
    lemma_expanded_after(plain, braced, env);
    let inner = name + "}"@ + rest;
    assert(braced.skip(2) =~= inner);
    let n = name.len() as int;
    assert forall|j: int| 0 <= j < n implies inner[j] != '}' by {
        assert(inner[j] == name[j]);
        assert(name.contains(name[j]));
    }
    assert(inner[n] == '}');
    lemma_first_index_unique(inner, '}', n);
    assert(inner.take(n) =~= name);
    assert(inner.skip(n + 1) =~= rest);
    assert(expanded(braced, env) == value + expanded(rest, env));
    assert(plain + (value + expanded(rest, env)) =~= plain + value + expanded(rest, env));
    if name.len() > 0 && (forall|i: int|
        0 <= i < name.len() ==> is_word_char(#[trigger] name[i])) && (rest.len() > 0
        ==> !is_word_char(rest[0])) {
        let bare = "$"@ + name + rest;
        assert(plain + "$"@ + name + rest =~= plain + bare);
        lemma_expanded_after(plain, bare, env);
        assert(bare.skip(1) =~= name + rest);
        lemma_name_length(name, rest);
        assert(is_word_char(name[0]));
        assert(bare[1] == name[0]);
        assert((name + rest).take(n) =~= name);
        assert((name + rest).skip(n) =~= rest);
        assert(expanded(bare, env) == value + expanded(rest, env));
    }
}

proof fn lemma_join_concat(a: Seq<Seq<char>>, b: Seq<Seq<char>>, sep: Seq<char>)
    requires
        a.len() > 0,
        b.len() > 0,
    ensures
        join(a + b, sep) == join(a, sep) + sep + join(b, sep),
    decreases b.len(),
{
    let all = a + b;
    assert(all.drop_last() =~= a + b.drop_last());
    assert(all.last() == b.last());
    if b.len() == 1 {
        assert(a + b.drop_last() =~= a);
    } else {
        lemma_join_concat(a, b.drop_last(), sep);
        assert(join(all, sep) =~= join(a, sep) + sep + join(b, sep));
    }
}

proof fn lemma_lists_follow(a: Seq<Seq<char>>, b: Seq<Seq<char>>)
    requires
        a.len() > 0,
        b.len() > 0,
        forall|i: int| 0 <= i < a.len() ==> !(#[trigger] a[i]).contains(':'),
        forall|i: int| 0 <= i < b.len() ==> !(#[trigger] b[i]).contains(':'),
    ensures
        split(join(a, ":"@) + ":"@ + join(b, ":"@), ':') == a + b,
{
    reveal_strlit(":");
    assert(":"@ =~= seq![':']);
    let all = a + b;
    lemma_join_concat(a, b, ":"@);
    assert forall|i: int| 0 <= i < all.len() implies !(#[trigger] all[i]).contains(':') by {
        if i < a.len() {
            assert(all[i] == a[i]);
        } else {
            assert(all[i] == b[i - a.len()]);
        }
    }
    lemma_join_split(all, ':');
}

/// A variable that holds a list of directories is searched from the left. Paths that are put before
/// what it holds are found first, and paths that are put behind it last; each in its own order, and
/// nothing that was there is lost.
pub proof fn lemma_search_order(
    env: Seq<(Seq<char>, Seq<char>)>,
    key: Seq<char>,
    paths: Seq<Seq<char>>,
)
    requires
        paths.len() > 0,
        forall|i: int| 0 <= i < paths.len() ==> !(#[trigger] paths[i]).contains(':'),
    ensures
        ({
            let old_paths = match first_value(env, key) {
                Some(value) => if value.len() == 0 {
                    Seq::empty()
                } else {
                    split(value, ':')
                },
                None => Seq::empty(),
            };
            let before = first_value(with_paths_before(env, key, paths), key);
            let behind = first_value(with_paths_behind(env, key, paths), key);
            &&& before is Some && split(before->0, ':') == paths + old_paths
            &&& behind is Some && split(behind->0, ':') == old_paths + paths
        }),
{
    reveal_strlit(":");
    assert(":"@ =~= seq![':']);
    lemma_join_split(paths, ':');
    let none = Seq::<Seq<char>>::empty();
    assert(paths + none =~= paths);
    assert(none + paths =~= paths);
    let text = join(paths, ":"@);
    match first_value(env, key) {
        None => {
            lemma_variable_place(env, key, 0);
            lemma_first_pushed(env, key, text);
        },
        Some(value) => {
            lemma_set_first(env, key, text, key);
            lemma_set_first(env, key, text + ":"@ + value, key);
            lemma_set_first(env, key, value + ":"@ + text, key);
            if value.len() > 0 {
                lemma_split_join(value, ':');
                lemma_lists_follow(paths, split(value, ':'));
                lemma_lists_follow(split(value, ':'), paths);
            }
        },
    }
}

proof fn lemma_first_pushed(env: Seq<(Seq<char>, Seq<char>)>, key: Seq<char>, value: Seq<char>)
    requires
        forall|i: int| 0 <= i < env.len() ==> (#[trigger] env[i]).0 != key,
    ensures
        first_value(env.push((key, value)), key) == Some(value),
{
    let all = env.push((key, value));
    lemma_variable_place(all, key, 0);
    let n = env.len() as int;
    assert(all[n] == (key, value));
    if let Some(i) = variable_place(all, key, 0) {
        if i < n {
            assert(all[i] == env[i]);
        }
    }
}

/// Of the environment exactly those variables are left that the metadata does not name in the list
/// `unset-environment` of the section `Context`.
pub proof fn lemma_unset_exactly(
    env: Seq<(Seq<char>, Seq<char>)>,
    metadata: Seq<char>,
    pair: (Seq<char>, Seq<char>),
)
    requires
        pair.0.len() > 0 ==> pair.0[0] != '!',
    ensures
        without_unset(env, metadata).contains(pair) <==> env.contains(pair) && (value_of(
            metadata,
            "Context"@,
            "unset-environment"@,
        ) matches Some(names) ==> !list_items(names).contains(pair.0)),
{
    reveal_strlit("!");
    lemma_unset_are_gone(env, metadata, pair);
    if starts_with(pair.0, "!"@) {
        assert(pair.0.take(1)[0] == '!');
    }
}

/// A variable that is taken out is gone, and every other is as it was.
pub proof fn lemma_taken_out(
    env: Seq<(Seq<char>, Seq<char>)>,
    key: Seq<char>,
    pair: (Seq<char>, Seq<char>),
)
    ensures
        without_variable(env, key).contains(pair) <==> env.contains(pair) && pair.0 != key,
    decreases env.len(),
{
    if env.len() > 0 {
        let head = env.drop_last();
        let last = env[env.len() - 1];
        lemma_taken_out(head, key, pair);
        let before = without_variable(head, key);
        let all = without_variable(env, key);
        assert(all == (if last.0 != key {
            before.push(last)
        } else {
            before
        }));
        if before.contains(pair) {
            let i = choose|i: int| 0 <= i < before.len() && before[i] == pair;
            assert(all[i] == pair);
            let k = choose|k: int| 0 <= k < head.len() && head[k] == pair;
            assert(env[k] == pair);
        }
        if last == pair && pair.0 != key {
            assert(all[before.len() as int] == pair);
        }
        if env.contains(pair) && last != pair {
            let k = choose|k: int| 0 <= k < env.len() && env[k] == pair;
            assert(head[k] == pair);
        }
        if all.contains(pair) && last != pair {
            let i = choose|i: int| 0 <= i < all.len() && all[i] == pair;
            assert(before[i] == pair);
        }
    }
}

/// An update takes the place of what a variable held; a variable without an update keeps its value.
pub proof fn lemma_updates_win(
    env: Seq<(Seq<char>, Seq<char>)>,
    updates: Seq<(Seq<char>, Seq<char>)>,
    key: Seq<char>,
)
    ensures
        first_value(merged_env(env, updates), key) == (match last_value(updates, key) {
            Some(value) => Some(value),
            None => first_value(env, key),
        }),
    decreases updates.len(),
{
    if updates.len() > 0 {
        let head = updates.drop_last();
        lemma_updates_win(env, head, key);
        lemma_set_first(merged_env(env, head), updates.last().0, updates.last().1, key);
    }
}

/// A variable whose name ends in `_DIR` and whose value lies in the application's own directory at
/// run time has a directory made for it: the one that the host has at the same place below its own
/// directory for the user. No other directory is made.
pub proof fn lemma_runtime_directories(
    env: Seq<(Seq<char>, Seq<char>)>,
    host_runtime_dir: Seq<char>,
    uid: u32,
    app_id: Seq<char>,
    directory: Seq<char>,
)
    ensures
        runtime_dirs(env, host_runtime_dir, uid, app_id).contains(directory) <==> exists|i: int|
            0 <= i < env.len() && is_runtime_directory(
                #[trigger] env[i],
                host_runtime_dir,
                "/run/user/"@ + decimal(uid as nat),
                app_id,
                directory,
            ),
    decreases env.len(),
{
    let prefix = "/run/user/"@ + decimal(uid as nat);
    let all = runtime_dirs(env, host_runtime_dir, uid, app_id);
    if env.len() > 0 {
        let head = env.drop_last();
        let last = env[env.len() - 1];
        let before = runtime_dirs(head, host_runtime_dir, uid, app_id);
        lemma_runtime_directories(head, host_runtime_dir, uid, app_id, directory);
        if before.contains(directory) {
            let i = choose|i: int|
                0 <= i < head.len() && is_runtime_directory(
                    #[trigger] head[i],
                    host_runtime_dir,
                    prefix,
                    app_id,
                    directory,
                );
            assert(env[i] == head[i]);
            let k = choose|k: int| 0 <= k < before.len() && before[k] == directory;
            assert(all[k] == directory);
        }
        if is_runtime_directory(last, host_runtime_dir, prefix, app_id, directory) {
            assert(all[before.len() as int] == directory);
        }
        if all.contains(directory) && !before.contains(directory) {
            let k = choose|k: int| 0 <= k < all.len() && all[k] == directory;
            if k < before.len() {
                assert(before[k] == directory);
            }
            assert(is_runtime_directory(
                env[env.len() - 1],
                host_runtime_dir,
                prefix,
                app_id,
                directory,
            ));
        }
        if exists|i: int|
            0 <= i < env.len() && is_runtime_directory(
                #[trigger] env[i],
                host_runtime_dir,
                prefix,
                app_id,
                directory,
            ) {
            let i = choose|i: int|
                0 <= i < env.len() && is_runtime_directory(
                    #[trigger] env[i],
                    host_runtime_dir,
                    prefix,
                    app_id,
                    directory,
                );
            if i < head.len() {
                assert(head[i] == env[i]);
            }
        }
    }
}

/// Whether a directory of the host stands for a variable that names a directory of the application
/// at run time.
pub open spec fn is_runtime_directory(
    variable: (Seq<char>, Seq<char>),
    host_runtime_dir: Seq<char>,
    prefix: Seq<char>,
    app_id: Seq<char>,
    directory: Seq<char>,
) -> bool {
    &&& ends_with(variable.0, "_DIR"@)
    &&& within(variable.1, prefix)
    &&& within(variable.1, prefix + "/app/"@ + app_id)
    &&& directory == joined(host_runtime_dir, path_after(variable.1, components(prefix).len()))
}

/// An application finds out what it is, where it is at home and where its files are: they are in
/// `/var`, and its own programs, libraries and data in `/app` come before those of its runtime in
/// `/usr`.
pub proof fn lemma_applications_find_their_files(
    app_id: Seq<char>,
    wayland_display: Seq<char>,
    architecture: FlatpakArchitecture,
    uid: u32,
    user: Seq<char>,
    host_data_home: Seq<char>,
)
    ensures
        ({
            let env = base_variables(
                app_id,
                wayland_display,
                architecture,
                uid,
                user,
                host_data_home,
            );
            &&& env.contains(("FLATPAK_ID"@, app_id))
            &&& env.contains(("container"@, "flatpak"@))
            &&& env.contains(("USER"@, user))
            &&& env.contains(("LOGNAME"@, user))
            &&& env.contains(("HOME"@, "/var/data"@))
            &&& env.contains(("XDG_DATA_HOME"@, "/var/data"@))
            &&& env.contains(("XDG_CONFIG_HOME"@, "/var/config"@))
            &&& env.contains(("XDG_CACHE_HOME"@, "/var/cache"@))
            &&& env.contains(("HOST_XDG_DATA_HOME"@, host_data_home))
            &&& env.contains(("XDG_RUNTIME_DIR"@, "/run/user/"@ + decimal(uid as nat)))
            &&& env.contains(("WAYLAND_DISPLAY"@, wayland_display))
            &&& env.contains(("XDG_SESSION_TYPE"@, "wayland"@))
            &&& env.contains(("PATH"@, "/app/bin:/usr/bin:/bin"@))
            &&& env.contains(("XDG_CONFIG_DIRS"@, "/app/etc/xdg:/etc/xdg"@))
            &&& env.contains(
                (
                    "XDG_DATA_DIRS"@,
                    "/app/share:/usr/share:/usr/share/runtime/share:/run/host/share"@,
                ),
            )
            &&& env.contains(
                (
                    "LD_LIBRARY_PATH"@,
                    join(
                        seq![
                            "/app/lib"@,
                            "/app/lib64"@,
                            "/usr/lib/"@ + architecture.spec_name() + "-linux-gnu"@,
                            "/usr/lib"@,
                            "/usr/lib64"@,
                        ],
                        ":"@,
                    ),
                ),
            )
        }),
{
    let env = base_variables(app_id, wayland_display, architecture, uid, user, host_data_home);
    assert(env[5] == ("FLATPAK_ID"@, app_id));
    assert(env[4] == ("container"@, "flatpak"@));
    assert(env[1] == ("USER"@, user));
    assert(env[2] == ("LOGNAME"@, user));
    assert(env[0] == ("HOME"@, "/var/data"@));
    assert(env[14] == ("XDG_DATA_HOME"@, "/var/data"@));
    assert(env[16] == ("XDG_CONFIG_HOME"@, "/var/config"@));
    assert(env[17] == ("XDG_CACHE_HOME"@, "/var/cache"@));
    assert(env[15] == ("HOST_XDG_DATA_HOME"@, host_data_home));
    assert(env[7] == ("XDG_RUNTIME_DIR"@, "/run/user/"@ + decimal(uid as nat)));
    assert(env[8] == ("WAYLAND_DISPLAY"@, wayland_display));
    assert(env[9] == ("XDG_SESSION_TYPE"@, "wayland"@));
    assert(env[22] == ("PATH"@, "/app/bin:/usr/bin:/bin"@));
    assert(env[18] == ("XDG_CONFIG_DIRS"@, "/app/etc/xdg:/etc/xdg"@));
    assert(env[19].0 == "XDG_DATA_DIRS"@);
    lemma_library_path(architecture);
    assert(env[21].0 == "LD_LIBRARY_PATH"@);
}

proof fn lemma_library_path(architecture: FlatpakArchitecture)
    ensures
        "/app/lib:/app/lib64:"@ + join(library_dirs(architecture), ":"@) == join(
            seq![
                "/app/lib"@,
                "/app/lib64"@,
                "/usr/lib/"@ + architecture.spec_name() + "-linux-gnu"@,
                "/usr/lib"@,
                "/usr/lib64"@,
            ],
            ":"@,
        ),
{
    reveal_strlit("/app/lib:/app/lib64:");
    reveal_strlit("/app/lib");
    reveal_strlit("/app/lib64");
    reveal_strlit(":");
    reveal_strlit("/usr/");
    reveal_strlit("lib/");
    reveal_strlit("/usr/lib/");
    let own = seq!["/app/lib"@, "/app/lib64"@];
    let lib = "/usr/lib/"@ + architecture.spec_name() + "-linux-gnu"@;
    let dirs = library_dirs(architecture);
    assert(dirs[0] =~= lib);
    let all = seq!["/app/lib"@, "/app/lib64"@, lib, "/usr/lib"@, "/usr/lib64"@];
    assert(own + dirs =~= all);
    lemma_join_concat(own, dirs, ":"@);
    assert(own.drop_last() =~= seq!["/app/lib"@]);
    assert(join(own.drop_last(), ":"@) == "/app/lib"@);
    assert(join(own, ":"@) + ":"@ =~= "/app/lib:/app/lib64:"@);
}

proof fn lemma_last_pushed(
    env: Seq<(Seq<char>, Seq<char>)>,
    pair: (Seq<char>, Seq<char>),
    key: Seq<char>,
)
    ensures
        last_value(env.push(pair), key) == (if pair.0 == key {
            Some(pair.1)
        } else {
            last_value(env, key)
        }),
{
    assert(env.push(pair).drop_last() =~= env);
}

/// What an application learns of the session: where there is a display of X or a session bus it is
/// told, and what the desktop is called, if the host knows; nothing else that it was told changes.
pub proof fn lemma_sessions_are_told(
    base: Seq<(Seq<char>, Seq<char>)>,
    session: SessionSettings,
    key: Seq<char>,
)
    ensures
        last_value(session_variables(base, session), key) == (match told(session, key) {
            Some(value) => Some(value),
            None => last_value(base, key),
        }),
{
    reveal_strlit("DISPLAY");
    reveal_strlit("XDG_CURRENT_DESKTOP");
    reveal_strlit("XDG_SESSION_DESKTOP");
    reveal_strlit("MOZ_ENABLE_WAYLAND");
    reveal_strlit("FREEBSD_FLATPAK_TRACE_LINUX_COMPAT");
    reveal_strlit("DBUS_SESSION_BUS_ADDRESS");
    assert("XDG_CURRENT_DESKTOP"@[4] == 'C');
    assert("XDG_SESSION_DESKTOP"@[4] == 'S');
    assert("DISPLAY"@.len() == 7);
    assert("XDG_CURRENT_DESKTOP"@.len() == 19);
    assert("XDG_SESSION_DESKTOP"@.len() == 19);
    assert("MOZ_ENABLE_WAYLAND"@.len() == 18);
    assert("FREEBSD_FLATPAK_TRACE_LINUX_COMPAT"@.len() == 34);
    assert("DBUS_SESSION_BUS_ADDRESS"@.len() == 24);
    let a = with_option(base, "DISPLAY"@, session.display);
    let b = with_host_value(a, "XDG_CURRENT_DESKTOP"@, session.current_desktop);
    let c = with_host_value(b, "XDG_SESSION_DESKTOP"@, session.session_desktop);
    let d = with_host_value(c, "MOZ_ENABLE_WAYLAND"@, session.moz_enable_wayland);
    let e = with_host_value(
        d,
        "FREEBSD_FLATPAK_TRACE_LINUX_COMPAT"@,
        session.trace_linux_compat,
    );
    lemma_with_option(base, "DISPLAY"@, session.display, key);
    lemma_with_host_value(a, "XDG_CURRENT_DESKTOP"@, session.current_desktop, key);
    lemma_with_host_value(b, "XDG_SESSION_DESKTOP"@, session.session_desktop, key);
    lemma_with_host_value(c, "MOZ_ENABLE_WAYLAND"@, session.moz_enable_wayland, key);
    lemma_with_host_value(
        d,
        "FREEBSD_FLATPAK_TRACE_LINUX_COMPAT"@,
        session.trace_linux_compat,
        key,
    );
    lemma_with_option(e, "DBUS_SESSION_BUS_ADDRESS"@, session.bus_address, key);
}

proof fn lemma_with_option(
    env: Seq<(Seq<char>, Seq<char>)>,
    own: Seq<char>,
    value: Option<String>,
    key: Seq<char>,
)
    ensures
        last_value(with_option(env, own, value), key) == (if own == key && value is Some {
            Some(value->0@)
        } else {
            last_value(env, key)
        }),
{
    if let Some(text) = value {
        lemma_last_pushed(env, (own, text@), key);
    }
}

proof fn lemma_with_host_value(
    env: Seq<(Seq<char>, Seq<char>)>,
    own: Seq<char>,
    value: Option<String>,
    key: Seq<char>,
)
    ensures
        last_value(with_host_value(env, own, value), key) == (if own == key && value is Some
            && value->0@.len() > 0 {
            Some(value->0@)
        } else {
            last_value(env, key)
        }),
{
    if let Some(text) = value {
        if text@.len() > 0 {
            lemma_last_pushed(env, (own, text@), key);
        }
    }
}

/// What a session has to tell under a name.
pub open spec fn told(session: SessionSettings, key: Seq<char>) -> Option<Seq<char>> {
    if key == "DISPLAY"@ {
        text_of_option(session.display)
    } else if key == "DBUS_SESSION_BUS_ADDRESS"@ {
        text_of_option(session.bus_address)
    } else if key == "XDG_CURRENT_DESKTOP"@ {
        not_empty(text_of_option(session.current_desktop))
    } else if key == "XDG_SESSION_DESKTOP"@ {
        not_empty(text_of_option(session.session_desktop))
    } else if key == "MOZ_ENABLE_WAYLAND"@ {
        not_empty(text_of_option(session.moz_enable_wayland))
    } else if key == "FREEBSD_FLATPAK_TRACE_LINUX_COMPAT"@ {
        not_empty(text_of_option(session.trace_linux_compat))
    } else {
        None
    }
}

pub open spec fn text_of_option(value: Option<String>) -> Option<Seq<char>> {
    match value {
        Some(text) => Some(text@),
        None => None,
    }
}

pub open spec fn not_empty(value: Option<Seq<char>>) -> Option<Seq<char>> {
    match value {
        Some(text) => if text.len() == 0 {
            None
        } else {
            Some(text)
        },
        None => None,
    }
}

} // verus!
