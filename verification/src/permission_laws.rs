//! What the items of an application's permissions mean, and which directories of the user they speak
//! of.

use crate::filesystem_permissions::{
    permission_of, permissions_of, persistent_of, relative_text, stays_below, AccessMode,
    PermissionView,
};
use crate::grant_laws::{lemma_body_plain, lemma_joined_names};
use crate::path::{body, components, is_absolute, joined};
use crate::text::{
    ends_with, is_space, is_trimmed, last_index, lemma_first_index_unique, lemma_last_index,
    lemma_trim, rsplit_once, starts_with,
};
use crate::xdg_user_dirs::{
    place_in, unescaped, unquoted, xdg_assignment, xdg_paths, xdg_value_path, xdg_variables,
};
use vstd::prelude::*;

verus! {

proof fn lemma_mode_split(name: Seq<char>, mode: Seq<char>)
    requires
        !mode.contains(':'),
    ensures
        rsplit_once(name + ":"@ + mode, ':') == Some((name, mode)),
{
    reveal_strlit(":");
    let text = name + ":"@ + mode;
    let n = name.len() as int;
    lemma_last_index(text, ':');
    assert(text[n] == ':');
    assert forall|j: int| n < j < text.len() implies text[j] != ':' by {
        assert(text[j] == mode[j - n - 1]);
        assert(mode.contains(mode[j - n - 1]));
    }
    assert(last_index(text, ':') == n);
    assert(text.take(n) =~= name);
    assert(text.skip(n + 1) =~= mode);
}

proof fn lemma_not_negated(name: Seq<char>, rest: Seq<char>)
    requires
        name.len() > 0 ==> name[0] != '!',
        rest.len() > 0 ==> rest[0] != '!',
    ensures
        !starts_with(name + rest, "!"@),
{
    reveal_strlit("!");
    if starts_with(name + rest, "!"@) {
        assert((name + rest).take(1)[0] == '!');
        assert((name + rest)[0] == '!');
    }
}

/// What an item asks for. `:ro` after a path asks to read it, `:rw` to write it too, and `:create`
/// also to make it where it is missing; a path alone asks to read and write it.
pub proof fn lemma_what_an_item_asks_for(name: Seq<char>)
    requires
        name.len() > 0 ==> name[0] != '!',
    ensures
        permission_of(name + ":ro"@) == Some(
            PermissionView {
                original: name + ":ro"@,
                path: name,
                access: AccessMode::ReadOnly,
                create: false,
            },
        ),
        permission_of(name + ":rw"@) == Some(
            PermissionView {
                original: name + ":rw"@,
                path: name,
                access: AccessMode::ReadWrite,
                create: false,
            },
        ),
        permission_of(name + ":create"@) == Some(
            PermissionView {
                original: name + ":create"@,
                path: name,
                access: AccessMode::ReadWrite,
                create: true,
            },
        ),
        !name.contains(':') ==> permission_of(name) == Some(
            PermissionView {
                original: name,
                path: name,
                access: AccessMode::ReadWrite,
                create: false,
            },
        ),
{
    reveal_strlit(":");
    reveal_strlit(":ro");
    reveal_strlit(":rw");
    reveal_strlit(":create");
    reveal_strlit("ro");
    reveal_strlit("rw");
    reveal_strlit("create");
    assert("ro"@[1] == 'o');
    assert("rw"@[1] == 'w');
    assert("create"@.len() == 6);
    assert(name + ":"@ + "ro"@ =~= name + ":ro"@);
    assert(name + ":"@ + "rw"@ =~= name + ":rw"@);
    assert(name + ":"@ + "create"@ =~= name + ":create"@);
    lemma_mode_split(name, "ro"@);
    lemma_mode_split(name, "rw"@);
    lemma_mode_split(name, "create"@);
    lemma_not_negated(name, ":ro"@);
    lemma_not_negated(name, ":rw"@);
    lemma_not_negated(name, ":create"@);
    lemma_not_negated(name, Seq::empty());
    assert(name + Seq::<char>::empty() =~= name);
    if !name.contains(':') {
        lemma_last_index(name, ':');
        if last_index(name, ':') >= 0 {
            assert(name.contains(name[last_index(name, ':')]));
        }
    }
}

/// A mode that is not known belongs to the name where the name is that of something in a directory;
/// elsewhere the item asks for nothing that is known. A negated item stays as it is, and gives no
/// more than to read.
pub proof fn lemma_unknown_modes(name: Seq<char>, mode: Seq<char>)
    requires
        name.len() > 0 ==> name[0] != '!',
        !mode.contains(':'),
        mode != "ro"@,
        mode != "rw"@,
        mode != "create"@,
    ensures
        permission_of(name + ":"@ + mode) == (if name.contains('/') {
            Some(
                PermissionView {
                    original: name + ":"@ + mode,
                    path: name + ":"@ + mode,
                    access: AccessMode::ReadWrite,
                    create: false,
                },
            )
        } else {
            None
        }),
        permission_of("!"@ + name) == Some(
            PermissionView {
                original: "!"@ + name,
                path: "!"@ + name,
                access: AccessMode::ReadOnly,
                create: false,
            },
        ),
{
    reveal_strlit(":");
    reveal_strlit("!");
    lemma_mode_split(name, mode);
    lemma_not_negated(name, ":"@ + mode);
    assert(name + (":"@ + mode) =~= name + ":"@ + mode);
    assert(("!"@ + name).take(1) =~= "!"@);
}

/// The permissions of an application are what its items ask for, one by one in their order; and one
/// item that asks for nothing known spoils them all.
pub proof fn lemma_items_are_read_one_by_one(items: Seq<Seq<char>>)
    ensures
        permissions_of(items) is Ok <==> forall|i: int|
            0 <= i < items.len() ==> permission_of(#[trigger] items[i]) is Some,
        permissions_of(items) is Ok ==> permissions_of(items)->Ok_0.len() == items.len(),
        permissions_of(items) is Ok ==> forall|i: int|
            0 <= i < items.len() ==> permission_of(#[trigger] items[i]) == Some(
                permissions_of(items)->Ok_0[i],
            ),
    decreases items.len(),
{
    if items.len() > 0 {
        let head = items.drop_last();
        let last = items[items.len() - 1];
        lemma_items_are_read_one_by_one(head);
        if permissions_of(items) is Ok {
            assert forall|i: int| 0 <= i < items.len() implies permission_of(#[trigger] items[i])
                == Some(permissions_of(items)->Ok_0[i]) by {
                if i < head.len() {
                    assert(head[i] == items[i]);
                }
            }
        }
        if forall|i: int| 0 <= i < items.len() ==> permission_of(#[trigger] items[i]) is Some {
            assert forall|i: int| 0 <= i < head.len() implies permission_of(
                #[trigger] head[i],
            ) is Some by {
                assert(head[i] == items[i]);
            }
            assert(permission_of(items[items.len() - 1]) is Some);
        }
    }
}

/// Whether an item keeps something below the home directory.
pub open spec fn keeps(item: Seq<char>) -> bool {
    !(item.len() > 0 && item[0] == '!')
}

/// Whether an item leads out of the home directory.
pub open spec fn leads_out(item: Seq<char>) -> bool {
    is_absolute(item) || exists|i: int|
        0 <= i < components(item).len() && #[trigger] components(item)[i] == ".."@
}

proof fn lemma_keeps(item: Seq<char>)
    ensures
        starts_with(item, "!"@) <==> !keeps(item),
        stays_below(item) <==> !leads_out(item),
{
    reveal_strlit("!");
    if starts_with(item, "!"@) {
        assert(item.take(1)[0] == '!');
    }
    if !keeps(item) {
        assert(item.take(1) =~= "!"@);
    }
}

/// What an application keeps below its home directory is what its items name, each by the names of
/// which it is made; and one item that leads out of the home directory spoils them all.
pub proof fn lemma_kept_paths(items: Seq<Seq<char>>, path: Seq<char>)
    ensures
        persistent_of(items) is Ok <==> forall|i: int|
            0 <= i < items.len() && keeps(#[trigger] items[i]) ==> !leads_out(items[i]),
        persistent_of(items) matches Ok(all) ==> (all.contains(path) <==> exists|i: int|
            0 <= i < items.len() && keeps(#[trigger] items[i]) && path == relative_text(items[i])),
    decreases items.len(),
{
    if items.len() > 0 {
        let head = items.drop_last();
        let last = items[items.len() - 1];
        lemma_kept_paths(head, path);
        lemma_keeps(last);
        if forall|i: int| 0 <= i < items.len() && keeps(#[trigger] items[i]) ==> !leads_out(items[i]) {
            assert forall|i: int| 0 <= i < head.len() && keeps(#[trigger] head[i]) implies !leads_out(
                head[i],
            ) by {
                assert(head[i] == items[i]);
            }
            assert(keeps(items[items.len() - 1]) ==> !leads_out(items[items.len() - 1]));
        }
        if let Ok(all) = persistent_of(items) {
            let before = persistent_of(head)->Ok_0;
            assert forall|i: int| 0 <= i < items.len() && keeps(#[trigger] items[i]) implies !leads_out(
                items[i],
            ) by {
                if i < head.len() {
                    assert(head[i] == items[i]);
                }
            }
            if before.contains(path) {
                let k = choose|k: int| 0 <= k < before.len() && before[k] == path;
                assert(all[k] == path);
                let i = choose|i: int|
                    0 <= i < head.len() && keeps(#[trigger] head[i]) && path == relative_text(
                        head[i],
                    );
                assert(items[i] == head[i]);
            }
            if keeps(last) && path == relative_text(last) {
                assert(all[before.len() as int] == path);
                assert(items[items.len() - 1] == last);
            }
            if all.contains(path) && !before.contains(path) {
                let k = choose|k: int| 0 <= k < all.len() && all[k] == path;
                if k < before.len() {
                    assert(before[k] == path);
                }
                assert(keeps(items[items.len() - 1]));
            }
            if exists|i: int|
                0 <= i < items.len() && keeps(#[trigger] items[i]) && path == relative_text(
                    items[i],
                ) {
                let i = choose|i: int|
                    0 <= i < items.len() && keeps(#[trigger] items[i]) && path == relative_text(
                        items[i],
                    );
                if i < head.len() {
                    assert(head[i] == items[i]);
                }
            }
        }
    }
}

/// A kept path is made of the names of its item; an item without any names the home directory
/// itself.
pub proof fn lemma_kept_path_names(item: Seq<char>)
    ensures
        body(item).len() > 0 ==> components(relative_text(item)) == body(item),
        body(item).len() == 0 ==> relative_text(item) == "."@,
{
    lemma_body_plain(item);
    if body(item).len() > 0 {
        lemma_joined_names(body(item));
        assert(components(relative_text(item)) =~= body(item));
    }
}

/// Whether a variable of the configuration holds the directory at the place.
pub open spec fn holds_directory(variable: Seq<char>, place: int) -> bool {
    ||| variable == "XDG_DESKTOP_DIR"@ && place == 0
    ||| variable == "XDG_DOCUMENTS_DIR"@ && place == 1
    ||| variable == "XDG_DOWNLOAD_DIR"@ && place == 2
    ||| variable == "XDG_MUSIC_DIR"@ && place == 3
    ||| variable == "XDG_PICTURES_DIR"@ && place == 4
    ||| variable == "XDG_PUBLICSHARE_DIR"@ && place == 5
    ||| variable == "XDG_TEMPLATES_DIR"@ && place == 6
    ||| variable == "XDG_VIDEOS_DIR"@ && place == 7
}

/// Where the directory at a place is below the home directory, if nothing says otherwise.
pub open spec fn is_default_name(name: Seq<char>, place: int) -> bool {
    ||| name == "Desktop"@ && place == 0
    ||| name == "Documents"@ && place == 1
    ||| name == "Downloads"@ && place == 2
    ||| name == "Music"@ && place == 3
    ||| name == "Pictures"@ && place == 4
    ||| name == "Public"@ && place == 5
    ||| name == "Templates"@ && place == 6
    ||| name == "Videos"@ && place == 7
}

proof fn lemma_variable_names(variable: Seq<char>, place: int)
    requires
        holds_directory(variable, place),
    ensures
        place_in(xdg_variables(), variable) == Some(place),
        variable.len() > 0,
        variable[0] == 'X',
        variable.last() == 'R',
        !variable.contains('='),
{
    reveal_strlit("XDG_DESKTOP_DIR");
    reveal_strlit("XDG_DOCUMENTS_DIR");
    reveal_strlit("XDG_DOWNLOAD_DIR");
    reveal_strlit("XDG_MUSIC_DIR");
    reveal_strlit("XDG_PICTURES_DIR");
    reveal_strlit("XDG_PUBLICSHARE_DIR");
    reveal_strlit("XDG_TEMPLATES_DIR");
    reveal_strlit("XDG_VIDEOS_DIR");
    assert("XDG_DESKTOP_DIR"@.len() == 15);
    assert("XDG_DOCUMENTS_DIR"@.len() == 17);
    assert("XDG_DOCUMENTS_DIR"@[4] == 'D');
    assert("XDG_DOWNLOAD_DIR"@.len() == 16);
    assert("XDG_DOWNLOAD_DIR"@[4] == 'D');
    assert("XDG_MUSIC_DIR"@.len() == 13);
    assert("XDG_PICTURES_DIR"@.len() == 16);
    assert("XDG_PICTURES_DIR"@[4] == 'P');
    assert("XDG_PUBLICSHARE_DIR"@.len() == 19);
    assert("XDG_TEMPLATES_DIR"@.len() == 17);
    assert("XDG_TEMPLATES_DIR"@[4] == 'T');
    assert("XDG_VIDEOS_DIR"@.len() == 14);
}

/// The user's directories are below the home directory under their usual names, until a line of the
/// configuration says otherwise. A line changes the one directory whose variable it sets and no
/// other, so that the last line wins.
pub proof fn lemma_later_lines_win(
    ls: Seq<Seq<char>>,
    line: Seq<char>,
    home: Seq<char>,
    place: int,
    name: Seq<char>,
)
    requires
        is_default_name(name, place),
    ensures
        xdg_paths(ls, home).len() == 8,
        xdg_paths(Seq::empty(), home)[place] == joined(home, name),
        xdg_paths(ls.push(line), home)[place] == (match xdg_assignment(line, home) {
            Some((other, path)) => if other == place {
                path
            } else {
                xdg_paths(ls, home)[place]
            },
            None => xdg_paths(ls, home)[place],
        }),
    decreases ls.len(),
{
    if ls.len() > 0 {
        lemma_later_lines_win(ls.drop_last(), line, home, place, name);
    }
    let all = ls.push(line);
    assert(all.drop_last() =~= ls);
    assert(all.last() == line);
    if let Some((other, path)) = xdg_assignment(line, home) {
        assert(0 <= other < 8);
        assert(xdg_paths(all, home) == xdg_paths(ls, home).update(other, path));
    }
}

proof fn lemma_unescaped_plain(text: Seq<char>)
    requires
        !text.contains('\\'),
    ensures
        unescaped(text) == text,
    decreases text.len(),
{
    if text.len() > 0 {
        let rest = text.skip(1);
        assert(text.contains(text[0]));
        assert(!rest.contains('\\')) by {
            if rest.contains('\\') {
                let i = choose|i: int| 0 <= i < rest.len() && rest[i] == '\\';
                assert(text[i + 1] == '\\');
            }
        }
        lemma_unescaped_plain(rest);
        assert(seq![text[0]] + rest =~= text);
    }
}

proof fn lemma_assignment(variable: Seq<char>, place: int, value: Seq<char>, home: Seq<char>)
    requires
        holds_directory(variable, place),
        value.len() > 0,
        is_trimmed(value),
    ensures
        xdg_assignment(variable + "="@ + value, home) == (match xdg_value_path(value, home) {
            Some(path) => Some((place, path)),
            None => None,
        }),
{
    reveal_strlit("=");
    reveal_strlit("#");
    lemma_variable_names(variable, place);
    let line = variable + "="@ + value;
    assert(line[0] == 'X');
    assert(line.last() == value.last());
    assert(!is_space('X'));
    assert(!is_space('R'));
    lemma_trim(line);
    lemma_trim(variable);
    lemma_trim(value);
    if starts_with(line, "#"@) {
        assert(line.take(1)[0] == '#');
    }
    let n = variable.len() as int;
    assert forall|j: int| 0 <= j < n implies line[j] != '=' by {
        assert(line[j] == variable[j]);
        assert(variable.contains(variable[j]));
    }
    assert(line[n] == '=');
    lemma_first_index_unique(line, '=', n);
    assert(line.take(n) =~= variable);
    assert(line.skip(n + 1) =~= value);
}

/// What a line of the configuration says. Its value stands in quotes: after `$HOME/` or `${HOME}/`
/// a path below the home directory, otherwise an absolute path. Any other value says nothing.
pub proof fn lemma_configured_directories(
    variable: Seq<char>,
    place: int,
    path: Seq<char>,
    home: Seq<char>,
)
    requires
        holds_directory(variable, place),
        !path.contains('\\'),
    ensures
        xdg_assignment(variable + "="@ + ("\"$HOME/"@ + path + "\""@), home) == Some(
            (place, joined(home, path)),
        ),
        xdg_assignment(variable + "="@ + ("\"${HOME}/"@ + path + "\""@), home) == Some(
            (place, joined(home, path)),
        ),
        is_absolute(path) ==> xdg_assignment(variable + "="@ + ("\""@ + path + "\""@), home)
            == Some((place, path)),
        path.len() > 0 && path[0] != '$' && !is_absolute(path) ==> xdg_assignment(
            variable + "="@ + ("\""@ + path + "\""@),
            home,
        ) is None,
{
    reveal_strlit("\"$HOME/");
    reveal_strlit("\"${HOME}/");
    reveal_strlit("\"");
    reveal_strlit("$HOME/");
    reveal_strlit("${HOME}/");
    reveal_strlit("$HOME");
    reveal_strlit("${HOME}");
    assert(!is_space('"'));
    lemma_quoted("$HOME/"@ + path);
    lemma_quoted("${HOME}/"@ + path);
    lemma_quoted(path);
    let a = "\"$HOME/"@ + path + "\""@;
    let b = "\"${HOME}/"@ + path + "\""@;
    let c = "\""@ + path + "\""@;
    assert(a =~= "\""@ + ("$HOME/"@ + path) + "\""@);
    assert(b =~= "\""@ + ("${HOME}/"@ + path) + "\""@);
    lemma_no_backslash("$HOME/"@, path);
    lemma_no_backslash("${HOME}/"@, path);
    lemma_unescaped_plain("$HOME/"@ + path);
    lemma_unescaped_plain("${HOME}/"@ + path);
    lemma_unescaped_plain(path);
    let (p, q) = ("$HOME/"@ + path, "${HOME}/"@ + path);
    assert(p.take(6) =~= "$HOME/"@);
    assert(p.skip(6) =~= path);
    assert(q.take(8) =~= "${HOME}/"@);
    assert(q.skip(8) =~= path);
    if starts_with(q, "$HOME/"@) {
        assert(q.take(6)[1] == '{');
        assert("$HOME/"@[1] == 'H');
    }
    assert(q != "$HOME"@) by {
        assert(q[1] == '{');
        assert("$HOME"@[1] == 'H');
    }
    assert(xdg_value_path(a, home) == Some(joined(home, path)));
    assert(xdg_value_path(b, home) == Some(joined(home, path)));
    lemma_assignment(variable, place, a, home);
    lemma_assignment(variable, place, b, home);
    lemma_assignment(variable, place, c, home);
    if path.len() > 0 && path[0] != '$' {
        if starts_with(path, "$HOME/"@) {
            assert(path.take(6)[0] == '$');
        }
        if starts_with(path, "${HOME}/"@) {
            assert(path.take(8)[0] == '$');
        }
        assert("$HOME"@[0] == '$');
        assert("${HOME}"@[0] == '$');
        assert(xdg_value_path(c, home) == (if is_absolute(path) {
            Some(path)
        } else {
            None
        }));
    }
}

proof fn lemma_no_backslash(a: Seq<char>, b: Seq<char>)
    requires
        !a.contains('\\'),
        !b.contains('\\'),
    ensures
        !(a + b).contains('\\'),
{
    let s = a + b;
    if s.contains('\\') {
        let i = choose|i: int| 0 <= i < s.len() && s[i] == '\\';
        if i < a.len() {
            assert(a[i] == '\\');
        } else {
            assert(b[i - a.len()] == '\\');
        }
    }
}

proof fn lemma_quoted(text: Seq<char>)
    ensures
        unquoted("\""@ + text + "\""@) == text,
{
    reveal_strlit("\"");
    let value = "\""@ + text + "\""@;
    assert(value.take(1) =~= "\""@);
    let rest = value.skip(1);
    assert(rest =~= text + "\""@);
    assert(rest.skip(rest.len() - 1) =~= "\""@);
    assert(ends_with(rest, "\""@));
    assert(rest.take(value.len() - 2) =~= text);
}

} // verus!
