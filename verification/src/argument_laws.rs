//! What becomes of the files that are named on a command line, and what an application is told of the
//! user's directories.

use crate::file_argument_translation::{
    is_field_code, is_internal, is_plain, internal_roots, lemma_resolved_plain,
    lemma_uri_round_trip, normalized, percent_encoded, resolved_names,
};
use crate::filesystem_grants::{mapped, GrantView};
use crate::grant_laws::lemma_joined_names;
use crate::host_filesystem::{
    best_place, dir_variables, dirs_config, given_args, labelled, listed_order, translation,
    unseen_args, Translation,
};
use crate::override_laws::{lemma_lines_of_ended, no_break};
use crate::path::{
    body, components, is_absolute, joined, kept, lead, lemma_body_concat, lemma_joined, lemma_name,
    lemma_path_after, path_after, same_path, within,
};
use crate::permission_laws::{
    holds_directory, is_default_name, lemma_configured_directories, lemma_later_lines_win,
};
use crate::static_overrides::ended_lines;
use crate::text::{chomp, join, lines, starts_with};
use crate::xdg_user_dirs::{xdg_assignment, xdg_labels, xdg_paths, xdg_variables};
use vstd::prelude::*;
use vstd::utf8::encode_utf8;

verus! {

proof fn lemma_normalized_components(p: Seq<char>)
    requires
        is_absolute(p),
    ensures
        components(normalized(p)) == seq![seq!['/']] + resolved_names(components(p)),
        is_absolute(normalized(p)),
{
    reveal_strlit("/");
    assert("/"@ =~= seq!['/']);
    let parts = components(p);
    let names = resolved_names(parts);
    assert(parts.take(parts.len() as int) =~= parts);
    lemma_resolved_plain(p, parts.len() as int);
    let text = join(names, "/"@);
    let all = "/"@ + text;
    assert(all =~= Seq::<char>::empty() + seq!['/'] + text);
    lemma_body_concat(Seq::empty(), text);
    assert(body(Seq::<char>::empty()).len() == 0);
    assert(body(Seq::<char>::empty()) + body(text) =~= body(text));
    if names.len() > 0 {
        assert forall|i: int| 0 <= i < names.len() implies kept(#[trigger] names[i])
            && !names[i].contains('/') by {
            assert(is_plain(names[i]));
        }
        lemma_joined_names(names);
    } else {
        assert(text =~= Seq::<char>::empty());
        assert(body(text) =~= names);
    }
    assert(components(all) =~= seq![seq!['/']] + names);
}

/// A path is normalized by following it. A name leads one step down, `.` nowhere, and `..` one step
/// back up, or nowhere at the root; what is left holds neither `.` nor `..`.
pub proof fn lemma_paths_are_followed(p: Seq<char>, name: Seq<char>)
    requires
        is_absolute(p),
        name.len() > 0,
        !name.contains('/'),
        name != "."@,
        name != ".."@,
    ensures
        components(normalized(joined(p, name))) == components(normalized(p)).push(name),
        same_path(normalized(joined(p, "."@)), normalized(p)),
        components(normalized(p)).len() > 1 ==> components(normalized(joined(p, ".."@)))
            == components(normalized(p)).drop_last(),
        components(normalized(p)).len() == 1 ==> same_path(
            normalized(joined(p, ".."@)),
            normalized(p),
        ),
        components(normalized(p)).len() >= 1,
        forall|i: int|
            0 <= i < components(normalized(p)).len() ==> #[trigger] components(normalized(p))[i]
                != "."@ && components(normalized(p))[i] != ".."@,
{
    reveal_strlit(".");
    reveal_strlit("..");
    reveal_strlit("/");
    assert("."@ =~= seq!['.']);
    assert("/"@ =~= seq!['/']);
    let parts = components(p);
    let names = resolved_names(parts);
    lemma_normalized_components(p);
    lemma_name(name);
    lemma_joined(p, name);
    lemma_joined_absolute(p, name);
    lemma_normalized_components(joined(p, name));
    assert((parts + seq![name]).drop_last() =~= parts);
    assert((parts + seq![name]).last() == name);
    assert(name != "/"@) by {
        if name == "/"@ {
            assert(name[0] == '/');
            assert(name.contains('/'));
        }
    }
    assert(resolved_names(parts + seq![name]) == names.push(name));
    assert(seq![seq!['/']] + names.push(name) =~= (seq![seq!['/']] + names).push(name));
    assert(!is_absolute("."@));
    lemma_dot_body();
    lemma_joined(p, "."@);
    assert(parts + body("."@) =~= parts);
    lemma_joined_absolute(p, "."@);
    lemma_normalized_components(joined(p, "."@));
    assert(!".."@.contains('/'));
    lemma_name(".."@);
    lemma_joined(p, ".."@);
    lemma_joined_absolute(p, ".."@);
    lemma_normalized_components(joined(p, ".."@));
    let up = parts + seq![".."@];
    assert(up.drop_last() =~= parts);
    assert(up.last() == ".."@);
    assert(".."@ != "/"@ && ".."@ != "."@) by {
        assert(".."@.len() == 2);
        assert("/"@.len() == 1);
        assert("."@.len() == 1);
    }
    if names.len() > 0 {
        assert(resolved_names(up) == names.drop_last());
        assert(seq![seq!['/']] + names.drop_last() =~= (seq![seq!['/']] + names).drop_last());
    } else {
        assert(resolved_names(up) == names);
    }
    assert(parts.take(parts.len() as int) =~= parts);
    lemma_resolved_plain(p, parts.len() as int);
    let all = components(normalized(p));
    assert forall|i: int| 0 <= i < all.len() implies #[trigger] all[i] != "."@ && all[i]
        != ".."@ by {
        if i > 0 {
            assert(all[i] == names[i - 1]);
            assert(is_plain(names[i - 1]));
        } else {
            assert(all[i][0] == '/');
        }
    }
}

proof fn lemma_dot_body()
    ensures
        body("."@).len() == 0,
{
    reveal_strlit(".");
    assert("."@ =~= seq!['.']);
    let dot = "."@;
    assert forall|j: int| 0 <= j < dot.len() implies dot[j] != '/' by {}
    crate::text::lemma_first_index_unique(dot, '/', dot.len() as int);
    assert(dot.take(1) =~= seq!['.']);
    assert(body(Seq::<char>::empty()).len() == 0);
}

proof fn lemma_joined_absolute(p: Seq<char>, q: Seq<char>)
    requires
        is_absolute(p),
        !is_absolute(q),
    ensures
        is_absolute(joined(p, q)),
{
    assert(joined(p, q)[0] == p[0]);
}

/// A path belongs to the sandbox itself if and only if it lies in one of the directories `/app`,
/// `/bin`, `/dev`, `/etc`, `/lib`, `/lib64`, `/proc`, `/run`, `/sys`, `/tmp`, `/usr` and `/var`.
pub proof fn lemma_directories_of_the_sandbox(p: Seq<char>)
    ensures
        is_internal(p) <==> within(p, "/app"@) || within(p, "/bin"@) || within(p, "/dev"@)
            || within(p, "/etc"@) || within(p, "/lib"@) || within(p, "/lib64"@) || within(
            p,
            "/proc"@,
        ) || within(p, "/run"@) || within(p, "/sys"@) || within(p, "/tmp"@) || within(p, "/usr"@)
            || within(p, "/var"@),
{
    let roots = internal_roots();
    assert(roots[0] == "/app"@);
    assert(roots[1] == "/bin"@);
    assert(roots[2] == "/dev"@);
    assert(roots[3] == "/etc"@);
    assert(roots[4] == "/lib"@);
    assert(roots[5] == "/lib64"@);
    assert(roots[6] == "/proc"@);
    assert(roots[7] == "/run"@);
    assert(roots[8] == "/sys"@);
    assert(roots[9] == "/tmp"@);
    assert(roots[10] == "/usr"@);
    assert(roots[11] == "/var"@);
}

/// Whether an argument is a field code that is left over from a desktop entry.
pub open spec fn is_left_over(arg: Seq<char>) -> bool {
    arg.len() == 2 && arg[0] == '%' && (arg[1] == 'f' || arg[1] == 'F' || arg[1] == 'u' || arg[1]
        == 'U' || arg[1] == 'i' || arg[1] == 'c' || arg[1] == 'k' || arg[1] == '%')
}

proof fn lemma_left_over(arg: Seq<char>)
    ensures
        is_field_code(arg) <==> is_left_over(arg),
{
    reveal_strlit("%f");
    reveal_strlit("%F");
    reveal_strlit("%u");
    reveal_strlit("%U");
    reveal_strlit("%i");
    reveal_strlit("%c");
    reveal_strlit("%k");
    reveal_strlit("%%");
    if is_left_over(arg) {
        assert(arg =~= "%f"@ || arg =~= "%F"@ || arg =~= "%u"@ || arg =~= "%U"@ || arg =~= "%i"@
            || arg =~= "%c"@ || arg =~= "%k"@ || arg =~= "%%"@);
    }
}

/// Arguments that name no file are handed on as they are: whatever begins neither with a slash, nor
/// with `./`, `../` or `~/`, nor with `file://`. Only a field code that is left over from a desktop
/// entry is dropped.
pub proof fn lemma_other_arguments_stay(
    grants: Seq<GrantView>,
    arg: Seq<char>,
    home: Option<Seq<char>>,
    current_dir: Option<Seq<char>>,
)
    ensures
        is_left_over(arg) <==> translation(grants, arg, home, current_dir) is Dropped,
        !is_left_over(arg) && !starts_with(arg, "/"@) && !starts_with(arg, "./"@) && !starts_with(
            arg,
            "../"@,
        ) && !starts_with(arg, "~/"@) && !starts_with(arg, "file://"@) ==> translation(
            grants,
            arg,
            home,
            current_dir,
        ) == Translation::Given(arg),
{
    lemma_left_over(arg);
}

/// A file is found in the same way under every name that it has: by its absolute path, from the home
/// directory after `~/`, from the current directory after `./`, and as a URI, which stays one.
pub proof fn lemma_names_of_a_file(
    grants: Seq<GrantView>,
    path: Seq<char>,
    rest: Seq<char>,
    home: Option<Seq<char>>,
    current_dir: Option<Seq<char>>,
)
    requires
        is_absolute(path),
        !is_internal(path),
    ensures
        translation(grants, path, home, current_dir) == (match best_place(
            grants,
            normalized(path),
        ) {
            Some(place) => Translation::Given(place),
            None => Translation::Unseen,
        }),
        translation(
            grants,
            "file://"@ + percent_encoded(encode_utf8(path)),
            home,
            current_dir,
        ) == (match best_place(grants, normalized(path)) {
            Some(place) => Translation::Given(
                "file://"@ + percent_encoded(encode_utf8(place)),
            ),
            None => Translation::Unseen,
        }),
        home matches Some(dir) && joined(dir, rest) == path ==> translation(
            grants,
            "~/"@ + rest,
            home,
            current_dir,
        ) == translation(grants, path, home, current_dir),
        current_dir matches Some(dir) && joined(dir, "./"@ + rest) == path ==> translation(
            grants,
            "./"@ + rest,
            home,
            current_dir,
        ) == translation(grants, path, home, current_dir),
{
    reveal_strlit("/");
    reveal_strlit("~/");
    reveal_strlit("./");
    reveal_strlit("../");
    reveal_strlit("file://");
    lemma_left_over(path);
    assert(path.take(1) =~= "/"@);
    if starts_with(path, "file://"@) {
        assert(path.take(7)[0] == 'f');
    }
    if starts_with(path, "~/"@) {
        assert(path.take(2)[0] == '~');
    }
    let uri = "file://"@ + percent_encoded(encode_utf8(path));
    lemma_uri_round_trip(path);
    lemma_left_over(uri);
    assert(uri[0] == 'f');
    assert(uri.take(7) =~= "file://"@);
    let short = "~/"@ + rest;
    lemma_left_over(short);
    assert(short[0] == '~');
    assert(short.take(2) =~= "~/"@);
    assert(short.skip(2) =~= rest);
    if starts_with(short, "file://"@) {
        assert(short.take(7)[0] == 'f');
    }
    let dotted = "./"@ + rest;
    lemma_left_over(dotted);
    assert(dotted[0] == '.');
    assert(dotted.take(2) =~= "./"@);
    if starts_with(dotted, "file://"@) {
        assert(dotted.take(7)[0] == 'f');
    }
    if starts_with(dotted, "~/"@) {
        assert(dotted.take(2)[0] == '~');
    }
}

/// A grant puts what lies in its directory on the host at the same place in its directory in the
/// sandbox, and puts nothing else anywhere.
pub proof fn lemma_grants_keep_places(grant: GrantView, p: Seq<char>)
    requires
        is_absolute(grant.host_path),
        grant.canonical_host_path == grant.host_path,
        grant.sandbox_path.len() > 0,
    ensures
        mapped(grant, p) is Some <==> within(p, grant.host_path),
        mapped(grant, p) matches Some(place) ==> components(place) == components(
            grant.sandbox_path,
        ) + components(p).skip(components(grant.host_path).len() as int),
{
    if within(p, grant.host_path) {
        let n = components(grant.host_path).len();
        let rest = path_after(p, n);
        lemma_path_after(p, n);
        lemma_rest_is_relative(grant.host_path, p);
        lemma_joined(grant.sandbox_path, rest);
    }
}

proof fn lemma_rest_is_relative(host: Seq<char>, p: Seq<char>)
    requires
        is_absolute(host),
        within(p, host),
    ensures
        !is_absolute(path_after(p, components(host).len())),
        body(path_after(p, components(host).len())) == components(p).skip(
            components(host).len() as int,
        ),
{
    let n = components(host).len();
    let rest = path_after(p, n);
    lemma_path_after(p, n);
    let all = components(p);
    assert(lead(p).len() <= 1);
    crate::path::lemma_body_kept(p);
    crate::path::lemma_body_names(p);
    assert(all.skip(n as int) =~= body(p).skip(n - lead(p).len()));
    if lead(rest).len() > 0 {
        assert(components(rest)[0] == lead(rest)[0]);
        assert(body(p).skip(n - lead(p).len())[0] == body(p)[n - lead(p).len()]);
        let c = body(p)[n - lead(p).len()];
        assert(kept(c));
        assert(c == seq!['/'] || c == seq!['.']);
        if c == seq!['/'] {
            assert(c[0] == '/');
            assert(c.contains('/'));
        }
        assert(false);
    }
    assert(components(rest) =~= body(rest));
}

/// Arguments are translated one by one and stay in their order.
pub proof fn lemma_arguments_one_by_one(
    grants: Seq<GrantView>,
    args: Seq<Seq<char>>,
    arg: Seq<char>,
    home: Option<Seq<char>>,
    current_dir: Option<Seq<char>>,
)
    ensures
        given_args(grants, args.push(arg), home, current_dir) == given_args(
            grants,
            args,
            home,
            current_dir,
        ) + given_args(grants, seq![arg], home, current_dir),
        given_args(grants, seq![arg], home, current_dir) == (match translation(
            grants,
            arg,
            home,
            current_dir,
        ) {
            Translation::Given(text) => seq![text],
            Translation::Unseen => seq![arg],
            _ => Seq::empty(),
        }),
        unseen_args(grants, args.push(arg), home, current_dir) == unseen_args(
            grants,
            args,
            home,
            current_dir,
        ) + unseen_args(grants, seq![arg], home, current_dir),
        unseen_args(grants, seq![arg], home, current_dir) == (if translation(
            grants,
            arg,
            home,
            current_dir,
        ) is Unseen {
            seq![arg]
        } else {
            Seq::empty()
        }),
{
    reveal_with_fuel(given_args, 2);
    reveal_with_fuel(unseen_args, 2);
    assert(args.push(arg).drop_last() =~= args);
    assert(args.push(arg).last() == arg);
    let one = seq![arg];
    assert(one.drop_last() =~= Seq::<Seq<char>>::empty());
    assert(one.last() == arg);
    assert(given_args(grants, one.drop_last(), home, current_dir) =~= Seq::<Seq<char>>::empty());
    assert(unseen_args(grants, one.drop_last(), home, current_dir) =~= Seq::<Seq<char>>::empty());
    assert(given_args(grants, args.push(arg), home, current_dir) =~= given_args(
        grants,
        args,
        home,
        current_dir,
    ) + given_args(grants, one, home, current_dir));
    assert(unseen_args(grants, args.push(arg), home, current_dir) =~= unseen_args(
        grants,
        args,
        home,
        current_dir,
    ) + unseen_args(grants, one, home, current_dir));
}

/// Whether permissions, and grants made for them, know the user's directory at a place under the
/// name.
pub open spec fn names_directory(label: Seq<char>, place: int) -> bool {
    ||| label == "xdg-desktop"@ && place == 0
    ||| label == "xdg-documents"@ && place == 1
    ||| label == "xdg-download"@ && place == 2
    ||| label == "xdg-music"@ && place == 3
    ||| label == "xdg-pictures"@ && place == 4
    ||| label == "xdg-public-share"@ && place == 5
    ||| label == "xdg-templates"@ && place == 6
    ||| label == "xdg-videos"@ && place == 7
}

/// Whether the first grant under the name stands at the path.
pub open spec fn first_stands_at(
    grants: Seq<GrantView>,
    label: Seq<char>,
    path: Seq<char>,
    k: int,
) -> bool {
    &&& 0 <= k < grants.len()
    &&& grants[k].label == label
    &&& grants[k].sandbox_path == path
    &&& forall|j: int| 0 <= j < k ==> (#[trigger] grants[j]).label != label
}

spec fn stands_first(grants: Seq<GrantView>, label: Seq<char>, path: Seq<char>) -> bool {
    exists|k: int| #[trigger] first_stands_at(grants, label, path, k)
}

proof fn lemma_labelled(grants: Seq<GrantView>, label: Seq<char>, from: int)
    requires
        0 <= from,
        forall|j: int| 0 <= j < from && j < grants.len() ==> (#[trigger] grants[j]).label != label,
    ensures
        match labelled(grants, label, from) {
            Some(path) => stands_first(grants, label, path),
            None => forall|j: int| 0 <= j < grants.len() ==> (#[trigger] grants[j]).label != label,
        },
    decreases grants.len() - from,
{
    if from < grants.len() {
        if grants[from].label == label {
            assert(first_stands_at(grants, label, grants[from].sandbox_path, from));
            assert(stands_first(grants, label, grants[from].sandbox_path));
        } else {
            lemma_labelled(grants, label, from + 1);
        }
    }
}

proof fn lemma_first_is_labelled(
    grants: Seq<GrantView>,
    label: Seq<char>,
    path: Seq<char>,
    k: int,
    from: int,
)
    requires
        first_stands_at(grants, label, path, k),
        0 <= from <= k,
    ensures
        labelled(grants, label, from) == Some(path),
    decreases k - from,
{
    if from < k {
        assert(grants[from].label != label);
        lemma_first_is_labelled(grants, label, path, k, from + 1);
    }
}

proof fn lemma_dir_variables(grants: Seq<GrantView>, n: int, place: int, path: Seq<char>)
    requires
        0 <= place < n <= 8,
        labelled(grants, xdg_labels()[place], 0) == Some(path),
    ensures
        dir_variables(grants, n).contains((xdg_variables()[place], path)),
    decreases n,
{
    let all = dir_variables(grants, n);
    let before = dir_variables(grants, n - 1);
    if place == n - 1 {
        assert(all[before.len() as int] == (xdg_variables()[place], path));
    } else {
        lemma_dir_variables(grants, n - 1, place, path);
        let pair = (xdg_variables()[place], path);
        let i = choose|i: int| 0 <= i < before.len() && before[i] == pair;
        assert(all[i] == pair);
    }
}

/// An application is told of each of the user's directories that it is given where it finds it: a
/// grant under the name `xdg-desktop` in the variable `XDG_DESKTOP_DIR`, and so on.
pub proof fn lemma_directories_are_told(
    grants: Seq<GrantView>,
    label: Seq<char>,
    variable: Seq<char>,
    place: int,
    path: Seq<char>,
    k: int,
)
    requires
        names_directory(label, place),
        holds_directory(variable, place),
        first_stands_at(grants, label, path, k),
    ensures
        dir_variables(grants, 8).contains((variable, path)),
{
    lemma_first_is_labelled(grants, label, path, k, 0);
    assert(xdg_labels()[place] == label);
    assert(xdg_variables()[place] == variable);
    lemma_dir_variables(grants, 8, place, path);
}

spec fn config_lines(grants: Seq<GrantView>, n: int) -> Seq<Seq<char>>
    decreases n,
{
    if n <= 0 {
        seq!["# Generated by freebsd-flatpak-poc for this sandbox root."@]
    } else {
        let before = config_lines(grants, n - 1);
        let place = listed_order()[n - 1];
        match labelled(grants, xdg_labels()[place], 0) {
            Some(path) => before.push(config_line(place, path)),
            None => before,
        }
    }
}

spec fn config_line(place: int, path: Seq<char>) -> Seq<char> {
    xdg_variables()[place] + "="@ + ("\""@ + path + "\""@)
}

proof fn lemma_config_lines(grants: Seq<GrantView>, n: int)
    requires
        0 <= n <= 8,
    ensures
        dirs_config(grants, n) == ended_lines(config_lines(grants, n)),
    decreases n,
{
    reveal_strlit("# Generated by freebsd-flatpak-poc for this sandbox root.");
    reveal_strlit("# Generated by freebsd-flatpak-poc for this sandbox root.\n");
    reveal_strlit("\n");
    reveal_strlit("=\"");
    reveal_strlit("=");
    reveal_strlit("\"");
    reveal_strlit("\"\n");
    if n <= 0 {
        let one = seq!["# Generated by freebsd-flatpak-poc for this sandbox root."@];
        assert(one.drop_last() =~= Seq::<Seq<char>>::empty());
        reveal_with_fuel(ended_lines, 2);
        assert(ended_lines(one) =~= dirs_config(grants, n));
    } else {
        lemma_config_lines(grants, n - 1);
        let before = config_lines(grants, n - 1);
        let place = listed_order()[n - 1];
        if let Some(path) = labelled(grants, xdg_labels()[place], 0) {
            let line = config_line(place, path);
            assert(before.push(line).drop_last() =~= before);
            assert(dirs_config(grants, n) =~= ended_lines(before) + line + "\n"@);
        }
    }
}

/// Whether a path can be written down in quotes on a line of its own.
pub open spec fn can_be_written(path: Seq<char>) -> bool {
    is_absolute(path) && !path.contains('\\') && !path.contains('\n') && !path.contains('\r')
}

proof fn lemma_config_lines_clean(grants: Seq<GrantView>, n: int)
    requires
        0 <= n <= 8,
        forall|g: int| 0 <= g < grants.len() ==> can_be_written((#[trigger] grants[g]).sandbox_path),
    ensures
        forall|i: int|
            0 <= i < config_lines(grants, n).len() ==> no_break(
                #[trigger] config_lines(grants, n)[i],
            ) && chomp(config_lines(grants, n)[i]) == config_lines(grants, n)[i],
    decreases n,
{
    if n <= 0 {
        reveal_strlit("# Generated by freebsd-flatpak-poc for this sandbox root.");
    } else {
        lemma_config_lines_clean(grants, n - 1);
        let before = config_lines(grants, n - 1);
        let all = config_lines(grants, n);
        let place = listed_order()[n - 1];
        lemma_labelled(grants, xdg_labels()[place], 0);
        assert forall|i: int| 0 <= i < all.len() implies no_break(#[trigger] all[i]) && chomp(
            all[i],
        ) == all[i] by {
            if i < before.len() {
                assert(all[i] == before[i]);
            } else {
                let path = labelled(grants, xdg_labels()[place], 0)->0;
                let k = choose|k: int| #[trigger]
                    first_stands_at(grants, xdg_labels()[place], path, k);
                assert(can_be_written(grants[k].sandbox_path));
                lemma_config_line_clean(place, path);
            }
        }
    }
}

proof fn lemma_config_line_clean(place: int, path: Seq<char>)
    requires
        0 <= place < 8,
        can_be_written(path),
    ensures
        no_break(config_line(place, path)),
        chomp(config_line(place, path)) == config_line(place, path),
{
    reveal_strlit("=");
    reveal_strlit("\"");
    reveal_strlit("XDG_DESKTOP_DIR");
    reveal_strlit("XDG_DOCUMENTS_DIR");
    reveal_strlit("XDG_DOWNLOAD_DIR");
    reveal_strlit("XDG_MUSIC_DIR");
    reveal_strlit("XDG_PICTURES_DIR");
    reveal_strlit("XDG_PUBLICSHARE_DIR");
    reveal_strlit("XDG_TEMPLATES_DIR");
    reveal_strlit("XDG_VIDEOS_DIR");
    let line = config_line(place, path);
    let variable = xdg_variables()[place];
    assert(!variable.contains('\n'));
    assert forall|i: int| 0 <= i < line.len() implies line[i] != '\n' by {
        let v = variable.len() as int;
        if i < v {
            assert(line[i] == variable[i]);
            assert(variable.contains(variable[i]));
        } else if v + 2 <= i < v + 2 + path.len() {
            assert(line[i] == path[i - v - 2]);
            assert(path.contains(path[i - v - 2]));
        }
    }
    assert(line.last() == '"');
}

/// The place at which the configuration lists the directory.
spec fn listed_at(place: int) -> int {
    if place == 0 {
        0
    } else if place == 2 {
        1
    } else if place == 6 {
        2
    } else if place == 5 {
        3
    } else if place == 1 {
        4
    } else if place == 3 {
        5
    } else if place == 4 {
        6
    } else {
        7
    }
}

proof fn lemma_read_back(
    grants: Seq<GrantView>,
    n: int,
    home: Seq<char>,
    place: int,
    name: Seq<char>,
    variable: Seq<char>,
)
    requires
        0 <= n <= 8,
        is_default_name(name, place),
        holds_directory(variable, place),
        forall|g: int| 0 <= g < grants.len() ==> can_be_written((#[trigger] grants[g]).sandbox_path),
    ensures
        xdg_paths(config_lines(grants, n), home)[place] == (if listed_at(place) < n
            && labelled(grants, xdg_labels()[place], 0) is Some {
            labelled(grants, xdg_labels()[place], 0)->0
        } else {
            joined(home, name)
        }),
    decreases n,
{
    if n <= 0 {
        let header = "# Generated by freebsd-flatpak-poc for this sandbox root."@;
        reveal_strlit("# Generated by freebsd-flatpak-poc for this sandbox root.");
        reveal_strlit("#");
        let none = Seq::<Seq<char>>::empty();
        lemma_later_lines_win(none, header, home, place, name);
        assert(none.push(header) =~= seq![header]);
        crate::text::lemma_trim(header);
        assert(!crate::text::is_space('#'));
        assert(!crate::text::is_space('.'));
        assert(header.last() == '.');
        assert(crate::text::is_trimmed(header));
        assert(header.take(1) =~= "#"@);
        assert(xdg_assignment(header, home) is None);
    } else {
        lemma_read_back(grants, n - 1, home, place, name, variable);
        let before = config_lines(grants, n - 1);
        let own = listed_order()[n - 1];
        assert(own == place <==> listed_at(place) == n - 1);
        lemma_labelled(grants, xdg_labels()[own], 0);
        if let Some(path) = labelled(grants, xdg_labels()[own], 0) {
            let k = choose|k: int| #[trigger] first_stands_at(grants, xdg_labels()[own], path, k);
            assert(can_be_written(grants[k].sandbox_path));
            let line = config_line(own, path);
            lemma_later_lines_win(before, line, home, place, name);
            assert(holds_directory(xdg_variables()[own], own));
            lemma_configured_directories(xdg_variables()[own], own, path, home);
        }
    }
}

/// The configuration that is written for a sandbox says where the application finds the user's
/// directories: whoever reads it finds each directory that is granted where it stands, and every
/// other at its usual place.
pub proof fn lemma_written_directories_are_read_back(
    grants: Seq<GrantView>,
    home: Seq<char>,
    place: int,
    label: Seq<char>,
    variable: Seq<char>,
    name: Seq<char>,
)
    requires
        names_directory(label, place),
        holds_directory(variable, place),
        is_default_name(name, place),
        forall|g: int| 0 <= g < grants.len() ==> can_be_written((#[trigger] grants[g]).sandbox_path),
    ensures
        forall|k: int, path: Seq<char>| #[trigger]
            first_stands_at(grants, label, path, k) ==> xdg_paths(
                lines(dirs_config(grants, 8)),
                home,
            )[place] == path,
        (forall|k: int| 0 <= k < grants.len() ==> (#[trigger] grants[k]).label != label)
            ==> xdg_paths(lines(dirs_config(grants, 8)), home)[place] == joined(home, name),
{
    assert(xdg_labels()[place] == label);
    lemma_config_lines(grants, 8);
    lemma_config_lines_clean(grants, 8);
    lemma_lines_of_ended(config_lines(grants, 8));
    assert(lines(dirs_config(grants, 8)) == config_lines(grants, 8));
    lemma_read_back(grants, 8, home, place, name, variable);
    lemma_labelled(grants, label, 0);
    assert forall|k: int, path: Seq<char>| #[trigger]
        first_stands_at(grants, label, path, k) implies xdg_paths(
        lines(dirs_config(grants, 8)),
        home,
    )[place] == path by {
        lemma_first_is_labelled(grants, label, path, k, 0);
    }
}

} // verus!
