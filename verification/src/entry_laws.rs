//! What is run when an application is started, and what it may ask for.

use crate::application_entrypoint::{
    added_args, chooses_platform, entry_file, entry_path, platform_chosen, sandbox_name_of,
};
use crate::flatpak_compatibility::{
    alternatives_met, earlier_series, first_invalid, in_series, version_of,
};
use crate::flatpak_installation::{active_path, deployments_of};
use crate::flatpak_metadata::value_of;
use crate::installation::Installation;
use crate::numbers::{decimal, is_digit, lemma_decimal};
use crate::path::{
    body, components, is_absolute, joined, lemma_body_concat, lemma_joined, lemma_name,
};
use crate::state::AppView;
use crate::text::{join, lemma_join_split, split, starts_with};
use vstd::prelude::*;

verus! {

proof fn lemma_absolute_start(text: Seq<char>)
    ensures
        starts_with(text, "/"@) <==> is_absolute(text),
{
    reveal_strlit("/");
    if starts_with(text, "/"@) {
        assert(text.take(1)[0] == '/');
    }
    if is_absolute(text) {
        assert(text.take(1) =~= "/"@);
    }
}

proof fn lemma_plain_components(name: Seq<char>)
    requires
        name.len() > 1,
        !name.contains('/'),
    ensures
        body(name) == seq![name],
        !is_absolute(name),
{
    assert(seq!['.'].len() == 1);
    lemma_name(name);
}

/// The program of an application is looked for where the sandbox will show it: a command without a
/// slash at its front in `/app/bin`, and a path in `/app` at that path; and `/app` shows the
/// directory `files` of the deployment. A path outside of `/app` names no program of the
/// application.
pub proof fn lemma_where_programs_are(app_dir: Seq<char>, command: Seq<char>)
    requires
        app_dir.len() > 0,
    ensures
        !is_absolute(command) ==> entry_path(command) == "/app/bin/"@ + command && entry_file(
            app_dir,
            command,
        ) is Some && components(entry_file(app_dir, command)->0) == components(app_dir) + seq![
            "files"@,
            "bin"@,
        ] + body(command),
        is_absolute(command) && starts_with(command, "/app/"@) && !is_absolute(command.skip(5))
            ==> entry_path(command) == command && entry_file(app_dir, command) is Some
            && components(entry_file(app_dir, command)->0) == components(app_dir) + seq!["files"@]
            + body(command.skip(5)),
        is_absolute(command) && !starts_with(command, "/app/"@) ==> entry_file(
            app_dir,
            command,
        ) is None,
{
    reveal_strlit("/app/");
    reveal_strlit("/app/bin/");
    reveal_strlit("files");
    reveal_strlit("bin");
    reveal_strlit("bin/");
    lemma_absolute_start(command);
    lemma_plain_components("files"@);
    lemma_plain_components("bin"@);
    let files = joined(app_dir, "files"@);
    lemma_joined(app_dir, "files"@);
    assert(files.len() > 0);
    if !is_absolute(command) {
        let path = "/app/bin/"@ + command;
        assert(path.take(5) =~= "/app/"@);
        let rest = path.skip(5);
        assert(rest =~= "bin"@ + seq!['/'] + command);
        lemma_body_concat("bin"@, command);
        assert(rest[0] == 'b');
        lemma_joined(files, rest);
        assert(components(app_dir) + seq!["files"@] + (seq!["bin"@] + body(command))
            =~= components(app_dir) + seq!["files"@, "bin"@] + body(command));
    } else {
        if starts_with(command, "/app/"@) && !is_absolute(command.skip(5)) {
            lemma_joined(files, command.skip(5));
        }
    }
}

/// An application is told to draw on Wayland only where nobody else has told it where to draw, it is
/// built on Electron, and it asks for Wayland.
pub proof fn lemma_who_is_told_to_use_wayland(metadata: Seq<char>, args: Seq<Seq<char>>)
    ensures
        added_args(metadata, args) == seq!["--ozone-platform=wayland"@] <==> {
            &&& forall|i: int|
                0 <= i < args.len() ==> #[trigger] args[i] != "--ozone-platform"@ && !starts_with(
                    args[i],
                    "--ozone-platform="@,
                )
            &&& value_of(metadata, "Application"@, "base"@) is Some && starts_with(
                value_of(metadata, "Application"@, "base"@)->0,
                "app/org.electronjs.Electron2.BaseApp/"@,
            )
            &&& value_of(metadata, "Context"@, "sockets"@) is Some && split(
                value_of(metadata, "Context"@, "sockets"@)->0,
                ';',
            ).contains("wayland"@)
        },
        added_args(metadata, args) == seq!["--ozone-platform=wayland"@] || added_args(
            metadata,
            args,
        ).len() == 0,
{
    if !platform_chosen(args) {
        assert forall|i: int| 0 <= i < args.len() implies #[trigger] args[i]
            != "--ozone-platform"@ && !starts_with(args[i], "--ozone-platform="@) by {
            assert(!chooses_platform(args[i]));
        }
    }
    assert(seq!["--ozone-platform=wayland"@].len() == 1);
}

/// The name of a sandbox directory is the id of the application, with an underscore in place of
/// every character that is no letter or digit of ASCII, dot, hyphen or underscore.
pub proof fn lemma_names_of_sandbox_directories(app_id: Seq<char>, i: int)
    requires
        0 <= i < app_id.len(),
    ensures
        sandbox_name_of(app_id).len() == app_id.len(),
        sandbox_name_of(app_id)[i] == (if ('a' <= app_id[i] && app_id[i] <= 'z') || ('A'
            <= app_id[i] && app_id[i] <= 'Z') || ('0' <= app_id[i] && app_id[i] <= '9')
            || app_id[i] == '.' || app_id[i] == '-' || app_id[i] == '_' {
            app_id[i]
        } else {
            '_'
        }),
{
}

/// A version as it is written down.
pub open spec fn version_text(major: nat, minor: nat, micro: nat) -> Seq<char> {
    decimal(major) + "."@ + decimal(minor) + "."@ + decimal(micro)
}

proof fn lemma_digits(n: nat)
    ensures
        !decimal(n).contains('.'),
        !decimal(n).contains(';'),
        decimal(n).len() > 0,
        forall|i: int| 0 <= i < decimal(n).len() ==> is_digit(#[trigger] decimal(n)[i]),
{
    lemma_decimal(n);
    let text = decimal(n);
    assert forall|i: int| 0 <= i < text.len() implies text[i] != '.' && text[i] != ';' by {
        assert(is_digit(text[i]));
    }
}

proof fn lemma_version_is_read(major: u32, minor: u32, micro: u32)
    ensures
        version_of(version_text(major as nat, minor as nat, micro as nat)) == Some(
            (major as nat, minor as nat, micro as nat),
        ),
{
    reveal_strlit(".");
    assert("."@ =~= seq!['.']);
    let (a, b, c) = (decimal(major as nat), decimal(minor as nat), decimal(micro as nat));
    lemma_digits(major as nat);
    lemma_digits(minor as nat);
    lemma_digits(micro as nat);
    lemma_decimal(major as nat);
    lemma_decimal(minor as nat);
    lemma_decimal(micro as nat);
    let parts = seq![a, b, c];
    assert forall|i: int| 0 <= i < parts.len() implies !(#[trigger] parts[i]).contains('.') by {
        assert(i == 0 || i == 1 || i == 2);
    }
    lemma_join_split(parts, '.');
    assert(join(parts, seq!['.']) =~= version_text(major as nat, minor as nat, micro as nat)) by {
        reveal_with_fuel(join, 3);
        assert(parts.drop_last() =~= seq![a, b]);
        assert(seq![a, b].drop_last() =~= seq![a]);
    }
}

/// Version 1.12.0 of Flatpak is offered. An application that asks for one version is content if and
/// only if that is no later one.
pub proof fn lemma_versions_that_are_offered(major: u32, minor: u32, micro: u32)
    ensures
        ({
            let items = seq![version_text(major as nat, minor as nat, micro as nat)];
            &&& first_invalid(items) is None
            &&& alternatives_met(items) <==> major < 1 || (major == 1 && (minor < 12 || (minor == 12
                && micro == 0)))
        }),
{
    let text = version_text(major as nat, minor as nat, micro as nat);
    let items = seq![text];
    lemma_version_is_read(major, minor, micro);
    assert(items[0] == text);
    reveal_with_fuel(first_invalid, 2);
    assert(items.drop_last() =~= Seq::<Seq<char>>::empty());
    assert(items.last() == text);
    let version = (major as nat, minor as nat, micro as nat);
    if alternatives_met(items) {
        if exists|i: int|
            0 <= i < items.len() && (version_of(#[trigger] items[i]) matches Some(v) && in_series(
                v,
            )) {
            assert(in_series(version));
        } else {
            assert(version_of(items[0]) matches Some(v) && earlier_series(v));
        }
    }
    if in_series(version) {
        assert(version_of(items[0]) matches Some(v) && in_series(v));
    }
    if earlier_series(version) {
        assert forall|i: int| 0 <= i < items.len() implies (version_of(
            #[trigger] items[i],
        ) matches Some(v) && earlier_series(v)) by {
            assert(items[i] == text);
        }
    }
}

/// The deployment of each installed application is shown where Flatpak has the active one of it.
pub proof fn lemma_where_deployments_are_shown(
    paths: Installation,
    target_root: Seq<char>,
    apps: Seq<AppView>,
    i: int,
)
    requires
        0 <= i < apps.len(),
        target_root.len() > 0,
        paths.data_root@.len() > 0,
        !is_absolute(apps[i].app_dir),
        apps[i].app_id.len() > 0,
        !apps[i].app_id.contains('/'),
        apps[i].app_id != seq!['.'],
    ensures
        deployments_of(paths, target_root, apps).len() == apps.len(),
        components(deployments_of(paths, target_root, apps)[i].0) == components(
            paths.data_root@,
        ) + body(apps[i].app_dir),
        components(deployments_of(paths, target_root, apps)[i].1) == components(target_root)
            + seq![apps[i].app_id, "current"@, "active"@],
{
    reveal_strlit("current/active");
    reveal_strlit("current");
    reveal_strlit("active");
    let id = apps[i].app_id;
    lemma_joined(paths.data_root@, apps[i].app_dir);
    lemma_name(id);
    lemma_plain_components("current"@);
    lemma_plain_components("active"@);
    let rest = "current/active"@;
    assert(rest =~= "current"@ + seq!['/'] + "active"@);
    lemma_body_concat("current"@, "active"@);
    assert(rest[0] == 'c');
    lemma_joined(id, rest);
    let place = active_path(id);
    assert(place[0] == id[0]);
    assert(id[0] != '/') by {
        assert(id.contains(id[0]));
    }
    lemma_relative_body(place, id, rest);
    lemma_joined(target_root, place);
    assert(components(target_root) + (seq![id] + (seq!["current"@] + seq!["active"@]))
        =~= components(target_root) + seq![id, "current"@, "active"@]);
}

proof fn lemma_relative_body(place: Seq<char>, id: Seq<char>, rest: Seq<char>)
    requires
        id.len() > 0,
        !id.contains('/'),
        id != seq!['.'],
        !is_absolute(rest),
        place == joined(id, rest),
    ensures
        body(place) == seq![id] + body(rest),
{
    assert(id.last() != '/') by {
        assert(id.contains(id[id.len() - 1]));
    }
    assert(place =~= id + seq!['/'] + rest);
    lemma_body_concat(id, rest);
    lemma_name(id);
}

} // verus!
