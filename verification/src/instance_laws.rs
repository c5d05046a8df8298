//! What holds of a sandbox from its start to its end: what of the host's files is covered in it, what
//! its application finds first, and what is done when it is taken down.

use crate::chroot_instance::{
    assignments, cleanup_after, cleanup_next, identity_args, launch_command_args,
    resource_variables, service_variables, shown_home, CleanupStage, CleanupView, HostEnvironment,
};
use crate::environment_laws::lemma_search_order;
use crate::extensions::{library_paths, AppExtension};
use crate::filesystem_grants::GrantView;
use crate::flatpak_data_mount_plan::{
    aliases, grants_after, grants_before, is_after, is_before, masked, overlaps_any, CanonicalPath,
};
use crate::flatpak_metadata::{last_value, pair_texts};
use crate::host_filesystem::{dir_variables, HostFilesystem};
use crate::launch_environment::{
    first_value, lemma_paths_keep_others, merged_env, with_paths_before, without_variable,
};
use crate::numbers::decimal;
use crate::order::{lemma_sorted_set_member, path_le};
use crate::path::{same_path, within};
use crate::spawn_broker::{lemma_variable_place, variable_place};
use crate::text::{lemma_selected, selected, split, texts, views};
use vstd::prelude::*;

verus! {

/// Where a grant is mounted, seen from the directories that are protected. One that lies in the
/// application's own data is mounted with it. One that lies in a protected directory is mounted
/// again after that is covered, and any other before.
pub proof fn lemma_where_grants_are_mounted(
    grants: Seq<GrantView>,
    app_data: Seq<char>,
    root: Seq<char>,
    reserved: Seq<Seq<char>>,
    grant: GrantView,
)
    ensures
        grants_before(grants, app_data, root, reserved).contains(grant) <==> grants.contains(grant)
            && !within(grant.sandbox_path, app_data) && !within(grant.sandbox_path, root)
            && forall|i: int|
            0 <= i < reserved.len() ==> !within(grant.sandbox_path, #[trigger] reserved[i]),
        grants_after(grants, app_data, root, reserved).contains(grant) <==> grants.contains(grant)
            && !within(grant.sandbox_path, app_data) && (within(grant.sandbox_path, root)
            || exists|i: int|
            0 <= i < reserved.len() && within(grant.sandbox_path, #[trigger] reserved[i])),
{
    lemma_selected(grants, |g: GrantView| is_before(g, app_data, root, reserved));
    lemma_selected(grants, |g: GrantView| is_after(g, app_data, root, reserved));
}

/// A protected directory is covered only where a grant that was mounted before shows something of
/// it or is shown in it.
pub proof fn lemma_covered_only_where_shown(
    roots: Seq<Seq<char>>,
    before: Seq<GrantView>,
    i: int,
)
    requires
        0 <= i < masked(roots, before).len(),
    ensures
        roots.contains(masked(roots, before)[i]),
        exists|g: int|
            0 <= g < before.len() && (within(
                (#[trigger] before[g]).sandbox_path,
                masked(roots, before)[i],
            ) || within(masked(roots, before)[i], before[g].sandbox_path)),
{
    let shown = selected(roots, |root: Seq<char>| overlaps_any(root, before));
    lemma_selected(roots, |root: Seq<char>| overlaps_any(root, before));
    let k = lemma_sorted_set_member(
        shown,
        |p: Seq<char>, q: Seq<char>| path_le(p, q),
        |p: Seq<char>, q: Seq<char>| same_path(p, q),
        i,
    );
    let root = masked(roots, before)[i];
    assert(shown[k] == root);
    assert(shown.contains(root));
    assert(overlaps_any(root, before));
}

/// The other names of protected directories are those under which they are without symbolic links,
/// where that differs from the name that they go by.
pub proof fn lemma_other_names(paths: Seq<CanonicalPath>, name: Seq<char>)
    ensures
        aliases(paths).contains(name) <==> exists|i: int|
            0 <= i < paths.len() && is_other_name(#[trigger] paths[i], name),
    decreases paths.len(),
{
    let all = aliases(paths);
    if paths.len() > 0 {
        let head = paths.drop_last();
        let before = aliases(head);
        lemma_other_names(head, name);
        if before.contains(name) {
            let i = choose|i: int| 0 <= i < head.len() && is_other_name(#[trigger] head[i], name);
            assert(paths[i] == head[i]);
            let k = choose|k: int| 0 <= k < before.len() && before[k] == name;
            assert(all[k] == name);
        }
        if is_other_name(paths[paths.len() - 1], name) {
            assert(all[before.len() as int] == name);
        }
        if all.contains(name) && !before.contains(name) {
            let k = choose|k: int| 0 <= k < all.len() && all[k] == name;
            if k < before.len() {
                assert(before[k] == name);
            }
            assert(is_other_name(paths[paths.len() - 1], name));
        }
        if exists|i: int| 0 <= i < paths.len() && is_other_name(#[trigger] paths[i], name) {
            let i = choose|i: int|
                0 <= i < paths.len() && is_other_name(#[trigger] paths[i], name);
            if i < head.len() {
                assert(head[i] == paths[i]);
            }
        }
    }
}

/// Whether a directory is under the name without symbolic links, and goes by another.
pub open spec fn is_other_name(path: CanonicalPath, name: Seq<char>) -> bool {
    path.canonical is Some && path.canonical->0@ == name && !same_path(name, path.path@)
}

proof fn lemma_first_stays(
    env: Seq<(Seq<char>, Seq<char>)>,
    more: Seq<(Seq<char>, Seq<char>)>,
    key: Seq<char>,
    from: int,
)
    requires
        0 <= from <= env.len(),
        variable_place(env, key, from) is Some,
    ensures
        variable_place(env + more, key, from) == variable_place(env, key, from),
    decreases env.len() - from,
{
    if from < env.len() {
        assert((env + more)[from] == env[from]);
        if env[from].0 != key {
            lemma_first_stays(env, more, key, from + 1);
        }
    }
}

proof fn lemma_first_after(
    env: Seq<(Seq<char>, Seq<char>)>,
    more: Seq<(Seq<char>, Seq<char>)>,
    key: Seq<char>,
)
    requires
        first_value(env, key) is Some,
    ensures
        first_value(env + more, key) == first_value(env, key),
{
    lemma_first_stays(env, more, key, 0);
    lemma_variable_place(env, key, 0);
}

proof fn lemma_set_anew(env: Seq<(Seq<char>, Seq<char>)>, key: Seq<char>, value: Seq<char>)
    ensures
        first_value(without_variable(env, key).push((key, value)), key) == Some(value),
{
    let rest = without_variable(env, key);
    let all = rest.push((key, value));
    lemma_variable_place(all, key, 0);
    assert(all[rest.len() as int] == (key, value));
    if let Some(i) = variable_place(all, key, 0) {
        if i < rest.len() {
            assert(all[i] == rest[i]);
            assert(rest.contains(rest[i]));
            crate::environment_laws::lemma_taken_out(env, key, rest[i]);
        }
    }
}

/// The home that an application is told is the user's own where it is given that, and the data of the
/// application otherwise; what the host's services add does not change it.
pub proof fn lemma_where_applications_are_at_home(
    start: Seq<(Seq<char>, Seq<char>)>,
    host: HostFilesystem,
    resources: HostEnvironment,
)
    ensures
        first_value(service_variables(start, host, resources), "HOME"@) == Some(
            shown_home(host, "/var/data"@),
        ),
{
    reveal_strlit("HOME");
    reveal_strlit("XDG_CONFIG_DIRS");
    assert("HOME"@.len() == 4);
    assert("XDG_CONFIG_DIRS"@.len() == 15);
    let home = shown_home(host, "/var/data"@);
    let at_home = without_variable(start, "HOME"@).push(("HOME"@, home));
    let dirs = dir_variables(views(host.grants@), 8);
    lemma_set_anew(start, "HOME"@, home);
    lemma_first_after(at_home, dirs, "HOME"@);
    lemma_first_after(at_home + dirs, pair_texts(resources.audio@), "HOME"@);
    lemma_first_after(
        at_home + dirs + pair_texts(resources.audio@),
        pair_texts(resources.cursor@),
        "HOME"@,
    );
    let with_sound = at_home + dirs + pair_texts(resources.audio@) + pair_texts(resources.cursor@);
    let config_dirs = texts(resources.cursor_config_dirs@);
    lemma_paths_keep_others(with_sound, "XDG_CONFIG_DIRS"@, config_dirs, "HOME"@);
    lemma_first_after(
        with_paths_before(with_sound, "XDG_CONFIG_DIRS"@, config_dirs),
        pair_texts(resources.portal@),
        "HOME"@,
    );
}

/// Whether none of the paths holds the character that separates them.
pub open spec fn can_be_listed(paths: Seq<Seq<char>>) -> bool {
    forall|i: int| 0 <= i < paths.len() ==> !(#[trigger] paths[i]).contains(':')
}

/// The directories that a variable lists.
pub open spec fn listed_in(value: Option<Seq<char>>) -> Seq<Seq<char>> {
    match value {
        Some(text) => if text.len() == 0 {
            Seq::empty()
        } else {
            split(text, ':')
        },
        None => Seq::empty(),
    }
}

proof fn lemma_put_before(
    env: Seq<(Seq<char>, Seq<char>)>,
    key: Seq<char>,
    paths: Seq<Seq<char>>,
)
    requires
        can_be_listed(paths),
        forall|i: int| 0 <= i < paths.len() ==> (#[trigger] paths[i]).len() > 0,
    ensures
        listed_in(first_value(with_paths_before(env, key, paths), key)) == paths + listed_in(
            first_value(env, key),
        ),
{
    let none = Seq::<Seq<char>>::empty();
    if paths.len() == 0 {
        assert(paths =~= none);
        assert(none + listed_in(first_value(env, key)) =~= listed_in(first_value(env, key)));
    } else {
        lemma_search_order(env, key, paths);
        let value = first_value(with_paths_before(env, key, paths), key)->0;
        assert(value.len() > 0) by {
            if value.len() == 0 {
                assert(split(value, ':') =~= seq![value]) by {
                    assert(crate::text::first_index(value, ':') == 0);
                }
                assert(split(value, ':')[0] == paths[0]);
                assert(paths[0].len() > 0);
            }
        }
    }
}

/// Whether a list of paths can be put before others.
pub open spec fn is_path_list(paths: Seq<Seq<char>>) -> bool {
    can_be_listed(paths) && forall|i: int| 0 <= i < paths.len() ==> (#[trigger] paths[i]).len() > 0
}

/// An application looks for libraries first in its extensions, then where the host's video driver has
/// them, then where it was told before. It preloads what the network needs, then what graphics need,
/// then what it was told before.
pub proof fn lemma_where_libraries_are_found(
    env: Seq<(Seq<char>, Seq<char>)>,
    resources: HostEnvironment,
    extensions: Seq<AppExtension>,
)
    requires
        is_path_list(texts(resources.network_preload_paths@)),
        is_path_list(texts(resources.ld_preload_paths@)),
        is_path_list(texts(resources.video_library_paths@)),
        is_path_list(library_paths("/app"@, views(extensions))),
        last_value(pair_texts(resources.video@), "LD_LIBRARY_PATH"@) is None,
        last_value(pair_texts(resources.video@), "LD_PRELOAD"@) is None,
        last_value(pair_texts(resources.graphics@), "LD_LIBRARY_PATH"@) is None,
        last_value(pair_texts(resources.graphics@), "LD_PRELOAD"@) is None,
    ensures
        ({
            let all = resource_variables(env, resources, extensions);
            &&& listed_in(first_value(all, "LD_LIBRARY_PATH"@)) == library_paths(
                "/app"@,
                views(extensions),
            ) + texts(resources.video_library_paths@) + listed_in(
                first_value(env, "LD_LIBRARY_PATH"@),
            )
            &&& listed_in(first_value(all, "LD_PRELOAD"@)) == texts(
                resources.network_preload_paths@,
            ) + texts(resources.ld_preload_paths@) + listed_in(first_value(env, "LD_PRELOAD"@))
        }),
{
    let lib = "LD_LIBRARY_PATH"@;
    let pre = "LD_PRELOAD"@;
    let zypak = "ZYPAK_LD_PRELOAD"@;
    reveal_strlit("LD_LIBRARY_PATH");
    reveal_strlit("LD_PRELOAD");
    reveal_strlit("ZYPAK_LD_PRELOAD");
    assert(lib.len() == 15);
    assert(pre.len() == 10);
    assert(zypak.len() == 16);
    let network = texts(resources.network_preload_paths@);
    let graphics = texts(resources.ld_preload_paths@);
    let zypaks = texts(resources.zypak_ld_preload_paths@);
    let video = texts(resources.video_library_paths@);
    let own = library_paths("/app"@, views(extensions));
    let e0 = merged_env(env, pair_texts(resources.graphics@));
    crate::environment_laws::lemma_updates_win(env, pair_texts(resources.graphics@), lib);
    crate::environment_laws::lemma_updates_win(env, pair_texts(resources.graphics@), pre);
    let e1 = with_paths_before(e0, pre, graphics);
    lemma_put_before(e0, pre, graphics);
    lemma_paths_keep_others(e0, pre, graphics, lib);
    let e2 = with_paths_before(e1, zypak, zypaks);
    lemma_paths_keep_others(e1, zypak, zypaks, lib);
    lemma_paths_keep_others(e1, zypak, zypaks, pre);
    let e3 = with_paths_before(e2, pre, network);
    lemma_put_before(e2, pre, network);
    lemma_paths_keep_others(e2, pre, network, lib);
    let e4 = with_paths_before(e3, zypak, network);
    lemma_paths_keep_others(e3, zypak, network, lib);
    lemma_paths_keep_others(e3, zypak, network, pre);
    let e5 = with_paths_before(e4, lib, video);
    lemma_put_before(e4, lib, video);
    lemma_paths_keep_others(e4, lib, video, pre);
    let e6 = with_paths_before(e5, lib, own);
    lemma_put_before(e5, lib, own);
    lemma_paths_keep_others(e5, lib, own, pre);
    crate::environment_laws::lemma_updates_win(e6, pair_texts(resources.video@), lib);
    crate::environment_laws::lemma_updates_win(e6, pair_texts(resources.video@), pre);
    let all = resource_variables(env, resources, extensions);
    assert(all == merged_env(e6, pair_texts(resources.video@)));
    assert(own + (video + listed_in(first_value(env, lib))) =~= own + video + listed_in(
        first_value(env, lib),
    ));
    assert(network + (graphics + listed_in(first_value(env, pre))) =~= network + graphics
        + listed_in(first_value(env, pre)));
}

/// An application is started as the user, in the root of its sandbox, with the variables that were
/// chosen for it and no others, and with its arguments last.
pub proof fn lemma_how_applications_are_started(
    uid: u32,
    gid: u32,
    groups: Seq<u32>,
    root: Seq<char>,
    env: Seq<(Seq<char>, Seq<char>)>,
    entry: Seq<char>,
    args: Seq<Seq<char>>,
)
    ensures
        ({
            let command = launch_command_args(uid, gid, groups, root, env, entry, args);
            let n = command.len() - args.len();
            let e = n - 1 - env.len();
            &&& n >= 9 + env.len()
            &&& command[0] == "chroot"@
            &&& command[1] == "-u"@ && command[2] == decimal(uid as nat)
            &&& command[3] == "-g"@ && command[4] == decimal(gid as nat)
            &&& groups.len() > 0 ==> command[5] == "-G"@
            &&& command[e - 3] == root
            &&& command[e - 2] == "/usr/bin/env"@
            &&& command[e - 1] == "-i"@
            &&& forall|i: int|
                0 <= i < env.len() ==> command[e + i] == (#[trigger] env[i]).0 + "="@ + env[i].1
            &&& command[n - 1] == entry
            &&& command.skip(n) == args
        }),
{
    let command = launch_command_args(uid, gid, groups, root, env, entry, args);
    let start = identity_args(uid, gid, groups);
    let n = command.len() - args.len();
    let e = n - 1 - env.len();
    assert(e == start.len() + 3);
    assert forall|i: int| 0 <= i < env.len() implies command[e + i] == (#[trigger] env[i]).0 + "="@
        + env[i].1 by {
        assert(command[e + i] == assignments(env)[i]);
    }
    assert(command.skip(n) =~= args);
}

/// The stages of taking a sandbox down with so many mounts, where nothing fails.
pub open spec fn is_stage_at(stage: CleanupStage, mounts: int, n: int) -> bool {
    ||| n == 0 && stage == CleanupStage::EndProcesses
    ||| n == 1 && stage == CleanupStage::ClosePortal
    ||| 2 <= n < 2 + mounts && (stage matches CleanupStage::Unmount(at) && at == n - 2)
    ||| n == 2 + mounts && stage == CleanupStage::RemoveGraphics
    ||| n == 3 + mounts && stage == CleanupStage::CloseAudio
    ||| n == 4 + mounts && stage == CleanupStage::RemoveRoot
    ||| n == 5 + mounts && stage == CleanupStage::RemoveRecord
    ||| n == 6 + mounts && stage == CleanupStage::RemoveRetired
    ||| n >= 7 + mounts && stage == CleanupStage::Done
}

/// Where nothing fails, a sandbox is taken down to the end: its processes first, then the portal,
/// then every mount in the order, and only then what it was made of, its record and the deployments
/// that it kept.
pub proof fn lemma_taken_down_to_the_end(start: CleanupView, ends: Seq<Option<Seq<char>>>)
    requires
        start.stage == CleanupStage::EndProcesses,
        start.order.len() < usize::MAX,
        start.remaining.len() == 0,
        start.refused is None,
        start.errors.len() == 0,
        forall|i: int| 0 <= i < ends.len() ==> (#[trigger] ends[i]) is None,
    ensures
        is_stage_at(
            cleanup_after(start, ends).stage,
            start.order.len() as int,
            ends.len() as int,
        ),
        cleanup_after(start, ends).errors.len() == 0,
        cleanup_after(start, ends).remaining.len() == 0,
        cleanup_after(start, ends).refused is None,
        cleanup_after(start, ends).order == start.order,
    decreases ends.len(),
{
    if ends.len() > 0 {
        let head = ends.drop_last();
        assert forall|i: int| 0 <= i < head.len() implies (#[trigger] head[i]) is None by {
            assert(head[i] == ends[i]);
        }
        lemma_taken_down_to_the_end(start, head);
        assert(ends[ends.len() - 1] is None);
    }
}

/// A mount that could not be taken down is remembered, and the others are taken down all the same.
pub proof fn lemma_failures_are_remembered(now: CleanupView, at: usize, error: Seq<char>)
    requires
        now.stage == CleanupStage::Unmount(at),
        at < now.order.len(),
        now.order.len() < usize::MAX,
    ensures
        cleanup_next(now, Some(error)).remaining == now.remaining.push(now.order[at as int]),
        cleanup_next(now, Some(error)).errors == now.errors.push(error),
        cleanup_next(now, None).remaining == now.remaining,
        cleanup_next(now, None).errors == now.errors,
        at + 1 < now.order.len() ==> cleanup_next(now, Some(error)).stage == CleanupStage::Unmount(
            (at + 1) as usize,
        ) && cleanup_next(now, None).stage == CleanupStage::Unmount((at + 1) as usize),
{
}

} // verus!
