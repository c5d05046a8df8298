//! What an application is given of the host's files: all that its permissions name, and nothing
//! that they do not.

use crate::filesystem_grants::{
    authorized, chroot_relative, has_parent, lemma_authorized_mounts, lemma_authorized_roots,
    lemma_authorized_within, overlap, GrantView,
};
use crate::filesystem_permissions::{names_of, AccessMode, PermissionView};
use crate::grant_builder::{
    advanced, after_listing, after_resolved, after_root, below, candidates, child_candidates,
    entry_le, grants_are_safe, grants_merge, is_covered, lemma_grants_stay_safe, made_grant,
    permission_outcome, placed_below, same_mount, settled, was_given, was_writable, with_suffix,
    BuilderView, CandidateView, EntryView, GrantSettings, PermissionOutcome, ResolutionView,
    Settled, TaskView,
};
use crate::order::{lemma_sorted, sorted};
use crate::path::{
    body, components, is_absolute, joined, kept, lead, lemma_body_concat, lemma_body_kept,
    lemma_body_names, lemma_joined, lemma_joined_inside, lemma_name, lemma_path_after,
    lemma_relative_components, lemma_strip_join, lemma_within_order, path_after, path_texts,
    same_path, within,
};
use crate::text::{
    first_index, join, lemma_first_index, lemma_first_index_unique, split_once,
};
use crate::xdg_user_dirs::{place_in, xdg_labels};
use vstd::prelude::*;

verus! {

/// Whether all are names of components.
pub open spec fn plain(names: Seq<Seq<char>>) -> bool {
    forall|i: int|
        0 <= i < names.len() ==> kept(#[trigger] names[i]) && !names[i].contains('/')
}

/// Names with a slash between each two are a path that has them as its components.
pub proof fn lemma_joined_names(names: Seq<Seq<char>>)
    requires
        plain(names),
        names.len() > 0,
    ensures
        body(join(names, "/"@)) == names,
        lead(join(names, "/"@)).len() == 0,
        !is_absolute(join(names, "/"@)),
        join(names, "/"@).len() > 0,
    decreases names.len(),
{
    reveal_strlit("/");
    assert("/"@ =~= seq!['/']);
    let text = join(names, "/"@);
    let last = names.last();
    assert(names[names.len() - 1] == last);
    lemma_name(last);
    if names.len() == 1 {
        assert(names =~= seq![last]);
        lemma_first_index_unique_name(last);
    } else {
        let head = names.drop_last();
        assert forall|i: int| 0 <= i < head.len() implies kept(#[trigger] head[i])
            && !head[i].contains('/') by {
            assert(head[i] == names[i]);
        }
        lemma_joined_names(head);
        let a = join(head, "/"@);
        lemma_body_concat(a, last);
        assert(head + seq![last] =~= names);
        lemma_first_index(a, '/');
        let i = first_index(a, '/') as int;
        assert forall|j: int| 0 <= j < i implies text[j] != '/' by {
            assert(text[j] == a[j]);
        }
        assert(text[i] == '/');
        lemma_first_index_unique(text, '/', i);
        assert(text.take(i) =~= a.take(i));
        assert(text[0] == a[0]);
    }
}

proof fn lemma_first_index_unique_name(name: Seq<char>)
    requires
        kept(name),
        !name.contains('/'),
    ensures
        lead(name).len() == 0,
{
    assert forall|j: int| 0 <= j < name.len() implies name[j] != '/' by {
        assert(name.contains(name[j]));
    }
    lemma_first_index_unique(name, '/', name.len() as int);
    assert(name.take(name.len() as int) =~= name);
}

proof fn lemma_names_of_plain(front: Seq<Seq<char>>, names: Seq<Seq<char>>)
    requires
        plain(names),
        front.len() <= 1,
        front.len() == 1 ==> front[0] == "/"@ || front[0] == "."@,
    ensures
        names_of(front + names) == names,
    decreases names.len(),
{
    reveal_strlit("/");
    reveal_strlit(".");
    if names.len() == 0 {
        reveal_with_fuel(names_of, 2);
        assert(front + names =~= front);
        assert(names =~= Seq::<Seq<char>>::empty());
        if front.len() == 1 {
            assert(front.drop_last() =~= Seq::<Seq<char>>::empty());
            assert(front.last() == front[0]);
        }
    } else {
        let head = names.drop_last();
        assert forall|i: int| 0 <= i < head.len() implies kept(#[trigger] head[i])
            && !head[i].contains('/') by {
            assert(head[i] == names[i]);
        }
        lemma_names_of_plain(front, head);
        let all = front + names;
        let last = names[names.len() - 1];
        assert(all.last() == last);
        assert(all.drop_last() =~= front + head);
        if last == "/"@ {
            assert(last[0] == '/');
            assert(last.contains('/'));
        }
        if last == "."@ {
            assert(last =~= seq!['.']);
        }
        assert(head.push(last) =~= names);
    }
}

/// The names of a path are its components after the root or the leading `.`.
pub proof fn lemma_body_plain(p: Seq<char>)
    ensures
        plain(body(p)),
        names_of(components(p)) == body(p),
{
    reveal_strlit("/");
    reveal_strlit(".");
    lemma_body_names(p);
    lemma_body_kept(p);
    assert(seq!['/'] =~= "/"@);
    assert(seq!['.'] =~= "."@);
    lemma_names_of_plain(lead(p), body(p));
}

/// A path of the sandbox has a place below the directory that is the sandbox's root if and only if
/// it is absolute, nowhere goes up and is not the root itself. The place is reached from the
/// directory by the same names by which the path is reached from the root.
pub proof fn lemma_places_mirror_paths(root: Seq<char>, path: Seq<char>)
    ensures
        chroot_relative(path) is Some <==> is_absolute(path) && components(path).len() > 1 && !(
        exists|i: int| 0 <= i < components(path).len() && #[trigger] components(path)[i] == ".."@),
        chroot_relative(path) is Some ==> {
            &&& !is_absolute(chroot_relative(path)->0)
            &&& components(chroot_relative(path)->0) == components(path).skip(1)
            &&& root.len() > 0 ==> components(joined(root, chroot_relative(path)->0))
                == components(root) + components(path).skip(1)
        },
{
    lemma_body_plain(path);
    let names = names_of(components(path));
    if is_absolute(path) {
        assert(components(path).skip(1) =~= body(path));
    }
    if let Some(place) = chroot_relative(path) {
        lemma_joined_names(names);
        assert(components(place) =~= names);
        if root.len() > 0 {
            lemma_joined(root, place);
        }
    }
}

proof fn lemma_same_place(p: Seq<char>, q: Seq<char>)
    requires
        same_path(p, q),
    ensures
        chroot_relative(p) == chroot_relative(q),
        is_absolute(p) == is_absolute(q),
{
    reveal_strlit("/");
    assert(seq!['/'] =~= "/"@);
    if is_absolute(p) && !is_absolute(q) {
        lemma_relative_components(q);
        assert(components(p)[0] == "/"@);
        assert(components(q)[0] == "/"@);
    }
    if is_absolute(q) && !is_absolute(p) {
        lemma_relative_components(p);
        assert(components(q)[0] == "/"@);
        assert(components(p)[0] == "/"@);
    }
}

/// A permission with a subpath names the path that is reached from its directory by the names of
/// the subpath. One that would lead elsewhere, because it is absolute or goes up, names nothing.
pub proof fn lemma_subpaths_stay_below(base: Seq<char>, suffix: Seq<char>)
    requires
        base.len() > 0,
    ensures
        with_suffix(base, Some(suffix)) is Some <==> !is_absolute(suffix) && !(exists|i: int|
            0 <= i < components(suffix).len() && #[trigger] components(suffix)[i] == ".."@),
        with_suffix(base, Some(suffix)) matches Some(path) ==> components(path) == components(base)
            + body(suffix),
{
    reveal_strlit("/");
    assert(seq!['/'] =~= "/"@);
    if is_absolute(suffix) {
        assert(components(suffix)[0] == "/"@);
    } else {
        lemma_relative_components(suffix);
    }
    lemma_body_plain(suffix);
    lemma_below(base, body(suffix));
}

proof fn lemma_below(base: Seq<char>, names: Seq<Seq<char>>)
    requires
        base.len() > 0,
        plain(names),
    ensures
        components(below(base, names)) == components(base) + names,
        below(base, names).len() > 0,
    decreases names.len(),
{
    if names.len() == 0 {
        assert(components(base) + names =~= components(base));
    } else {
        let head = names.drop_last();
        assert forall|i: int| 0 <= i < head.len() implies kept(#[trigger] head[i])
            && !head[i].contains('/') by {
            assert(head[i] == names[i]);
        }
        lemma_below(base, head);
        let last = names[names.len() - 1];
        lemma_name(last);
        lemma_joined(below(base, head), last);
        assert(components(base) + head + seq![last] =~= components(base) + names);
    }
}

/// What is learnt of the host's files.
pub ghost enum AnswerView {
    IsDirectory(bool),
    Resolved(ResolutionView),
    Listed(Seq<EntryView>),
}

/// Where the builder stands before it has taken up a permission.
pub open spec fn fresh() -> BuilderView {
    BuilderView {
        next: 0,
        pending: Seq::empty(),
        grants: Seq::empty(),
        warnings: Seq::empty(),
        given: Seq::empty(),
    }
}

/// Where the builder stands once it knows what to ask next.
pub open spec fn ready(
    settings: GrantSettings,
    permissions: Seq<PermissionView>,
    state: BuilderView,
) -> Option<BuilderView> {
    match advanced(settings, permissions, state) {
        Ok(next) => Some(next),
        Err(_) => None,
    }
}

/// Where the builder stands after the answer to its question.
pub open spec fn answered(
    settings: GrantSettings,
    permissions: Seq<PermissionView>,
    state: BuilderView,
    answer: AnswerView,
) -> Option<BuilderView> {
    if state.pending.len() == 0 {
        None
    } else {
        match (state.pending[0], answer) {
            (TaskView::HostRoot(_, _), AnswerView::IsDirectory(is_dir)) => Some(
                after_root(settings, permissions, state, is_dir),
            ),
            (TaskView::Resolve(_), AnswerView::Resolved(resolution)) => after_resolved(
                settings,
                permissions,
                state,
                resolution,
            ),
            (TaskView::Expand(_), AnswerView::Listed(entries)) => Some(
                after_listing(state, entries),
            ),
            _ => None,
        }
    }
}

/// Where the builder stands after the answers to all its questions so far; nowhere if it gave up.
pub open spec fn stand(
    settings: GrantSettings,
    permissions: Seq<PermissionView>,
    answers: Seq<AnswerView>,
) -> Option<BuilderView>
    decreases answers.len(),
{
    if answers.len() == 0 {
        ready(settings, permissions, fresh())
    } else {
        match stand(settings, permissions, answers.drop_last()) {
            Some(state) => match answered(settings, permissions, state, answers.last()) {
                Some(next) => ready(settings, permissions, next),
                None => None,
            },
            None => None,
        }
    }
}

/// The question to which an answer was given.
pub open spec fn question(
    settings: GrantSettings,
    permissions: Seq<PermissionView>,
    answers: Seq<AnswerView>,
    i: int,
) -> TaskView {
    stand(settings, permissions, answers.take(i))->0.pending[0]
}

/// Whether a path is one of the directories of the host that hold what users keep.
pub open spec fn is_host_directory(p: Seq<char>) -> bool {
    p == "/home"@ || p == "/media"@ || p == "/mnt"@ || p == "/opt"@ || p == "/run/media"@ || p
        == "/srv"@
}

/// Whether a word stands for a directory of the user in permissions.
pub open spec fn stands_for(
    settings: GrantSettings,
    word: Seq<char>,
    directory: Seq<char>,
) -> bool {
    let paths = path_texts(settings.xdg_dirs.paths@);
    ||| word == "home"@ && directory == settings.home@
    ||| word == "~"@ && directory == settings.home@
    ||| word == "xdg-desktop"@ && directory == paths[0]
    ||| word == "xdg-documents"@ && directory == paths[1]
    ||| word == "xdg-download"@ && directory == paths[2]
    ||| word == "xdg-music"@ && directory == paths[3]
    ||| word == "xdg-pictures"@ && directory == paths[4]
    ||| word == "xdg-public-share"@ && directory == paths[5]
    ||| word == "xdg-templates"@ && directory == paths[6]
    ||| word == "xdg-videos"@ && directory == paths[7]
}

/// Whether an answer to a question about a path below which a permission reaches says that all is
/// there as it seems: the root is a directory, and the path is one without symbolic links.
pub open spec fn is_there(
    task: TaskView,
    answer: AnswerView,
    root: Seq<char>,
    path: Seq<char>,
) -> bool {
    match task {
        TaskView::HostRoot(_, asked) => asked == root ==> answer == AnswerView::IsDirectory(true),
        TaskView::Resolve(candidate) => same_path(candidate.host_path, path) ==> match answer {
            AnswerView::Resolved(ResolutionView::Directory(found)) => same_path(found, path),
            _ => false,
        },
        TaskView::Expand(_) => true,
    }
}

/// Whether a path may be mounted at its own place in the sandbox: it is no part of this program's
/// state, and the place is neither in it nor around it.
pub open spec fn may_be_mounted(settings: GrantSettings, path: Seq<char>) -> bool {
    &&& is_absolute(path)
    &&& components(path).len() > 1
    &&& !(exists|i: int|
        0 <= i < components(path).len() && #[trigger] components(path)[i] == ".."@)
    &&& !within(path, settings.project_root@)
    &&& forall|place: Seq<char>|
        components(place) == components(settings.sandbox_root@) + components(path).skip(1) ==> !(
        #[trigger] within(path, place)) && !within(place, path)
}

/// Whether a grant of the root reaches the path: the path is the root, or something is mounted
/// there.
pub open spec fn reaches(settings: GrantSettings, root: Seq<char>, path: Seq<char>) -> bool {
    same_path(path, root) || within(path, root) && path_texts(settings.mount_points@).contains(path)
}

/// Whether one of the grants shows the path at its own place, with at least the access.
pub open spec fn is_granted(grants: Seq<GrantView>, path: Seq<char>, access: AccessMode) -> bool {
    exists|g: int|
        0 <= g < grants.len() && same_path((#[trigger] grants[g]).host_path, path) && same_path(
            grants[g].sandbox_path,
            path,
        ) && (access == AccessMode::ReadWrite ==> grants[g].access == AccessMode::ReadWrite)
}

spec fn grants_path(grant: GrantView, access: AccessMode, t: Seq<char>) -> bool {
    same_path(grant.host_path, t) && same_path(grant.canonical_host_path, t) && same_path(
        grant.sandbox_path,
        t,
    ) && grant.access == access
}

spec fn asks_path(task: TaskView, k: int, t: Seq<char>) -> bool {
    match task {
        TaskView::Resolve(c) => c.permission == k && same_path(c.host_path, t) && same_path(
            c.sandbox_path,
            t,
        ),
        _ => false,
    }
}

spec fn has_grant(given: Seq<GrantView>, access: AccessMode, t: Seq<char>) -> bool {
    exists|j: int| 0 <= j < given.len() && grants_path(#[trigger] given[j], access, t)
}

spec fn has_candidate(pending: Seq<TaskView>, k: int, t: Seq<char>) -> bool {
    exists|j: int| 0 <= j < pending.len() && asks_path(#[trigger] pending[j], k, t)
}

spec fn is_root_task(task: TaskView, k: int, root: Seq<char>) -> bool {
    task == TaskView::HostRoot(k, root)
}

spec fn has_root(pending: Seq<TaskView>, k: int, root: Seq<char>) -> bool {
    exists|j: int| 0 <= j < pending.len() && is_root_task(#[trigger] pending[j], k, root)
}

spec fn on_the_way(
    permissions: Seq<PermissionView>,
    state: BuilderView,
    k: int,
    root: Seq<char>,
    t: Seq<char>,
) -> bool {
    ||| has_grant(state.given, permissions[k].access, t)
    ||| has_candidate(state.pending, k, t)
    ||| has_root(state.pending, k, root)
    ||| state.next <= k
}

/// Whether taking up the permission leads to the root or to the path.
spec fn starts(
    settings: GrantSettings,
    permissions: Seq<PermissionView>,
    k: int,
    root: Seq<char>,
    t: Seq<char>,
) -> bool {
    permission_outcome(settings, k, permissions[k]) matches PermissionOutcome::Tasks(tasks) && (
    has_root(tasks, k, root) || has_candidate(tasks, k, t))
}

proof fn lemma_kept_tasks(first: Seq<TaskView>, pending: Seq<TaskView>, j: int)
    requires
        0 < j < pending.len(),
    ensures
        (first + pending.skip(1))[first.len() + j - 1] == pending[j],
        0 <= first.len() + j - 1 < (first + pending.skip(1)).len(),
{
}

proof fn lemma_candidates_reach(
    settings: GrantSettings,
    k: int,
    label: Seq<char>,
    host: Seq<char>,
    create: bool,
    t: Seq<char>,
)
    requires
        is_absolute(host),
        is_absolute(t),
        !has_parent(t),
        reaches(settings, host, t),
    ensures
        has_candidate(
            candidates(k, label, host, host, create, path_texts(settings.mount_points@)),
            k,
            t,
        ),
{
    let mounts = path_texts(settings.mount_points@);
    let roots = seq![host];
    let tasks = candidates(k, label, host, host, create, mounts);
    let paths = authorized(roots, mounts);
    let i = if same_path(t, host) {
        lemma_authorized_roots(roots, mounts, 0)
    } else {
        let m = choose|m: int| 0 <= m < mounts.len() && mounts[m] == t;
        lemma_authorized_mounts(roots, mounts, 0, m)
    };
    assert(roots[0] == host);
    assert(same_path(t, paths[i]));
    let j = lemma_authorized_within(roots, mounts, i);
    assert(roots[j] == host);
    lemma_placed(host, paths[i]);
    assert(asks_path(tasks[i], k, t));
}

proof fn lemma_placed(host: Seq<char>, p: Seq<char>)
    requires
        is_absolute(host),
        within(p, host),
    ensures
        same_path(placed_below(host, path_after(p, components(host).len())), p),
{
    let n = components(host).len();
    let suffix = path_after(p, n);
    lemma_strip_join(host, p);
    lemma_path_after(p, n);
    if suffix.len() == 0 {
        assert(lead(suffix).len() == 0) by {
            lemma_first_index(suffix, '/');
            assert(suffix.take(0).len() == 0);
        }
        assert(components(suffix) =~= Seq::<Seq<char>>::empty());
        assert(components(p) =~= components(host)) by {
            assert(components(p).skip(n as int).len() == 0);
            assert(components(p).take(n as int) =~= components(p));
        }
    }
}

proof fn lemma_taking_up_keeps(
    settings: GrantSettings,
    permissions: Seq<PermissionView>,
    state: BuilderView,
    k: int,
    root: Seq<char>,
    t: Seq<char>,
)
    requires
        0 <= state.next,
        0 <= k < permissions.len(),
        on_the_way(permissions, state, k, root, t),
        starts(settings, permissions, k, root, t),
    ensures
        ready(settings, permissions, state) matches Some(next) ==> {
            &&& on_the_way(permissions, next, k, root, t)
            &&& 0 <= next.next
            &&& next.pending.len() > 0 || next.next >= permissions.len()
        },
    decreases permissions.len() - state.next,
{
    if !(state.pending.len() > 0 || state.next >= permissions.len()) {
        match permission_outcome(settings, state.next, permissions[state.next]) {
            PermissionOutcome::Tasks(tasks) => {
                let next = BuilderView { next: state.next + 1, pending: tasks, ..state };
                lemma_taking_up_keeps(settings, permissions, next, k, root, t);
            },
            PermissionOutcome::Warning(text) => {
                let next = BuilderView {
                    next: state.next + 1,
                    warnings: state.warnings.push(text),
                    ..state
                };
                lemma_taking_up_keeps(settings, permissions, next, k, root, t);
            },
            PermissionOutcome::Refused(_) => {},
        }
    }
}

proof fn lemma_rest_keeps(
    first: Seq<TaskView>,
    pending: Seq<TaskView>,
    k: int,
    root: Seq<char>,
    t: Seq<char>,
)
    requires
        pending.len() > 0,
    ensures
        has_candidate(pending, k, t) && !asks_path(pending[0], k, t) ==> has_candidate(
            first + pending.skip(1),
            k,
            t,
        ),
        has_root(pending, k, root) && !is_root_task(pending[0], k, root) ==> has_root(
            first + pending.skip(1),
            k,
            root,
        ),
        has_candidate(first, k, t) ==> has_candidate(first + pending.skip(1), k, t),
{
    let all = first + pending.skip(1);
    if has_candidate(pending, k, t) && !asks_path(pending[0], k, t) {
        let j = choose|j: int| 0 <= j < pending.len() && asks_path(#[trigger] pending[j], k, t);
        lemma_kept_tasks(first, pending, j);
        assert(asks_path(all[first.len() + j - 1], k, t));
    }
    if has_root(pending, k, root) && !is_root_task(pending[0], k, root) {
        let j = choose|j: int|
            0 <= j < pending.len() && is_root_task(#[trigger] pending[j], k, root);
        lemma_kept_tasks(first, pending, j);
        assert(is_root_task(all[first.len() + j - 1], k, root));
    }
    if has_candidate(first, k, t) {
        let j = choose|j: int| 0 <= j < first.len() && asks_path(#[trigger] first[j], k, t);
        assert(all[j] == first[j]);
        assert(asks_path(all[j], k, t));
    }
}

proof fn lemma_settled_grant(
    settings: GrantSettings,
    original: Seq<char>,
    candidate: CandidateView,
    found: Seq<char>,
    t: Seq<char>,
)
    requires
        may_be_mounted(settings, t),
        settings.sandbox_root@.len() > 0,
        same_path(candidate.sandbox_path, t),
        same_path(found, t),
    ensures
        settled(settings, original, candidate, ResolutionView::Directory(found))
            == Settled::Grant(found),
        is_absolute(found),
{
    lemma_same_place(candidate.sandbox_path, t);
    lemma_same_place(found, t);
    lemma_places_mirror_paths(settings.sandbox_root@, t);
    let place = joined(settings.sandbox_root@, chroot_relative(t)->0);
    assert(components(place) == components(settings.sandbox_root@) + components(t).skip(1));
    assert(!within(t, place) && !within(place, t));
    assert(!overlap(found, place));
}

proof fn lemma_answer_keeps(
    settings: GrantSettings,
    permissions: Seq<PermissionView>,
    state: BuilderView,
    answer: AnswerView,
    k: int,
    root: Seq<char>,
    t: Seq<char>,
)
    requires
        0 <= k < permissions.len(),
        state.pending.len() > 0,
        on_the_way(permissions, state, k, root, t),
        may_be_mounted(settings, t),
        settings.sandbox_root@.len() > 0,
        is_absolute(root),
        reaches(settings, root, t),
        is_there(state.pending[0], answer, root, t),
    ensures
        answered(settings, permissions, state, answer) matches Some(next) ==> {
            &&& on_the_way(permissions, next, k, root, t)
            &&& next.next == state.next
        },
{
    let access = permissions[k].access;
    if let Some(next) = answered(settings, permissions, state, answer) {
        let rest = state.pending.skip(1);
        let none = Seq::<TaskView>::empty();
        assert(none + rest =~= rest);
        lemma_rest_keeps(none, state.pending, k, root, t);
        if has_grant(state.given, access, t) {
            let j = choose|j: int|
                0 <= j < state.given.len() && grants_path(#[trigger] state.given[j], access, t);
            assert(next.given[j] == state.given[j]);
            assert(grants_path(next.given[j], access, t));
        } else if state.next <= k {
        } else {
            match (state.pending[0], answer) {
                (TaskView::HostRoot(index, path), AnswerView::IsDirectory(is_dir)) => {
                    let first = candidates(
                        index,
                        "host"@,
                        path,
                        path,
                        permissions[index].create,
                        path_texts(settings.mount_points@),
                    );
                    lemma_rest_keeps(first, state.pending, k, root, t);
                    if index == k && path == root {
                        lemma_candidates_reach(
                            settings,
                            k,
                            "host"@,
                            root,
                            permissions[k].create,
                            t,
                        );
                    }
                },
                (TaskView::Resolve(candidate), AnswerView::Resolved(resolution)) => {
                    let original = permissions[candidate.permission].original;
                    if let Settled::Expand(_, child) = settled(
                        settings,
                        original,
                        candidate,
                        resolution,
                    ) {
                        lemma_rest_keeps(seq![TaskView::Expand(child)], state.pending, k, root, t);
                    }
                    if asks_path(state.pending[0], k, t) {
                        let found = resolution->Directory_0;
                        lemma_settled_grant(settings, original, candidate, found, t);
                        assert(grants_path(next.given[state.given.len() as int], access, t));
                    }
                },
                (TaskView::Expand(parent), AnswerView::Listed(entries)) => {
                    let first = child_candidates(
                        parent,
                        sorted(entries, |a: EntryView, b: EntryView| entry_le(a, b)),
                    );
                    lemma_rest_keeps(first, state.pending, k, root, t);
                },
                _ => {},
            }
        }
    }
}

/// Whether every answer says that all is there as it seems.
pub open spec fn all_there(
    settings: GrantSettings,
    permissions: Seq<PermissionView>,
    answers: Seq<AnswerView>,
    root: Seq<char>,
    path: Seq<char>,
) -> bool {
    forall|i: int|
        0 <= i < answers.len() ==> is_there(
            question(settings, permissions, answers, i),
            #[trigger] answers[i],
            root,
            path,
        )
}

proof fn lemma_all_there_before(
    settings: GrantSettings,
    permissions: Seq<PermissionView>,
    answers: Seq<AnswerView>,
    root: Seq<char>,
    path: Seq<char>,
)
    requires
        answers.len() > 0,
        all_there(settings, permissions, answers, root, path),
    ensures
        all_there(settings, permissions, answers.drop_last(), root, path),
        stand(settings, permissions, answers.drop_last()) matches Some(state) ==> is_there(
            state.pending[0],
            answers.last(),
            root,
            path,
        ),
{
    let head = answers.drop_last();
    assert forall|i: int| 0 <= i < head.len() implies is_there(
        question(settings, permissions, head, i),
        #[trigger] head[i],
        root,
        path,
    ) by {
        assert(head.take(i) =~= answers.take(i));
        assert(head[i] == answers[i]);
    }
    assert(answers.take(answers.len() - 1) =~= head);
    assert(is_there(
        question(settings, permissions, answers, answers.len() - 1),
        answers[answers.len() - 1],
        root,
        path,
    ));
}

proof fn lemma_stand_keeps(
    settings: GrantSettings,
    permissions: Seq<PermissionView>,
    answers: Seq<AnswerView>,
    k: int,
    root: Seq<char>,
    t: Seq<char>,
)
    requires
        0 <= k < permissions.len(),
        may_be_mounted(settings, t),
        settings.sandbox_root@.len() > 0,
        is_absolute(root),
        reaches(settings, root, t),
        starts(settings, permissions, k, root, t),
        all_there(settings, permissions, answers, root, t),
    ensures
        stand(settings, permissions, answers) matches Some(state) ==> {
            &&& on_the_way(permissions, state, k, root, t)
            &&& 0 <= state.next
            &&& state.pending.len() > 0 || state.next >= permissions.len()
        },
    decreases answers.len(),
{
    if answers.len() == 0 {
        lemma_taking_up_keeps(settings, permissions, fresh(), k, root, t);
    } else {
        let head = answers.drop_last();
        lemma_all_there_before(settings, permissions, answers, root, t);
        lemma_stand_keeps(settings, permissions, head, k, root, t);
        if let Some(state) = stand(settings, permissions, head) {
            if let Some(next) = answered(settings, permissions, state, answers.last()) {
                lemma_answer_keeps(settings, permissions, state, answers.last(), k, root, t);
                lemma_taking_up_keeps(settings, permissions, next, k, root, t);
            }
        }
    }
}

proof fn lemma_taking_up_grants(
    settings: GrantSettings,
    permissions: Seq<PermissionView>,
    state: BuilderView,
)
    ensures
        ready(settings, permissions, state) matches Some(next) ==> next.grants == state.grants
            && next.given == state.given,
    decreases permissions.len() - state.next,
{
    if !(state.pending.len() > 0 || state.next >= permissions.len()) {
        match permission_outcome(settings, state.next, permissions[state.next]) {
            PermissionOutcome::Tasks(tasks) => {
                lemma_taking_up_grants(
                    settings,
                    permissions,
                    BuilderView { next: state.next + 1, pending: tasks, ..state },
                );
            },
            PermissionOutcome::Warning(text) => {
                lemma_taking_up_grants(
                    settings,
                    permissions,
                    BuilderView {
                        next: state.next + 1,
                        warnings: state.warnings.push(text),
                        ..state
                    },
                );
            },
            PermissionOutcome::Refused(_) => {},
        }
    }
}

proof fn lemma_stand_merges(
    settings: GrantSettings,
    permissions: Seq<PermissionView>,
    answers: Seq<AnswerView>,
)
    ensures
        stand(settings, permissions, answers) matches Some(state) ==> grants_are_safe(
            settings,
            state.grants,
        ) && grants_merge(state.given, state.grants),
    decreases answers.len(),
{
    if answers.len() == 0 {
        lemma_taking_up_grants(settings, permissions, fresh());
    } else {
        let head = answers.drop_last();
        lemma_stand_merges(settings, permissions, head);
        if let Some(state) = stand(settings, permissions, head) {
            if let Some(next) = answered(settings, permissions, state, answers.last()) {
                if let AnswerView::Resolved(resolution) = answers.last() {
                    lemma_grants_stay_safe(settings, permissions, state, resolution);
                }
                lemma_taking_up_grants(settings, permissions, next);
            }
        }
    }
}

proof fn lemma_granted_at_the_end(
    settings: GrantSettings,
    permissions: Seq<PermissionView>,
    answers: Seq<AnswerView>,
    k: int,
    root: Seq<char>,
    t: Seq<char>,
)
    requires
        0 <= k < permissions.len(),
        may_be_mounted(settings, t),
        settings.sandbox_root@.len() > 0,
        is_absolute(root),
        reaches(settings, root, t),
        starts(settings, permissions, k, root, t),
        all_there(settings, permissions, answers, root, t),
    ensures
        stand(settings, permissions, answers) matches Some(end) && end.pending.len() == 0
            ==> is_granted(
            stand(settings, permissions, answers)->0.grants,
            t,
            permissions[k].access,
        ),
{
    if let Some(end) = stand(settings, permissions, answers) {
        if end.pending.len() == 0 {
            let access = permissions[k].access;
            lemma_stand_keeps(settings, permissions, answers, k, root, t);
            lemma_stand_merges(settings, permissions, answers);
            let j = choose|j: int|
                0 <= j < end.given.len() && grants_path(#[trigger] end.given[j], access, t);
            assert(is_covered(end.given, end.grants, j));
            let g = choose|g: int|
                0 <= g < end.grants.len() && same_mount(#[trigger] end.grants[g], end.given[j]);
            assert(was_given(end.given, end.grants[g]));
            assert(end.grants[g].canonical_host_path == end.grants[g].host_path);
            if access == AccessMode::ReadWrite {
                assert(was_writable(end.given, end.grants[g]));
            }
            assert(same_path(end.grants[g].host_path, t));
        }
    }
}

/// The permission `host` gives what users keep outside the system's directories. For each of
/// `/home`, `/media`, `/mnt`, `/opt`, `/run/media` and `/srv`: if it is a directory, it and what is
/// mounted below it is granted at its own place, as far as it is there and can be mounted.
pub proof fn lemma_host_gives_its_directories(
    settings: GrantSettings,
    permissions: Seq<PermissionView>,
    answers: Seq<AnswerView>,
    k: int,
    root: Seq<char>,
    path: Seq<char>,
)
    requires
        stand(settings, permissions, answers) is Some,
        stand(settings, permissions, answers)->0.pending.len() == 0,
        0 <= k < permissions.len(),
        permissions[k].path == "host"@,
        root == "/home"@ || root == "/media"@ || root == "/mnt"@ || root == "/opt"@ || root
            == "/run/media"@ || root == "/srv"@,
        reaches(settings, root, path),
        may_be_mounted(settings, path),
        settings.sandbox_root@.len() > 0,
        all_there(settings, permissions, answers, root, path),
    ensures
        is_granted(
            stand(settings, permissions, answers)->0.grants,
            path,
            permissions[k].access,
        ),
{
    lemma_host_starts(settings, permissions, k, root);
    assert(starts(settings, permissions, k, root, path));
    lemma_granted_at_the_end(settings, permissions, answers, k, root, path);
}

proof fn lemma_no_slash(text: Seq<char>)
    requires
        !text.contains('/'),
    ensures
        split_once(text, '/') is None,
{
    assert forall|j: int| 0 <= j < text.len() implies text[j] != '/' by {
        assert(text.contains(text[j]));
    }
    lemma_first_index_unique(text, '/', text.len() as int);
}

proof fn lemma_host_starts(
    settings: GrantSettings,
    permissions: Seq<PermissionView>,
    k: int,
    root: Seq<char>,
)
    requires
        permissions[k].path == "host"@,
        is_host_directory(root),
    ensures
        permission_outcome(settings, k, permissions[k]) matches PermissionOutcome::Tasks(tasks)
            && has_root(tasks, k, root),
        is_absolute(root),
{
    reveal_strlit("host");
    reveal_strlit("/home");
    reveal_strlit("/media");
    reveal_strlit("/mnt");
    reveal_strlit("/opt");
    reveal_strlit("/run/media");
    reveal_strlit("/srv");
    lemma_no_slash("host"@);
    let outcome = permission_outcome(settings, k, permissions[k]);
    assert(outcome is Tasks);
    let tasks = outcome->Tasks_0;
    if root == "/home"@ {
        assert(is_root_task(tasks[0], k, root));
    } else if root == "/media"@ {
        assert(is_root_task(tasks[1], k, root));
    } else if root == "/mnt"@ {
        assert(is_root_task(tasks[2], k, root));
    } else if root == "/opt"@ {
        assert(is_root_task(tasks[3], k, root));
    } else if root == "/run/media"@ {
        assert(is_root_task(tasks[4], k, root));
    } else {
        assert(is_root_task(tasks[5], k, root));
    }
}

/// Whether a permission names the path: the directory for which its first word stands, or what is
/// reached from there by the names that follow it.
pub open spec fn names_path(
    permission: Seq<char>,
    word: Seq<char>,
    directory: Seq<char>,
    suffix: Option<Seq<char>>,
    path: Seq<char>,
) -> bool {
    match suffix {
        None => permission == word && components(path) == components(directory),
        Some(names) => permission == word + "/"@ + names && components(path) == components(
            directory,
        ) + body(names),
    }
}

proof fn lemma_split_word(word: Seq<char>, suffix: Seq<char>)
    requires
        !word.contains('/'),
    ensures
        split_once(word + "/"@ + suffix, '/') == Some((word, suffix)),
{
    reveal_strlit("/");
    let text = word + "/"@ + suffix;
    let n = word.len() as int;
    assert forall|j: int| 0 <= j < n implies text[j] != '/' by {
        assert(text[j] == word[j]);
        assert(word.contains(word[j]));
    }
    assert(text[n] == '/');
    lemma_first_index_unique(text, '/', n);
    assert(text.take(n) =~= word);
    assert(text.skip(n + 1) =~= suffix);
}

proof fn lemma_words()
    ensures
        !"host"@.contains('/'),
        !"home"@.contains('/'),
        !"~"@.contains('/'),
        !"xdg-desktop"@.contains('/'),
        !"xdg-documents"@.contains('/'),
        !"xdg-download"@.contains('/'),
        !"xdg-music"@.contains('/'),
        !"xdg-pictures"@.contains('/'),
        !"xdg-public-share"@.contains('/'),
        !"xdg-templates"@.contains('/'),
        !"xdg-videos"@.contains('/'),
{
    reveal_strlit("host");
    reveal_strlit("home");
    reveal_strlit("~");
    reveal_strlit("xdg-desktop");
    reveal_strlit("xdg-documents");
    reveal_strlit("xdg-download");
    reveal_strlit("xdg-music");
    reveal_strlit("xdg-pictures");
    reveal_strlit("xdg-public-share");
    reveal_strlit("xdg-templates");
    reveal_strlit("xdg-videos");
}

proof fn lemma_distinct_words()
    ensures
        "home"@ != "host"@,
        "~"@ != "host"@,
        "xdg-desktop"@[0] == 'x' && "xdg-desktop"@.len() == 11 && "xdg-desktop"@[6] == 's',
        "xdg-documents"@[0] == 'x' && "xdg-documents"@.len() == 13 && "xdg-documents"@[4] == 'd',
        "xdg-download"@[0] == 'x' && "xdg-download"@.len() == 12 && "xdg-download"@[4] == 'd',
        "xdg-music"@[0] == 'x' && "xdg-music"@.len() == 9,
        "xdg-pictures"@[0] == 'x' && "xdg-pictures"@.len() == 12 && "xdg-pictures"@[4] == 'p',
        "xdg-public-share"@[0] == 'x' && "xdg-public-share"@.len() == 16,
        "xdg-templates"@[0] == 'x' && "xdg-templates"@.len() == 13 && "xdg-templates"@[4] == 't',
        "xdg-videos"@[0] == 'x' && "xdg-videos"@.len() == 10,
        "host"@[0] == 'h',
        "home"@[0] == 'h',
        "~"@[0] == '~',
{
    reveal_strlit("host");
    reveal_strlit("home");
    reveal_strlit("~");
    reveal_strlit("xdg-desktop");
    reveal_strlit("xdg-documents");
    reveal_strlit("xdg-download");
    reveal_strlit("xdg-music");
    reveal_strlit("xdg-pictures");
    reveal_strlit("xdg-public-share");
    reveal_strlit("xdg-templates");
    reveal_strlit("xdg-videos");
    assert("home"@[2] == 'm');
    assert("host"@[2] == 's');
    assert("~"@.len() == 1);
    assert("host"@.len() == 4);
}

proof fn lemma_word_stands_for(
    settings: GrantSettings,
    index: int,
    permission: PermissionView,
    word: Seq<char>,
    directory: Seq<char>,
    suffix: Option<Seq<char>>,
)
    requires
        stands_for(settings, word, directory),
        word == "home"@ || word == "~"@ || !same_path(directory, settings.home@),
        permission.path == match suffix {
            None => word,
            Some(names) => word + "/"@ + names,
        },
        with_suffix(directory, suffix) is Some,
    ensures
        exists|label: Seq<char>|
            permission_outcome(settings, index, permission) == PermissionOutcome::Tasks(
                #[trigger] candidates(
                    index,
                    label,
                    with_suffix(directory, suffix)->0,
                    with_suffix(directory, suffix)->0,
                    permission.create,
                    path_texts(settings.mount_points@),
                ),
            ),
{
    lemma_words();
    lemma_distinct_words();
    match suffix {
        None => lemma_no_slash(word),
        Some(names) => lemma_split_word(word, names),
    }
    let label = if word == "~"@ {
        "home"@
    } else {
        word
    };
    let path = with_suffix(directory, suffix)->0;
    let tasks = candidates(
        index,
        label,
        path,
        path,
        permission.create,
        path_texts(settings.mount_points@),
    );
    assert(permission_outcome(settings, index, permission) == PermissionOutcome::Tasks(tasks));
}

/// A permission gives the directory of the user that it names: `home` and `~` the home directory,
/// `xdg-desktop`, `xdg-documents`, `xdg-download`, `xdg-music`, `xdg-pictures`, `xdg-public-share`,
/// `xdg-templates` and `xdg-videos` that of the user's directories, unless it is the home directory
/// itself; and with a subpath what is below it. That, and what is mounted below it, is granted at
/// its own place, as far as it is there and can be mounted.
pub proof fn lemma_named_directories_are_given(
    settings: GrantSettings,
    permissions: Seq<PermissionView>,
    answers: Seq<AnswerView>,
    k: int,
    word: Seq<char>,
    directory: Seq<char>,
    suffix: Option<Seq<char>>,
    root: Seq<char>,
    path: Seq<char>,
)
    requires
        stand(settings, permissions, answers) is Some,
        stand(settings, permissions, answers)->0.pending.len() == 0,
        0 <= k < permissions.len(),
        stands_for(settings, word, directory),
        word == "home"@ || word == "~"@ || !same_path(directory, settings.home@),
        is_absolute(directory),
        names_path(permissions[k].path, word, directory, suffix, root),
        suffix matches Some(names) ==> !is_absolute(names),
        reaches(settings, root, path),
        may_be_mounted(settings, path),
        settings.sandbox_root@.len() > 0,
        all_there(settings, permissions, answers, root, path),
    ensures
        is_granted(
            stand(settings, permissions, answers)->0.grants,
            path,
            permissions[k].access,
        ),
{
    if let Some(names) = suffix {
        lemma_subpaths_stay_below(directory, names);
        if exists|i: int|
            0 <= i < components(names).len() && #[trigger] components(names)[i] == ".."@ {
            let i = choose|i: int|
                0 <= i < components(names).len() && #[trigger] components(names)[i] == ".."@;
            let n = components(directory).len();
            let l = lead(names).len();
            reveal_strlit("..");
            assert(i >= l) by {
                if i < l {
                    assert(components(names)[i] == seq!['.']);
                    assert(components(names)[i].len() == 1);
                }
            }
            assert(body(names)[i - l] == ".."@);
            assert(components(root)[n + i - l] == ".."@);
            assert(components(path)[n + i - l] == ".."@) by {
                assert(within(path, root)) by {
                    lemma_within_order(path, path, path);
                }
                assert(components(path).take(components(root).len() as int)[n + i - l]
                    == components(root)[n + i - l]);
            }
            assert(false);
        }
    }
    let permission = permissions[k];
    lemma_word_stands_for(settings, k, permission, word, directory, suffix);
    let found = with_suffix(directory, suffix)->0;
    assert(same_path(found, root));
    assert(components(found).take(components(directory).len() as int) =~= components(directory));
    lemma_root_absolute(directory, found);
    lemma_same_place(found, root);
    let mounts = path_texts(settings.mount_points@);
    let label = choose|label: Seq<char>|
        permission_outcome(settings, k, permission) == PermissionOutcome::Tasks(
            #[trigger] candidates(k, label, found, found, permission.create, mounts),
        );
    assert(reaches(settings, found, path));
    lemma_candidates_reach(settings, k, label, found, permission.create, path);
    assert(starts(settings, permissions, k, root, path));
    lemma_granted_at_the_end(settings, permissions, answers, k, root, path);
}

proof fn lemma_root_absolute(directory: Seq<char>, p: Seq<char>)
    requires
        is_absolute(directory),
        components(p).len() >= components(directory).len(),
        components(p).take(components(directory).len() as int) == components(directory),
    ensures
        is_absolute(p),
{
    reveal_strlit("/");
    assert(seq!['/'] =~= "/"@);
    assert(components(directory)[0] == "/"@);
    assert(components(p).take(components(directory).len() as int)[0] == components(p)[0]);
    if !is_absolute(p) {
        lemma_relative_components(p);
    }
}

/// For a permission `host` the builder asks of each of the directories `/home`, `/media`, `/mnt`,
/// `/opt`, `/run/media` and `/srv` whether it is there.
pub proof fn lemma_host_directories_are_asked_for(
    settings: GrantSettings,
    permissions: Seq<PermissionView>,
    answers: Seq<AnswerView>,
    k: int,
    root: Seq<char>,
)
    requires
        stand(settings, permissions, answers) is Some,
        stand(settings, permissions, answers)->0.pending.len() == 0,
        0 <= k < permissions.len(),
        permissions[k].path == "host"@,
        root == "/home"@ || root == "/media"@ || root == "/mnt"@ || root == "/opt"@ || root
            == "/run/media"@ || root == "/srv"@,
    ensures
        exists|i: int|
            0 <= i < answers.len() && #[trigger] question(settings, permissions, answers, i)
                == TaskView::HostRoot(k, root),
{
    lemma_root_asked(settings, permissions, answers, k, root);
}

spec fn root_asked(
    settings: GrantSettings,
    permissions: Seq<PermissionView>,
    answers: Seq<AnswerView>,
    k: int,
    root: Seq<char>,
) -> bool {
    exists|i: int|
        0 <= i < answers.len() && #[trigger] question(settings, permissions, answers, i)
            == TaskView::HostRoot(k, root)
}

proof fn lemma_root_asked(
    settings: GrantSettings,
    permissions: Seq<PermissionView>,
    answers: Seq<AnswerView>,
    k: int,
    root: Seq<char>,
)
    requires
        0 <= k < permissions.len(),
        permissions[k].path == "host"@,
        is_host_directory(root),
    ensures
        stand(settings, permissions, answers) matches Some(state) ==> {
            &&& root_asked(settings, permissions, answers, k, root) || has_root(
                state.pending,
                k,
                root,
            ) || state.next <= k
            &&& 0 <= state.next
            &&& state.pending.len() > 0 || state.next >= permissions.len()
        },
    decreases answers.len(),
{
    if answers.len() == 0 {
        lemma_root_pending(settings, permissions, fresh(), k, root);
    } else {
        let head = answers.drop_last();
        lemma_root_asked(settings, permissions, head, k, root);
        if let Some(state) = stand(settings, permissions, head) {
            assert(answers.take(answers.len() - 1) =~= head);
            if root_asked(settings, permissions, head, k, root) {
                let i = choose|i: int|
                    0 <= i < head.len() && #[trigger] question(settings, permissions, head, i)
                        == TaskView::HostRoot(k, root);
                assert(head.take(i) =~= answers.take(i));
                assert(question(settings, permissions, answers, i) == TaskView::HostRoot(k, root));
            }
            if let Some(next) = answered(settings, permissions, state, answers.last()) {
                if is_root_task(state.pending[0], k, root) {
                    assert(question(settings, permissions, answers, answers.len() - 1)
                        == TaskView::HostRoot(k, root));
                } else {
                    lemma_roots_wait(settings, permissions, state, answers.last(), k, root);
                }
                lemma_root_pending(settings, permissions, next, k, root);
            }
        }
    }
}

proof fn lemma_roots_wait(
    settings: GrantSettings,
    permissions: Seq<PermissionView>,
    state: BuilderView,
    answer: AnswerView,
    k: int,
    root: Seq<char>,
)
    requires
        state.pending.len() > 0,
        !is_root_task(state.pending[0], k, root),
    ensures
        answered(settings, permissions, state, answer) matches Some(next) ==> {
            &&& has_root(state.pending, k, root) ==> has_root(next.pending, k, root)
            &&& next.next == state.next
        },
{
    if let Some(next) = answered(settings, permissions, state, answer) {
        let rest = state.pending.skip(1);
        assert(Seq::<TaskView>::empty() + rest =~= rest);
        lemma_rest_keeps(Seq::empty(), state.pending, k, root, root);
        match (state.pending[0], answer) {
            (TaskView::HostRoot(index, path), AnswerView::IsDirectory(is_dir)) => {
                let first = candidates(
                    index,
                    "host"@,
                    path,
                    path,
                    permissions[index].create,
                    path_texts(settings.mount_points@),
                );
                lemma_rest_keeps(first, state.pending, k, root, root);
            },
            (TaskView::Resolve(candidate), AnswerView::Resolved(resolution)) => {
                let original = permissions[candidate.permission].original;
                if let Settled::Expand(_, child) = settled(
                    settings,
                    original,
                    candidate,
                    resolution,
                ) {
                    lemma_rest_keeps(
                        seq![TaskView::Expand(child)],
                        state.pending,
                        k,
                        root,
                        root,
                    );
                }
            },
            (TaskView::Expand(parent), AnswerView::Listed(entries)) => {
                let first = child_candidates(
                    parent,
                    sorted(entries, |a: EntryView, b: EntryView| entry_le(a, b)),
                );
                lemma_rest_keeps(first, state.pending, k, root, root);
            },
            _ => {},
        }
    }
}

proof fn lemma_root_pending(
    settings: GrantSettings,
    permissions: Seq<PermissionView>,
    state: BuilderView,
    k: int,
    root: Seq<char>,
)
    requires
        0 <= state.next,
        0 <= k < permissions.len(),
        permissions[k].path == "host"@,
        is_host_directory(root),
    ensures
        ready(settings, permissions, state) matches Some(next) ==> {
            &&& has_root(state.pending, k, root) || state.next <= k ==> has_root(
                next.pending,
                k,
                root,
            ) || next.next <= k
            &&& 0 <= next.next
            &&& next.pending.len() > 0 || next.next >= permissions.len()
        },
    decreases permissions.len() - state.next,
{
    lemma_host_starts(settings, permissions, k, root);
    if !(state.pending.len() > 0 || state.next >= permissions.len()) {
        match permission_outcome(settings, state.next, permissions[state.next]) {
            PermissionOutcome::Tasks(tasks) => {
                let next = BuilderView { next: state.next + 1, pending: tasks, ..state };
                lemma_root_pending(settings, permissions, next, k, root);
            },
            PermissionOutcome::Warning(text) => {
                let next = BuilderView {
                    next: state.next + 1,
                    warnings: state.warnings.push(text),
                    ..state
                };
                lemma_root_pending(settings, permissions, next, k, root);
            },
            PermissionOutcome::Refused(_) => {},
        }
    }
}

/// Whether a permission names the place or something around it.
pub open spec fn covers(settings: GrantSettings, permission: Seq<char>, place: Seq<char>) -> bool {
    ||| permission == "host"@ && (within(place, "/home"@) || within(place, "/media"@) || within(
        place,
        "/mnt"@,
    ) || within(place, "/opt"@) || within(place, "/run/media"@) || within(place, "/srv"@))
    ||| exists|word: Seq<char>, directory: Seq<char>, suffix: Option<Seq<char>>, root: Seq<char>|
        stands_for(settings, word, directory) && (word == "home"@ || word == "~"@ || !same_path(
            directory,
            settings.home@,
        )) && #[trigger] names_path(permission, word, directory, suffix, root) && within(
            place,
            root,
        )
}

/// Whether the answers name what directories hold by names alone.
pub open spec fn lists_names(answers: Seq<AnswerView>) -> bool {
    forall|i: int, e: int|
        #![trigger answers[i], answers[i]->Listed_0[e]]
        0 <= i < answers.len() && answers[i] is Listed && 0 <= e < answers[i]->Listed_0.len()
            ==> !is_absolute(answers[i]->Listed_0[e].name)
}

spec fn task_covered(
    settings: GrantSettings,
    permissions: Seq<PermissionView>,
    task: TaskView,
) -> bool {
    match task {
        TaskView::HostRoot(k, path) => 0 <= k < permissions.len() && permissions[k].path == "host"@
            && is_host_directory(path),
        TaskView::Resolve(c) => 0 <= c.permission < permissions.len() && covers(
            settings,
            permissions[c.permission].path,
            c.sandbox_path,
        ),
        TaskView::Expand(c) => 0 <= c.permission < permissions.len() && covers(
            settings,
            permissions[c.permission].path,
            c.sandbox_path,
        ),
    }
}

/// Whether a permission accounts for a grant.
pub open spec fn accounts_for(
    settings: GrantSettings,
    permission: PermissionView,
    grant: GrantView,
) -> bool {
    &&& grant.source_permission == permission.original
    &&& covers(settings, permission.path, grant.sandbox_path)
}

spec fn given_covered(
    settings: GrantSettings,
    permissions: Seq<PermissionView>,
    grant: GrantView,
) -> bool {
    exists|k: int|
        0 <= k < permissions.len() && #[trigger] accounts_for(settings, permissions[k], grant)
            && grant.access == permissions[k].access
}

spec fn all_covered(
    settings: GrantSettings,
    permissions: Seq<PermissionView>,
    state: BuilderView,
) -> bool {
    &&& forall|i: int|
        0 <= i < state.pending.len() ==> task_covered(
            settings,
            permissions,
            #[trigger] state.pending[i],
        )
    &&& forall|i: int|
        0 <= i < state.given.len() ==> given_covered(
            settings,
            permissions,
            #[trigger] state.given[i],
        )
}

spec fn tasks_covered(
    settings: GrantSettings,
    permissions: Seq<PermissionView>,
    tasks: Seq<TaskView>,
) -> bool {
    forall|i: int|
        0 <= i < tasks.len() ==> task_covered(settings, permissions, #[trigger] tasks[i])
}

proof fn lemma_covers_below(
    settings: GrantSettings,
    permission: Seq<char>,
    place: Seq<char>,
    inner: Seq<char>,
)
    requires
        covers(settings, permission, place),
        within(inner, place),
    ensures
        covers(settings, permission, inner),
{
    lemma_within_order(inner, place, "/home"@);
    lemma_within_order(inner, place, "/media"@);
    lemma_within_order(inner, place, "/mnt"@);
    lemma_within_order(inner, place, "/opt"@);
    lemma_within_order(inner, place, "/run/media"@);
    lemma_within_order(inner, place, "/srv"@);
    if !(permission == "host"@ && (within(place, "/home"@) || within(place, "/media"@) || within(
        place,
        "/mnt"@,
    ) || within(place, "/opt"@) || within(place, "/run/media"@) || within(place, "/srv"@))) {
        let (word, directory, suffix, root) = choose|
            word: Seq<char>,
            directory: Seq<char>,
            suffix: Option<Seq<char>>,
            root: Seq<char>,
        |
            stands_for(settings, word, directory) && (word == "home"@ || word == "~"@
                || !same_path(directory, settings.home@)) && #[trigger] names_path(
                permission,
                word,
                directory,
                suffix,
                root,
            ) && within(place, root);
        lemma_within_order(inner, place, root);
        assert(names_path(permission, word, directory, suffix, root));
    }
}

proof fn lemma_candidates_covered(
    settings: GrantSettings,
    permissions: Seq<PermissionView>,
    k: int,
    label: Seq<char>,
    host: Seq<char>,
    create: bool,
)
    requires
        0 <= k < permissions.len(),
        is_absolute(host),
        covers(settings, permissions[k].path, host),
    ensures
        tasks_covered(
            settings,
            permissions,
            candidates(k, label, host, host, create, path_texts(settings.mount_points@)),
        ),
{
    let mounts = path_texts(settings.mount_points@);
    let tasks = candidates(k, label, host, host, create, mounts);
    let paths = authorized(seq![host], mounts);
    assert forall|i: int| 0 <= i < tasks.len() implies task_covered(
        settings,
        permissions,
        #[trigger] tasks[i],
    ) by {
        let j = lemma_authorized_within(seq![host], mounts, i);
        assert(seq![host][j] == host);
        lemma_placed(host, paths[i]);
        let place = placed_below(host, path_after(paths[i], components(host).len()));
        assert(within(place, host));
        lemma_covers_below(settings, permissions[k].path, host, place);
    }
}

proof fn lemma_rejoin(permission: Seq<char>)
    ensures
        split_once(permission, '/') matches Some((word, suffix)) ==> permission == word + "/"@
            + suffix,
{
    reveal_strlit("/");
    lemma_first_index(permission, '/');
    if let Some((word, suffix)) = split_once(permission, '/') {
        assert(permission =~= word + "/"@ + suffix);
    }
}

/// Whether all the directories that permissions speak of are absolute.
pub open spec fn absolute_directories(settings: GrantSettings) -> bool {
    &&& is_absolute(settings.home@)
    &&& settings.xdg_dirs.paths@.len() == 8
    &&& forall|i: int|
        0 <= i < 8 ==> is_absolute(#[trigger] path_texts(settings.xdg_dirs.paths@)[i])
}

proof fn lemma_outcome_covered(
    settings: GrantSettings,
    permissions: Seq<PermissionView>,
    k: int,
)
    requires
        0 <= k < permissions.len(),
        absolute_directories(settings),
    ensures
        permission_outcome(settings, k, permissions[k]) matches PermissionOutcome::Tasks(tasks)
            ==> tasks_covered(settings, permissions, tasks),
{
    let permission = permissions[k];
    lemma_rejoin(permission.path);
    let (word, suffix) = match split_once(permission.path, '/') {
        Some((base, suffix)) => (base, Some(suffix)),
        None => (permission.path, None),
    };
    let paths = path_texts(settings.xdg_dirs.paths@);
    if let PermissionOutcome::Tasks(tasks) = permission_outcome(settings, k, permission) {
        if word == "host"@ && suffix is None {
            assert forall|i: int| 0 <= i < tasks.len() implies task_covered(
                settings,
                permissions,
                #[trigger] tasks[i],
            ) by {
                assert(i == 0 || i == 1 || i == 2 || i == 3 || i == 4 || i == 5);
            }
        } else {
            let home = word == "home"@ || word == "~"@;
            let i = place_in(xdg_labels(), word)->0;
            let directory = if home {
                settings.home@
            } else {
                paths[i]
            };
            assert(stands_for(settings, word, directory));
            assert(is_absolute(directory));
            let found = with_suffix(directory, suffix)->0;
            if let Some(names) = suffix {
                lemma_subpaths_stay_below(directory, names);
            }
            assert(names_path(permission.path, word, directory, suffix, found));
            assert(components(found).take(components(directory).len() as int) =~= components(
                directory,
            ));
            lemma_root_absolute(directory, found);
            lemma_within_order(found, found, found);
            assert(covers(settings, permission.path, found));
            let label = if home {
                "home"@
            } else {
                word
            };
            lemma_candidates_covered(settings, permissions, k, label, found, permission.create);
        }
    }
}

proof fn lemma_taking_up_covered(
    settings: GrantSettings,
    permissions: Seq<PermissionView>,
    state: BuilderView,
)
    requires
        0 <= state.next,
        absolute_directories(settings),
        all_covered(settings, permissions, state),
    ensures
        ready(settings, permissions, state) matches Some(next) ==> 0 <= next.next && all_covered(
            settings,
            permissions,
            next,
        ),
    decreases permissions.len() - state.next,
{
    if !(state.pending.len() > 0 || state.next >= permissions.len()) {
        lemma_outcome_covered(settings, permissions, state.next);
        match permission_outcome(settings, state.next, permissions[state.next]) {
            PermissionOutcome::Tasks(tasks) => {
                let next = BuilderView { next: state.next + 1, pending: tasks, ..state };
                assert(all_covered(settings, permissions, next));
                lemma_taking_up_covered(settings, permissions, next);
            },
            PermissionOutcome::Warning(text) => {
                let next = BuilderView {
                    next: state.next + 1,
                    warnings: state.warnings.push(text),
                    ..state
                };
                assert(all_covered(settings, permissions, next));
                lemma_taking_up_covered(settings, permissions, next);
            },
            PermissionOutcome::Refused(_) => {},
        }
    }
}

proof fn lemma_children_covered(
    settings: GrantSettings,
    permissions: Seq<PermissionView>,
    parent: CandidateView,
    entries: Seq<EntryView>,
)
    requires
        task_covered(settings, permissions, TaskView::Expand(parent)),
        forall|e: int| 0 <= e < entries.len() ==> !is_absolute((#[trigger] entries[e]).name),
    ensures
        tasks_covered(settings, permissions, child_candidates(parent, entries)),
    decreases entries.len(),
{
    if entries.len() > 0 {
        let head = entries.drop_last();
        assert forall|e: int| 0 <= e < head.len() implies !is_absolute(
            (#[trigger] head[e]).name,
        ) by {
            assert(head[e] == entries[e]);
        }
        lemma_children_covered(settings, permissions, parent, head);
        let before = child_candidates(parent, head);
        let all = child_candidates(parent, entries);
        let last = entries[entries.len() - 1];
        lemma_joined_inside(parent.sandbox_path, last.name);
        lemma_covers_below(
            settings,
            permissions[parent.permission].path,
            parent.sandbox_path,
            joined(parent.sandbox_path, last.name),
        );
        assert forall|i: int| 0 <= i < all.len() implies task_covered(
            settings,
            permissions,
            #[trigger] all[i],
        ) by {
            if i < before.len() {
                assert(all[i] == before[i]);
            }
        }
    }
}

proof fn lemma_sorted_names(entries: Seq<EntryView>, le: spec_fn(EntryView, EntryView) -> bool)
    requires
        forall|e: int| 0 <= e < entries.len() ==> !is_absolute((#[trigger] entries[e]).name),
    ensures
        forall|e: int|
            0 <= e < sorted(entries, le).len() ==> !is_absolute(
                (#[trigger] sorted(entries, le)[e]).name,
            ),
{
    let all = sorted(entries, le);
    lemma_sorted(entries, le);
    assert forall|e: int| 0 <= e < all.len() implies !is_absolute((#[trigger] all[e]).name) by {
        all.to_multiset_ensures();
        entries.to_multiset_ensures();
        assert(all.contains(all[e]));
        assert(entries.to_multiset().count(all[e]) > 0);
        assert(entries.contains(all[e]));
    }
}

proof fn lemma_answer_covered(
    settings: GrantSettings,
    permissions: Seq<PermissionView>,
    state: BuilderView,
    answer: AnswerView,
)
    requires
        0 <= state.next,
        all_covered(settings, permissions, state),
        forall|e: int|
            answer is Listed && 0 <= e < answer->Listed_0.len() ==> !is_absolute(
                (#[trigger] answer->Listed_0[e]).name,
            ),
    ensures
        answered(settings, permissions, state, answer) matches Some(next) ==> 0 <= next.next
            && all_covered(settings, permissions, next),
{
    if let Some(next) = answered(settings, permissions, state, answer) {
        let rest = state.pending.skip(1);
        assert(task_covered(settings, permissions, state.pending[0]));
        assert forall|i: int| 0 <= i < rest.len() implies task_covered(
            settings,
            permissions,
            #[trigger] rest[i],
        ) by {
            assert(rest[i] == state.pending[i + 1]);
        }
        match (state.pending[0], answer) {
            (TaskView::HostRoot(index, path), AnswerView::IsDirectory(is_dir)) => {
                reveal_strlit("/home");
                reveal_strlit("/media");
                reveal_strlit("/mnt");
                reveal_strlit("/opt");
                reveal_strlit("/run/media");
                reveal_strlit("/srv");
                lemma_within_order(path, path, path);
                lemma_candidates_covered(
                    settings,
                    permissions,
                    index,
                    "host"@,
                    path,
                    permissions[index].create,
                );
                assert(tasks_covered(settings, permissions, next.pending));
            },
            (TaskView::Resolve(candidate), AnswerView::Resolved(resolution)) => {
                let permission = permissions[candidate.permission];
                if let Settled::Grant(path) = settled(
                    settings,
                    permission.original,
                    candidate,
                    resolution,
                ) {
                    let grant = made_grant(settings, permission, candidate, path);
                    assert(accounts_for(settings, permissions[candidate.permission], grant));
                    assert forall|i: int| 0 <= i < next.given.len() implies given_covered(
                        settings,
                        permissions,
                        #[trigger] next.given[i],
                    ) by {
                        if i < state.given.len() {
                            assert(next.given[i] == state.given[i]);
                        }
                    }
                }
                assert(tasks_covered(settings, permissions, next.pending));
            },
            (TaskView::Expand(parent), AnswerView::Listed(entries)) => {
                let le = |a: EntryView, b: EntryView| entry_le(a, b);
                lemma_sorted_names(entries, le);
                lemma_children_covered(settings, permissions, parent, sorted(entries, le));
                assert(tasks_covered(settings, permissions, next.pending));
            },
            _ => {},
        }
    }
}

proof fn lemma_stand_covered(
    settings: GrantSettings,
    permissions: Seq<PermissionView>,
    answers: Seq<AnswerView>,
)
    requires
        absolute_directories(settings),
        lists_names(answers),
    ensures
        stand(settings, permissions, answers) matches Some(state) ==> 0 <= state.next
            && all_covered(settings, permissions, state),
    decreases answers.len(),
{
    if answers.len() == 0 {
        lemma_taking_up_covered(settings, permissions, fresh());
    } else {
        let head = answers.drop_last();
        assert forall|i: int, e: int|
            #![trigger head[i], head[i]->Listed_0[e]]
            0 <= i < head.len() && head[i] is Listed && 0 <= e
                < head[i]->Listed_0.len() implies !is_absolute(head[i]->Listed_0[e].name) by {
            assert(head[i] == answers[i]);
        }
        lemma_stand_covered(settings, permissions, head);
        if let Some(state) = stand(settings, permissions, head) {
            if let Some(next) = answered(settings, permissions, state, answers.last()) {
                let n = answers.len() - 1;
                assert(answers[n] == answers.last());
                lemma_answer_covered(settings, permissions, state, answers.last());
                lemma_taking_up_covered(settings, permissions, next);
            }
        }
    }
}

/// Whether one of the permissions accounts for a grant.
pub open spec fn is_accounted_for(
    settings: GrantSettings,
    permissions: Seq<PermissionView>,
    grant: GrantView,
) -> bool {
    exists|k: int|
        0 <= k < permissions.len() && accounts_for(settings, #[trigger] permissions[k], grant)
}

/// Whether one of the permissions lets the application write at the place.
pub open spec fn may_be_written(
    settings: GrantSettings,
    permissions: Seq<PermissionView>,
    place: Seq<char>,
) -> bool {
    exists|k: int|
        0 <= k < permissions.len() && (#[trigger] permissions[k]).access == AccessMode::ReadWrite
            && covers(settings, permissions[k].path, place)
}

/// Nothing is granted that no permission names. Every grant stands where the permission for which
/// it was made reaches, and can be written through only if a permission to write reaches there. And
/// of no directories of the host but the six is asked whether they are there, and that only for a
/// permission `host`.
pub proof fn lemma_nothing_else_is_given(
    settings: GrantSettings,
    permissions: Seq<PermissionView>,
    answers: Seq<AnswerView>,
)
    requires
        absolute_directories(settings),
        lists_names(answers),
        stand(settings, permissions, answers) is Some,
    ensures
        ({
            let state = stand(settings, permissions, answers)->0;
            &&& forall|g: int|
                0 <= g < state.grants.len() ==> is_accounted_for(
                    settings,
                    permissions,
                    #[trigger] state.grants[g],
                )
            &&& forall|g: int|
                0 <= g < state.grants.len() && (#[trigger] state.grants[g]).access
                    == AccessMode::ReadWrite ==> may_be_written(
                    settings,
                    permissions,
                    state.grants[g].sandbox_path,
                )
            &&& state.pending.len() > 0 && state.pending[0] is HostRoot ==> {
                let (k, path) = (state.pending[0]->HostRoot_0, state.pending[0]->HostRoot_1);
                0 <= k < permissions.len() && permissions[k].path == "host"@ && is_host_directory(
                    path,
                )
            }
        }),
{
    let state = stand(settings, permissions, answers)->0;
    lemma_stand_covered(settings, permissions, answers);
    lemma_stand_merges(settings, permissions, answers);
    if state.pending.len() > 0 {
        assert(task_covered(settings, permissions, state.pending[0]));
    }
    assert forall|g: int| 0 <= g < state.grants.len() implies is_accounted_for(
        settings,
        permissions,
        #[trigger] state.grants[g],
    ) by {
        assert(was_given(state.given, state.grants[g]));
        let j = choose|j: int|
            0 <= j < state.given.len() && state.grants[g] == (GrantView {
                access: state.grants[g].access,
                ..#[trigger] state.given[j]
            });
        assert(given_covered(settings, permissions, state.given[j]));
        let k = choose|k: int|
            0 <= k < permissions.len() && #[trigger] accounts_for(
                settings,
                permissions[k],
                state.given[j],
            ) && state.given[j].access == permissions[k].access;
        assert(accounts_for(settings, permissions[k], state.grants[g]));
    }
    assert forall|g: int|
        0 <= g < state.grants.len() && (#[trigger] state.grants[g]).access
            == AccessMode::ReadWrite implies may_be_written(
        settings,
        permissions,
        state.grants[g].sandbox_path,
    ) by {
        let grant = state.grants[g];
        assert(was_writable(state.given, grant));
        let j = choose|j: int|
            0 <= j < state.given.len() && same_mount(grant, #[trigger] state.given[j])
                && state.given[j].access == AccessMode::ReadWrite;
        assert(given_covered(settings, permissions, state.given[j]));
        let k = choose|k: int|
            0 <= k < permissions.len() && #[trigger] accounts_for(
                settings,
                permissions[k],
                state.given[j],
            ) && state.given[j].access == permissions[k].access;
        lemma_within_order(grant.sandbox_path, grant.sandbox_path, grant.sandbox_path);
        assert(within(grant.sandbox_path, state.given[j].sandbox_path));
        lemma_covers_below(
            settings,
            permissions[k].path,
            state.given[j].sandbox_path,
            grant.sandbox_path,
        );
        assert(permissions[k].access == AccessMode::ReadWrite);
    }
}

} // verus!
