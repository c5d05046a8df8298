//! What extensions add to a sandbox, and what they leave of its deployments.

use crate::extension_merge::{
    all_entry_steps, base_entries, direct_source, entry_le, entry_names, entry_steps, merge_plan,
    merged_entries, overlay_from, overlay_of, placeholder_steps, KindView, MergeStepView, MergeView,
};
use crate::extensions::{
    extension_info, library_paths, ExtensionMountView, ExtensionScope, ExtensionView,
};
use crate::order::{lemma_concat_contains, lemma_sorted_contains};
use crate::path::{components, joined, lemma_parent, lemma_within_order, parent_of, same_path, within};
use crate::recovery_order::names;
use crate::stale_sandbox_recovery::lemma_parent_shorter;
use vstd::prelude::*;

verus! {

proof fn lemma_base_entries(
    base_source: Seq<char>,
    base_names: Seq<Seq<char>>,
    replaced: Seq<Seq<char>>,
    placeholders: Seq<Seq<char>>,
)
    ensures
        forall|x: (Seq<char>, Seq<char>)| #[trigger]
            base_entries(base_source, base_names, replaced, placeholders).contains(x) <==> x.1
                == joined(base_source, x.0) && base_names.contains(x.0) && !names(replaced, x.0)
                && !names(placeholders, x.0),
    decreases base_names.len(),
{
    let all = base_entries(base_source, base_names, replaced, placeholders);
    if base_names.len() == 0 {
        assert forall|x: (Seq<char>, Seq<char>)| !all.contains(x) by {}
    } else {
        let head = base_names.drop_last();
        let name = base_names[base_names.len() - 1];
        let before = base_entries(base_source, head, replaced, placeholders);
        lemma_base_entries(base_source, head, replaced, placeholders);
        assert forall|x: (Seq<char>, Seq<char>)| #[trigger] all.contains(x) <==> x.1 == joined(
            base_source,
            x.0,
        ) && base_names.contains(x.0) && !names(replaced, x.0) && !names(placeholders, x.0) by {
            assert(base_names.contains(x.0) <==> head.contains(x.0) || x.0 == name) by {
                if head.contains(x.0) {
                    let i = choose|i: int| 0 <= i < head.len() && head[i] == x.0;
                    assert(base_names[i] == x.0);
                }
                if base_names.contains(x.0) && x.0 != name {
                    let i = choose|i: int| 0 <= i < base_names.len() && base_names[i] == x.0;
                    assert(head[i] == x.0);
                }
            }
            if !(names(replaced, name) || names(placeholders, name)) {
                let added = (name, joined(base_source, name));
                assert(all.contains(x) <==> before.contains(x) || x == added) by {
                    if before.contains(x) {
                        let i = choose|i: int| 0 <= i < before.len() && before[i] == x;
                        assert(all[i] == x);
                    }
                    if x == added {
                        assert(all[before.len() as int] == x);
                    }
                    if all.contains(x) && x != added {
                        let i = choose|i: int| 0 <= i < all.len() && all[i] == x;
                        assert(before[i] == x);
                    }
                }
            }
        }
    }
}

/// A merged directory shows every entry of the extensions, and of its deployment every entry whose
/// name no extension has and for which nothing else will be mounted. It shows nothing else.
pub proof fn lemma_merged_directories_hold(
    merge: MergeView,
    base_names: Seq<Seq<char>>,
    placeholders: Seq<Seq<char>>,
    entry: (Seq<char>, Seq<char>),
)
    ensures
        merged_entries(merge, base_names, placeholders).contains(entry) <==> merge.entries.contains(
            entry,
        ) || (entry.1 == joined(merge.base_source, entry.0) && base_names.contains(entry.0) && !(
        exists|i: int|
            0 <= i < merge.entries.len() && same_path((#[trigger] merge.entries[i]).0, entry.0))
            && !(exists|i: int|
            0 <= i < placeholders.len() && same_path(#[trigger] placeholders[i], entry.0))),
{
    let replaced = entry_names(merge.entries);
    let own = base_entries(merge.base_source, base_names, replaced, placeholders);
    lemma_base_entries(merge.base_source, base_names, replaced, placeholders);
    lemma_concat_contains(own, merge.entries);
    lemma_sorted_contains(
        own + merge.entries,
        |a: (Seq<char>, Seq<char>), b: (Seq<char>, Seq<char>)| entry_le(a, b),
    );
    if names(replaced, entry.0) {
        let i = choose|i: int|
            0 <= i < replaced.len() && same_path(#[trigger] replaced[i], entry.0);
        assert(same_path(merge.entries[i].0, entry.0));
    }
    if exists|i: int|
        0 <= i < merge.entries.len() && same_path((#[trigger] merge.entries[i]).0, entry.0) {
        let i = choose|i: int|
            0 <= i < merge.entries.len() && same_path((#[trigger] merge.entries[i]).0, entry.0);
        assert(same_path(replaced[i], entry.0));
    }
}

proof fn lemma_entry_steps_at(
    root: Seq<char>,
    target: Seq<char>,
    entries: Seq<(Seq<char>, Seq<char>)>,
    kinds: Seq<KindView>,
    n: int,
    i: int,
) -> (at: int)
    requires
        0 <= i < n <= entries.len(),
        entries.len() == kinds.len(),
    ensures
        ({
            let steps = all_entry_steps(root, target, entries, kinds, n);
            let own = entry_steps(root, target, entries[i], kinds[i]);
            &&& 0 <= at
            &&& at + own.len() <= steps.len()
            &&& forall|j: int| 0 <= j < own.len() ==> #[trigger] steps[at + j] == own[j]
        }),
    decreases n,
{
    let before = all_entry_steps(root, target, entries, kinds, n - 1);
    if i == n - 1 {
        before.len() as int
    } else {
        let at = lemma_entry_steps_at(root, target, entries, kinds, n - 1, i);
        let steps = all_entry_steps(root, target, entries, kinds, n);
        let own = entry_steps(root, target, entries[i], kinds[i]);
        assert forall|j: int| 0 <= j < own.len() implies #[trigger] steps[at + j] == own[j] by {
            assert(before[at + j] == own[j]);
        }
        at
    }
}

proof fn lemma_mounts_are_entries(
    root: Seq<char>,
    target: Seq<char>,
    entries: Seq<(Seq<char>, Seq<char>)>,
    kinds: Seq<KindView>,
    n: int,
)
    requires
        0 <= n <= entries.len(),
        entries.len() == kinds.len(),
    ensures
        ({
            let steps = all_entry_steps(root, target, entries, kinds, n);
            forall|s: int|
                0 <= s < steps.len() && #[trigger] steps[s] is Mount ==> shows_one_of(
                    target,
                    entries,
                    steps[s],
                )
        }),
    decreases n,
{
    if n > 0 {
        lemma_mounts_are_entries(root, target, entries, kinds, n - 1);
        let before = all_entry_steps(root, target, entries, kinds, n - 1);
        let steps = all_entry_steps(root, target, entries, kinds, n);
        assert forall|s: int| 0 <= s < steps.len() && #[trigger] steps[s] is Mount implies
            shows_one_of(target, entries, steps[s]) by {
            if s < before.len() {
                assert(steps[s] == before[s]);
            } else {
                let own = entry_steps(root, target, entries[n - 1], kinds[n - 1]);
                assert(steps[s] == own[s - before.len()]);
                assert(entries[n - 1] == entries[n - 1]);
            }
        }
    }
}

/// Whether a step shows one of the entries of the directory at its name.
pub open spec fn shows_one_of(
    target: Seq<char>,
    entries: Seq<(Seq<char>, Seq<char>)>,
    step: MergeStepView,
) -> bool {
    exists|i: int|
        0 <= i < entries.len() && step == (MergeStepView::Mount {
            source: (#[trigger] entries[i]).1,
            target: joined(target, entries[i].0),
        })
}

/// Whether what is shown as an entry of a merged directory was made ready before: first the
/// directory is empty, then the place is made, then the entry is shown there. A link is made again.
pub open spec fn is_merged(
    root: Seq<char>,
    target: Seq<char>,
    entry: (Seq<char>, Seq<char>),
    kind: KindView,
    steps: Seq<MergeStepView>,
    at: int,
) -> bool {
    let place = joined(joined(root, target), entry.0);
    let mount = MergeStepView::Mount { source: entry.1, target: joined(target, entry.0) };
    match kind {
        KindView::Link(says) => 0 < at < steps.len() && steps[at] == (MergeStepView::Symlink {
            says,
            link: place,
        }),
        KindView::Directory => 0 < at && at + 1 < steps.len() && steps[at]
            == MergeStepView::CreateDirectory(place) && steps[at + 1] == mount,
        KindView::File => 0 < at && at + 1 < steps.len() && steps[at] == MergeStepView::CreateFile(
            place,
        ) && steps[at + 1] == mount,
    }
}

/// Whether the entry is shown by one of the steps.
pub open spec fn is_shown_at_its_name(
    root: Seq<char>,
    target: Seq<char>,
    entry: (Seq<char>, Seq<char>),
    kind: KindView,
    steps: Seq<MergeStepView>,
) -> bool {
    exists|at: int| #[trigger] is_merged(root, target, entry, kind, steps, at)
}

/// Merging a directory lays an empty one over it, in which every entry is shown at its name, links
/// as the links they are; a directory is made for whatever is mounted there later; and nothing but
/// the entries is shown.
pub proof fn lemma_merging_shows_the_entries(
    root: Seq<char>,
    target: Seq<char>,
    placeholders: Seq<Seq<char>>,
    entries: Seq<(Seq<char>, Seq<char>)>,
    kinds: Seq<KindView>,
)
    requires
        entries.len() == kinds.len(),
    ensures
        ({
            let steps = merge_plan(root, target, placeholders, entries, kinds);
            &&& steps.len() > 0 && steps[0] == MergeStepView::Tmpfs(target)
            &&& forall|i: int|
                0 <= i < entries.len() ==> is_shown_at_its_name(
                    root,
                    target,
                    #[trigger] entries[i],
                    kinds[i],
                    steps,
                )
            &&& forall|i: int|
                0 <= i < placeholders.len() ==> steps.contains(
                    MergeStepView::CreateDirectory(
                        joined(joined(root, target), #[trigger] placeholders[i]),
                    ),
                )
            &&& forall|s: int|
                0 <= s < steps.len() && #[trigger] steps[s] is Mount ==> shows_one_of(
                    target,
                    entries,
                    steps[s],
                )
        }),
{
    let steps = merge_plan(root, target, placeholders, entries, kinds);
    let first = seq![MergeStepView::Tmpfs(target)];
    let made = placeholder_steps(root, target, placeholders);
    let n = entries.len() as int;
    let rest = all_entry_steps(root, target, entries, kinds, n);
    let offset = 1 + made.len();
    assert forall|i: int| 0 <= i < entries.len() implies is_shown_at_its_name(
        root,
        target,
        #[trigger] entries[i],
        kinds[i],
        steps,
    ) by {
        let at = lemma_entry_steps_at(root, target, entries, kinds, n, i);
        let own = entry_steps(root, target, entries[i], kinds[i]);
        assert(rest[at + 0] == own[0]);
        assert(steps[offset + at] == rest[at]);
        if own.len() > 1 {
            assert(rest[at + 1] == own[1]);
            assert(steps[offset + at + 1] == rest[at + 1]);
        }
        assert(is_merged(root, target, entries[i], kinds[i], steps, offset + at));
    }
    assert forall|i: int| 0 <= i < placeholders.len() implies steps.contains(
        MergeStepView::CreateDirectory(joined(joined(root, target), #[trigger] placeholders[i])),
    ) by {
        assert(steps[1 + i] == made[i]);
    }
    lemma_mounts_are_entries(root, target, entries, kinds, n);
    assert forall|s: int| 0 <= s < steps.len() && #[trigger] steps[s] is Mount implies shows_one_of(
        target,
        entries,
        steps[s],
    ) by {
        if s >= offset {
            assert(steps[s] == rest[s - offset]);
        } else if s >= 1 {
            assert(steps[s] == made[s - 1]);
        }
    }
}

/// Whether a directory of the sandbox could be laid over so that a target can be made in it: it is
/// there, it is above the target, and it is in the scope but not the whole of it.
pub open spec fn can_be_laid_over(
    directory: Seq<char>,
    target: Seq<char>,
    scope: Seq<char>,
    existing: Seq<Seq<char>>,
) -> bool {
    &&& names(existing, directory)
    &&& within(target, directory)
    &&& !same_path(target, directory)
    &&& within(directory, scope)
    &&& !same_path(directory, scope)
}

proof fn lemma_nearest_from(
    path: Seq<char>,
    scope: Seq<char>,
    existing: Seq<Seq<char>>,
    directory: Seq<char>,
)
    requires
        within(path, directory),
        names(existing, directory),
        within(directory, scope),
        !same_path(directory, scope),
    ensures
        overlay_from(path, scope, existing) matches Some(overlay) && within(overlay, directory)
            && names(existing, overlay),
    decreases components(path).len(),
{
    lemma_within_order(path, path, path);
    if names(existing, path) {
    } else {
        let (a, d, s) = (components(path), components(directory), components(scope));
        if same_path(path, directory) {
            let i = choose|i: int|
                0 <= i < existing.len() && same_path(#[trigger] existing[i], directory);
            assert(same_path(existing[i], path));
            assert(false);
        }
        assert(d.len() < a.len()) by {
            if d.len() == a.len() {
                assert(a.take(d.len() as int) =~= a);
            }
        }
        assert(s.len() < d.len()) by {
            if s.len() == d.len() {
                assert(d.take(s.len() as int) =~= d);
            }
        }
        lemma_parent(path);
        lemma_parent_shorter(path);
        lemma_has_parent(path);
        let parent = parent_of(path)->0;
        assert(components(parent) == a.drop_last());
        assert(a.drop_last().take(d.len() as int) =~= a.take(d.len() as int));
        assert(within(parent, directory));
        assert(!same_path(parent, scope)) by {
            assert(components(parent).len() >= d.len());
        }
        lemma_nearest_from(parent, scope, existing, directory);
    }
}

proof fn lemma_has_parent(path: Seq<char>)
    requires
        components(path).len() > 1,
    ensures
        parent_of(path) is Some,
{
    lemma_parent(path);
}

/// The directory that is laid over for a target is the nearest one that can be: where any can be
/// laid over one is, and it lies in all others that could have been.
pub proof fn lemma_nearest_is_laid_over(
    target: Seq<char>,
    scope: Seq<char>,
    existing: Seq<Seq<char>>,
    directory: Seq<char>,
)
    requires
        can_be_laid_over(directory, target, scope, existing),
    ensures
        overlay_of(target, scope, existing) matches Some(overlay) && within(overlay, directory)
            && names(existing, overlay),
{
    let (t, d, s) = (components(target), components(directory), components(scope));
    assert(d.len() < t.len()) by {
        if d.len() == t.len() {
            assert(t.take(d.len() as int) =~= t);
        }
    }
    assert(s.len() < d.len()) by {
        if s.len() == d.len() {
            assert(d.take(s.len() as int) =~= d);
        }
    }
    lemma_parent(target);
    lemma_has_parent(target);
    let parent = parent_of(target)->0;
    assert(t.drop_last().take(d.len() as int) =~= t.take(d.len() as int));
    lemma_nearest_from(parent, scope, existing, directory);
    let overlay = overlay_from(parent, scope, existing)->0;
    assert(components(overlay).len() >= d.len());
}

/// A directory is shown in place of a merged one only where nobody can tell the difference: the
/// deployment has nothing there, every entry stands in the directory under its own name, and the
/// directory holds nothing else.
pub proof fn lemma_direct_sources_are_the_same(
    entries: Seq<(Seq<char>, Seq<char>)>,
    base_names: Seq<Seq<char>>,
    source_names: Seq<Seq<char>>,
)
    ensures
        direct_source(entries, base_names, source_names) matches Some(directory) ==> {
            &&& entries.len() > 0
            &&& base_names.len() == 0
            &&& forall|i: int|
                0 <= i < entries.len() ==> same_path(
                    (#[trigger] entries[i]).1,
                    joined(directory, entries[i].0),
                )
            &&& forall|k: int|
                0 <= k < source_names.len() ==> is_entry_name(entries, #[trigger] source_names[k])
        },
{
    if let Some(directory) = direct_source(entries, base_names, source_names) {
        assert forall|k: int| 0 <= k < source_names.len() implies is_entry_name(
            entries,
            #[trigger] source_names[k],
        ) by {
            let all = entry_names(entries);
            assert(names(all, source_names[k]));
            let i = choose|i: int|
                0 <= i < all.len() && same_path(#[trigger] all[i], source_names[k]);
            assert(same_path(entries[i].0, source_names[k]));
        }
    }
}

/// Whether one of the entries has the name.
pub open spec fn is_entry_name(entries: Seq<(Seq<char>, Seq<char>)>, name: Seq<char>) -> bool {
    exists|i: int| 0 <= i < entries.len() && same_path((#[trigger] entries[i]).0, name)
}

/// What is told of the extensions of an application or of its runtime: each of its own extensions
/// by name and commit, and no other.
pub proof fn lemma_extensions_are_told(
    mounts: Seq<ExtensionMountView>,
    scope: ExtensionScope,
    line: Seq<char>,
)
    ensures
        extension_info(mounts, scope).contains(line) <==> exists|i: int|
            0 <= i < mounts.len() && (#[trigger] mounts[i]).scope == scope && line == mounts[i].name
                + "="@ + mounts[i].commit,
    decreases mounts.len(),
{
    if mounts.len() > 0 {
        let head = mounts.drop_last();
        let last = mounts[mounts.len() - 1];
        lemma_extensions_are_told(head, scope, line);
        let before = extension_info(head, scope);
        let all = extension_info(mounts, scope);
        if before.contains(line) {
            let i = choose|i: int|
                0 <= i < head.len() && (#[trigger] head[i]).scope == scope && line == head[i].name
                    + "="@ + head[i].commit;
            assert(mounts[i] == head[i]);
            let k = choose|k: int| 0 <= k < before.len() && before[k] == line;
            assert(all[k] == line);
        }
        if last.scope == scope && line == last.name + "="@ + last.commit {
            assert(all[before.len() as int] == line);
        }
        if all.contains(line) && !before.contains(line) {
            let k = choose|k: int| 0 <= k < all.len() && all[k] == line;
            if k < before.len() {
                assert(before[k] == line);
            }
            assert(mounts[mounts.len() - 1].scope == scope);
        }
        if exists|i: int|
            0 <= i < mounts.len() && (#[trigger] mounts[i]).scope == scope && line == mounts[i].name
                + "="@ + mounts[i].commit {
            let i = choose|i: int|
                0 <= i < mounts.len() && (#[trigger] mounts[i]).scope == scope && line
                    == mounts[i].name + "="@ + mounts[i].commit;
            if i < head.len() {
                assert(head[i] == mounts[i]);
            }
        }
    }
}

/// The libraries of an extension are looked for where the extension is mounted, and only those of
/// extensions that have some.
pub proof fn lemma_extension_libraries(
    prefix: Seq<char>,
    extensions: Seq<ExtensionView>,
    path: Seq<char>,
)
    ensures
        library_paths(prefix, extensions).contains(path) <==> exists|i: int|
            0 <= i < extensions.len() && (#[trigger] extensions[i]).library is Some && path
                == joined(joined(prefix, extensions[i].mount), extensions[i].library->0),
    decreases extensions.len(),
{
    if extensions.len() > 0 {
        let head = extensions.drop_last();
        let last = extensions[extensions.len() - 1];
        lemma_extension_libraries(prefix, head, path);
        let before = library_paths(prefix, head);
        let all = library_paths(prefix, extensions);
        if before.contains(path) {
            let i = choose|i: int|
                0 <= i < head.len() && (#[trigger] head[i]).library is Some && path == joined(
                    joined(prefix, head[i].mount),
                    head[i].library->0,
                );
            assert(extensions[i] == head[i]);
            let k = choose|k: int| 0 <= k < before.len() && before[k] == path;
            assert(all[k] == path);
        }
        if last.library is Some {
            assert(all[before.len() as int] == joined(joined(prefix, last.mount), last.library->0));
        }
        if all.contains(path) && !before.contains(path) {
            let k = choose|k: int| 0 <= k < all.len() && all[k] == path;
            if k < before.len() {
                assert(before[k] == path);
            }
            assert(extensions[extensions.len() - 1].library is Some);
        }
        if exists|i: int|
            0 <= i < extensions.len() && (#[trigger] extensions[i]).library is Some && path
                == joined(joined(prefix, extensions[i].mount), extensions[i].library->0) {
            let i = choose|i: int|
                0 <= i < extensions.len() && (#[trigger] extensions[i]).library is Some && path
                    == joined(joined(prefix, extensions[i].mount), extensions[i].library->0);
            if i < head.len() {
                assert(head[i] == extensions[i]);
            }
        }
    }
}

} // verus!
