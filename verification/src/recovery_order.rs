//! Which sandboxes are in use, and the order in which the others are taken down.

use crate::order::{
    deduplicated, depth_order, order_by_depth, path_le, sort_paths, sorted, Relation,
};
use crate::path::{components, path_texts, same_path, FsPath};
use crate::text::{lemma_views_push, views};
use vstd::prelude::*;

verus! {

/// Whether the path is named among the paths.
pub open spec fn names(paths: Seq<Seq<char>>, path: Seq<char>) -> bool {
    exists|i: int| 0 <= i < paths.len() && same_path(#[trigger] paths[i], path)
}

/// Whether the path is named among the paths.
pub fn is_named(paths: &[FsPath], path: &FsPath) -> (r: bool)
    ensures
        r == names(path_texts(paths@), path@),
{
    let ghost all = path_texts(paths@);
    let mut i: usize = 0;
    while i < paths.len()
        invariant
            i <= paths@.len(),
            all == path_texts(paths@),
            forall|j: int| 0 <= j < i ==> !same_path(#[trigger] all[j], path@),
        decreases paths@.len() - i,
    {
        assert(all[i as int] == paths@[i as int]@);
        if paths[i].same_as(path) {
            return true;
        }
        i += 1;
    }
    false
}

/// That something which uses the first path needs the second.
#[derive(Debug)]
pub struct Link {
    pub user: FsPath,
    pub needed: FsPath,
}

impl View for Link {
    type V = (Seq<char>, Seq<char>);

    open spec fn view(&self) -> (Seq<char>, Seq<char>) {
        (self.user@, self.needed@)
    }
}

/// Whether the path is needed, within so many links, by something that is in use.
pub open spec fn needed_within(
    seeds: Seq<Seq<char>>,
    links: Seq<(Seq<char>, Seq<char>)>,
    path: Seq<char>,
    n: nat,
) -> bool
    decreases n,
{
    names(seeds, path) || (n > 0 && exists|i: int|
        0 <= i < links.len() && same_path((#[trigger] links[i]).1, path) && needed_within(
            seeds,
            links,
            links[i].0,
            (n - 1) as nat,
        ))
}

/// Whether the path is in use, or needed by something that is.
pub open spec fn in_use(
    seeds: Seq<Seq<char>>,
    links: Seq<(Seq<char>, Seq<char>)>,
    path: Seq<char>,
) -> bool {
    exists|n: nat| needed_within(seeds, links, path, n)
}

/// The number of links that have not been followed.
spec fn unfollowed(followed: Seq<bool>) -> nat
    decreases followed.len(),
{
    if followed.len() == 0 {
        0
    } else {
        unfollowed(followed.drop_last()) + (if followed.last() {
            0nat
        } else {
            1nat
        })
    }
}

proof fn lemma_unfollowed(followed: Seq<bool>, i: int)
    requires
        0 <= i < followed.len(),
        !followed[i],
    ensures
        unfollowed(followed.update(i, true)) < unfollowed(followed),
    decreases followed.len(),
{
    let after = followed.update(i, true);
    if i == followed.len() - 1 {
        assert(after.drop_last() =~= followed.drop_last());
    } else {
        assert(after.drop_last() =~= followed.drop_last().update(i, true));
        lemma_unfollowed(followed.drop_last(), i);
    }
}

/// A link whose user is in use and that has not been followed.
fn next_link(links: &[Link], followed: &Vec<bool>, active: &[FsPath]) -> (r: Option<usize>)
    requires
        followed@.len() == links@.len(),
    ensures
        r matches Some(i) ==> i < links@.len() && !followed@[i as int] && names(
            path_texts(active@),
            links@[i as int].user@,
        ),
        r is None ==> forall|j: int|
            0 <= j < links@.len() && !followed@[j] ==> !names(
                path_texts(active@),
                (#[trigger] links@[j]).user@,
            ),
{
    let mut i: usize = 0;
    while i < links.len()
        invariant
            i <= links@.len(),
            followed@.len() == links@.len(),
            forall|j: int|
                0 <= j < i && !followed@[j] ==> !names(
                    path_texts(active@),
                    (#[trigger] links@[j]).user@,
                ),
        decreases links@.len() - i,
    {
        if !followed[i] && is_named(active, &links[i].user) {
            return Some(i);
        }
        i += 1;
    }
    None
}

/// All that is in use, or needed by something that is.
pub fn close_under_links(seeds: Vec<FsPath>, links: &[Link]) -> (r: Vec<FsPath>)
    ensures
        forall|path: Seq<char>| #[trigger]
            names(path_texts(r@), path) <==> in_use(path_texts(seeds@), views(links@), path),
{
    let ghost start = path_texts(seeds@);
    let ghost all = views(links@);
    let mut active = seeds;
    let mut followed: Vec<bool> = Vec::new();
    let mut k: usize = 0;
    while k < links.len()
        invariant
            k <= links@.len(),
            followed@.len() == k,
            forall|j: int| 0 <= j < k ==> !#[trigger] followed@[j],
        decreases links@.len() - k,
    {
        followed.push(false);
        k += 1;
    }
    proof {
        assert forall|path: Seq<char>| #[trigger] names(path_texts(active@), path) implies in_use(
            start,
            all,
            path,
        ) by {
            assert(needed_within(start, all, path, 0));
        }
    }
    loop
        invariant
            followed@.len() == links@.len(),
            all == views(links@),
            start == path_texts(seeds@),
            forall|path: Seq<char>|
                names(start, path) ==> #[trigger] names(path_texts(active@), path),
            forall|path: Seq<char>| #[trigger]
                names(path_texts(active@), path) ==> in_use(start, all, path),
            forall|j: int|
                0 <= j < links@.len() && followed@[j] ==> names(
                    path_texts(active@),
                    (#[trigger] links@[j]).needed@,
                ),
        decreases unfollowed(followed@),
    {
        match next_link(links, &followed, active.as_slice()) {
            Some(i) => {
                let ghost before = active@;
                let ghost marks = followed@;
                proof {
                    lemma_unfollowed(followed@, i as int);
                }
                followed.set(i, true);
                let needed = links[i].needed.clone();
                let ghost new_path = needed@;
                proof {
                    lemma_views_push(active@, needed);
                }
                active.push(needed);
                proof {
                    let (old_paths, new_paths) = (path_texts(before), path_texts(active@));
                    assert forall|path: Seq<char>| #[trigger] names(new_paths, path) <==> names(
                        old_paths,
                        path,
                    ) || same_path(new_path, path) by {
                        lemma_names_push(old_paths, new_path, path);
                    }
                    assert(in_use(start, all, links@[i as int].user@));
                    let n = choose|n: nat|
                        needed_within(start, all, links@[i as int].user@, n);
                    assert(all[i as int] == links@[i as int]@);
                    assert forall|path: Seq<char>| same_path(new_path, path) implies in_use(
                        start,
                        all,
                        path,
                    ) by {
                        assert(same_path(all[i as int].1, path));
                        assert(needed_within(start, all, path, (n + 1) as nat));
                    }
                    assert forall|j: int| 0 <= j < links@.len() && followed@[j] implies names(
                        new_paths,
                        (#[trigger] links@[j]).needed@,
                    ) by {
                        if j != i {
                            assert(marks[j]);
                            assert(names(old_paths, links@[j].needed@));
                        } else {
                            assert(same_path(new_path, links@[j].needed@));
                        }
                    }
                }
            },
            None => {
                proof {
                    let paths = path_texts(active@);
                    assert forall|path: Seq<char>| in_use(start, all, path) implies #[trigger] names(
                        paths,
                        path,
                    ) by {
                        let n = choose|n: nat| needed_within(start, all, path, n);
                        assert forall|j: int| 0 <= j < all.len() && names(
                            paths,
                            (#[trigger] all[j]).0,
                        ) implies names(paths, all[j].1) by {
                            assert(all[j] == links@[j]@);
                            if !followed@[j] {
                                assert(!names(paths, links@[j].user@));
                            }
                        }
                        lemma_closed(start, all, paths, path, n);
                    }
                }
                return active;
            },
        }
    }
}

proof fn lemma_names_push(paths: Seq<Seq<char>>, new_path: Seq<char>, path: Seq<char>)
    ensures
        names(paths.push(new_path), path) <==> names(paths, path) || same_path(new_path, path),
{
    let all = paths.push(new_path);
    if names(paths, path) {
        let i = choose|i: int| 0 <= i < paths.len() && same_path(#[trigger] paths[i], path);
        assert(all[i] == paths[i]);
    }
    if same_path(new_path, path) {
        assert(same_path(all[paths.len() as int], path));
    }
    if names(all, path) {
        let i = choose|i: int| 0 <= i < all.len() && same_path(#[trigger] all[i], path);
        if i < paths.len() {
            assert(all[i] == paths[i]);
        }
    }
}

/// What is closed under the links holds all that is needed.
proof fn lemma_closed(
    seeds: Seq<Seq<char>>,
    links: Seq<(Seq<char>, Seq<char>)>,
    paths: Seq<Seq<char>>,
    path: Seq<char>,
    n: nat,
)
    requires
        forall|p: Seq<char>| names(seeds, p) ==> #[trigger] names(paths, p),
        forall|j: int|
            0 <= j < links.len() && names(paths, (#[trigger] links[j]).0) ==> names(
                paths,
                links[j].1,
            ),
        needed_within(seeds, links, path, n),
    ensures
        names(paths, path),
    decreases n,
{
    if names(seeds, path) {
        assert(names(paths, path));
    } else {
        let i = choose|i: int|
            0 <= i < links.len() && same_path((#[trigger] links[i]).1, path) && needed_within(
                seeds,
                links,
                links[i].0,
                (n - 1) as nat,
            );
        lemma_closed(seeds, links, paths, links[i].0, (n - 1) as nat);
        assert(names(paths, links[i].1));
        let k = choose|k: int| 0 <= k < paths.len() && same_path(#[trigger] paths[k], links[i].1);
        assert(same_path(paths[k], path));
    }
}

/// What is needed by something in use is in use; and what is in use stays so when there is more.
pub proof fn lemma_in_use_closed(
    seeds: Seq<Seq<char>>,
    links: Seq<(Seq<char>, Seq<char>)>,
    i: int,
)
    requires
        0 <= i < links.len(),
        in_use(seeds, links, links[i].0),
    ensures
        in_use(seeds, links, links[i].1),
{
    let n = choose|n: nat| needed_within(seeds, links, links[i].0, n);
    assert(same_path(links[i].1, links[i].1));
    assert(needed_within(seeds, links, links[i].1, (n + 1) as nat));
}

/// Whether nothing that is left must come before the path.
pub open spec fn is_ready(
    remaining: Seq<Seq<char>>,
    dependencies: Seq<(Seq<char>, Seq<char>)>,
    path: Seq<char>,
) -> bool {
    forall|i: int|
        0 <= i < dependencies.len() && same_path((#[trigger] dependencies[i]).1, path) ==> !names(
            remaining,
            dependencies[i].0,
        )
}

/// The place of the deepest of the first `n` paths that is ready; of several equal ones the last.
pub open spec fn deepest_ready(
    remaining: Seq<Seq<char>>,
    dependencies: Seq<(Seq<char>, Seq<char>)>,
    n: int,
) -> Option<int>
    decreases n,
{
    if n <= 0 {
        None
    } else {
        let before = deepest_ready(remaining, dependencies, n - 1);
        if !is_ready(remaining, dependencies, remaining[n - 1]) {
            before
        } else {
            match before {
                Some(i) => if depth_order(remaining[n - 1], remaining[i]) == Relation::Before {
                    before
                } else {
                    Some(n - 1)
                },
                None => Some(n - 1),
            }
        }
    }
}

/// The place of the path that comes next: the deepest that is ready, or the last where none is.
pub open spec fn next_place(
    remaining: Seq<Seq<char>>,
    dependencies: Seq<(Seq<char>, Seq<char>)>,
) -> int {
    match deepest_ready(remaining, dependencies, remaining.len() as int) {
        Some(i) => i,
        None => remaining.len() - 1,
    }
}

/// The paths in an order in which each comes after those that must come before it, as far as that
/// is possible.
pub open spec fn recovery_order(
    remaining: Seq<Seq<char>>,
    dependencies: Seq<(Seq<char>, Seq<char>)>,
) -> Seq<Seq<char>>
    decreases remaining.len(),
{
    if remaining.len() == 0 {
        Seq::empty()
    } else {
        let i = next_place(remaining, dependencies);
        if 0 <= i < remaining.len() {
            seq![remaining[i]] + recovery_order(remaining.remove(i), dependencies)
        } else {
            Seq::empty()
        }
    }
}

proof fn lemma_deepest_ready(
    remaining: Seq<Seq<char>>,
    dependencies: Seq<(Seq<char>, Seq<char>)>,
    n: int,
)
    requires
        0 <= n <= remaining.len(),
    ensures
        match deepest_ready(remaining, dependencies, n) {
            Some(i) => 0 <= i < n && is_ready(remaining, dependencies, remaining[i]),
            None => forall|i: int|
                0 <= i < n ==> !is_ready(remaining, dependencies, #[trigger] remaining[i]),
        },
    decreases n,
{
    if n > 0 {
        lemma_deepest_ready(remaining, dependencies, n - 1);
    }
}

fn path_is_ready(remaining: &[FsPath], dependencies: &[Link], path: &FsPath) -> (r: bool)
    ensures
        r == is_ready(path_texts(remaining@), views(dependencies@), path@),
{
    let ghost all = views(dependencies@);
    let mut i: usize = 0;
    while i < dependencies.len()
        invariant
            i <= dependencies@.len(),
            all == views(dependencies@),
            forall|j: int|
                0 <= j < i && same_path((#[trigger] all[j]).1, path@) ==> !names(
                    path_texts(remaining@),
                    all[j].0,
                ),
        decreases dependencies@.len() - i,
    {
        assert(all[i as int] == dependencies@[i as int]@);
        if dependencies[i].needed.same_as(path) && is_named(remaining, &dependencies[i].user) {
            return false;
        }
        i += 1;
    }
    true
}

/// Puts paths in an order in which each user comes before what it needs, as far as that is
/// possible.
pub fn topological_path_order(paths: Vec<FsPath>, dependencies: &[Link]) -> (r: Vec<FsPath>)
    ensures
        path_texts(r@) == recovery_order(
            deduplicated(
                sorted(path_texts(paths@), |p: Seq<char>, q: Seq<char>| path_le(p, q)),
                |p: Seq<char>, q: Seq<char>| same_path(p, q),
            ),
            views(dependencies@),
        ),
{
    let mut remaining = sort_paths(paths);
    let ghost deps = views(dependencies@);
    let ghost goal = recovery_order(path_texts(remaining@), deps);
    let mut ordered: Vec<FsPath> = Vec::new();
    assert(path_texts(ordered@) + goal =~= goal);
    while remaining.len() > 0
        invariant
            deps == views(dependencies@),
            path_texts(ordered@) + recovery_order(path_texts(remaining@), deps) == goal,
        decreases remaining@.len(),
    {
        let ghost left = path_texts(remaining@);
        let mut best: Option<usize> = None;
        let mut i: usize = 0;
        while i < remaining.len()
            invariant
                i <= remaining@.len(),
                left == path_texts(remaining@),
                deps == views(dependencies@),
                match best {
                    Some(b) => b < i && deepest_ready(left, deps, i as int) == Some(b as int),
                    None => deepest_ready(left, deps, i as int) is None,
                },
            decreases remaining@.len() - i,
        {
            assert(left[i as int] == remaining@[i as int]@);
            if path_is_ready(remaining.as_slice(), dependencies, &remaining[i]) {
                let replace = match best {
                    Some(b) => {
                        assert(left[b as int] == remaining@[b as int]@);
                        match order_by_depth(&remaining[i], &remaining[b]) {
                            Relation::Before => false,
                            _ => true,
                        }
                    },
                    None => true,
                };
                if replace {
                    best = Some(i);
                }
            }
            i += 1;
        }
        assert(left.len() == remaining@.len());
        let place: usize = match best {
            Some(b) => b,
            None => remaining.len() - 1,
        };
        let ghost before = ordered@;
        let path = remaining.remove(place);
        proof {
            lemma_views_push(before, path);
            assert(path@ == left[place as int]);
            assert(path_texts(remaining@) =~= left.remove(place as int));
            assert(path_texts(before).push(path@) + recovery_order(path_texts(remaining@), deps)
                =~= path_texts(before) + recovery_order(left, deps));
        }
        ordered.push(path);
    }
    assert(path_texts(ordered@) + recovery_order(path_texts(remaining@), deps) =~= path_texts(
        ordered@,
    ));
    ordered
}

/// What shows that dependencies among the paths have no cycle: a rank that grows along each of
/// those with both ends among the paths.
pub open spec fn ranks(
    paths: Seq<Seq<char>>,
    dependencies: Seq<(Seq<char>, Seq<char>)>,
    rank: spec_fn(Seq<Seq<char>>) -> int,
) -> bool {
    forall|i: int|
        0 <= i < dependencies.len() && names(paths, (#[trigger] dependencies[i]).0) && names(
            paths,
            dependencies[i].1,
        ) ==> rank(components(dependencies[i].0)) < rank(components(dependencies[i].1))
}

/// A rank for dependencies among the paths is one for those among some of them.
proof fn lemma_ranks_fewer(
    paths: Seq<Seq<char>>,
    dependencies: Seq<(Seq<char>, Seq<char>)>,
    rank: spec_fn(Seq<Seq<char>>) -> int,
    place: int,
)
    requires
        0 <= place < paths.len(),
        ranks(paths, dependencies, rank),
    ensures
        ranks(paths.remove(place), dependencies, rank),
{
    let fewer = paths.remove(place);
    assert forall|p: Seq<char>| names(fewer, p) implies names(paths, p) by {
        let k = choose|k: int| 0 <= k < fewer.len() && same_path(#[trigger] fewer[k], p);
        let m = if k < place { k } else { k + 1 };
        assert(same_path(paths[m], p));
    }
}

/// Without a cycle something is always ready: the path of the least rank.
proof fn lemma_some_ready(
    remaining: Seq<Seq<char>>,
    dependencies: Seq<(Seq<char>, Seq<char>)>,
    rank: spec_fn(Seq<Seq<char>>) -> int,
    least: int,
)
    requires
        ranks(remaining, dependencies, rank),
        0 <= least < remaining.len(),
        forall|i: int|
            0 <= i < remaining.len() ==> rank(components(remaining[least])) <= rank(
                components(#[trigger] remaining[i]),
            ),
    ensures
        is_ready(remaining, dependencies, remaining[least]),
{
    assert forall|i: int|
        0 <= i < dependencies.len() && same_path(
            (#[trigger] dependencies[i]).1,
            remaining[least],
        ) implies !names(remaining, dependencies[i].0) by {
        if names(remaining, dependencies[i].0) {
            let k = choose|k: int|
                0 <= k < remaining.len() && same_path(#[trigger] remaining[k], dependencies[i].0);
            assert(rank(components(remaining[least])) <= rank(components(remaining[k])));
            assert(same_path(remaining[least], dependencies[i].1));
            assert(names(remaining, dependencies[i].1));
        }
    }
}

proof fn lemma_least(
    remaining: Seq<Seq<char>>,
    rank: spec_fn(Seq<Seq<char>>) -> int,
    n: int,
) -> (least: int)
    requires
        0 < n <= remaining.len(),
    ensures
        0 <= least < n,
        forall|i: int|
            0 <= i < n ==> rank(components(remaining[least])) <= rank(
                components(#[trigger] remaining[i]),
            ),
    decreases n,
{
    if n == 1 {
        0
    } else {
        let before = lemma_least(remaining, rank, n - 1);
        if rank(components(remaining[n - 1])) < rank(components(remaining[before])) {
            n - 1
        } else {
            before
        }
    }
}

/// The order keeps the paths.
pub proof fn lemma_recovery_order_keeps(
    remaining: Seq<Seq<char>>,
    dependencies: Seq<(Seq<char>, Seq<char>)>,
)
    ensures
        recovery_order(remaining, dependencies).to_multiset() == remaining.to_multiset(),
        recovery_order(remaining, dependencies).len() == remaining.len(),
    decreases remaining.len(),
{
    broadcast use vstd::seq_lib::group_to_multiset_ensures;

    if remaining.len() > 0 {
        lemma_deepest_ready(remaining, dependencies, remaining.len() as int);
        let i = next_place(remaining, dependencies);
        let rest = remaining.remove(i);
        lemma_recovery_order_keeps(rest, dependencies);
        let tail = recovery_order(rest, dependencies);
        let all = recovery_order(remaining, dependencies);
        vstd::seq_lib::to_multiset_remove(remaining, i);
        assert(seq![remaining[i]] + tail =~= tail.insert(0, remaining[i]));
        assert(remaining.contains(remaining[i]));
        assert(all.to_multiset() =~= remaining.to_multiset());
    } else {
        assert(recovery_order(remaining, dependencies) =~= remaining);
    }
}

/// Where the dependencies among the paths have no cycle, every path comes after all that must come
/// before it.
pub proof fn lemma_recovery_order_respects(
    remaining: Seq<Seq<char>>,
    dependencies: Seq<(Seq<char>, Seq<char>)>,
    rank: spec_fn(Seq<Seq<char>>) -> int,
    d: int,
    i: int,
    j: int,
)
    requires
        ranks(remaining, dependencies, rank),
        0 <= d < dependencies.len(),
        0 <= i < recovery_order(remaining, dependencies).len(),
        0 <= j < recovery_order(remaining, dependencies).len(),
        same_path(recovery_order(remaining, dependencies)[i], dependencies[d].0),
        same_path(recovery_order(remaining, dependencies)[j], dependencies[d].1),
    ensures
        i < j,
    decreases remaining.len(),
{
    if remaining.len() > 0 {
        lemma_deepest_ready(remaining, dependencies, remaining.len() as int);
        let least = lemma_least(remaining, rank, remaining.len() as int);
        lemma_some_ready(remaining, dependencies, rank, least);
        let place = next_place(remaining, dependencies);
        assert(is_ready(remaining, dependencies, remaining[place]));
        let rest = remaining.remove(place);
        let tail = recovery_order(rest, dependencies);
        let all = recovery_order(remaining, dependencies);
        assert(all =~= seq![remaining[place]] + tail);
        if i == 0 {
            if j == 0 {
                assert(same_path(remaining[place], dependencies[d].0));
                assert(same_path(remaining[place], dependencies[d].1));
                assert(names(remaining, dependencies[d].0) && names(remaining, dependencies[d].1));
                assert(rank(components(dependencies[d].0)) < rank(components(dependencies[d].1)));
            }
        } else if j == 0 {
            lemma_recovery_order_keeps(rest, dependencies);
            let user = all[i];
            assert(tail[i - 1] == user);
            tail.to_multiset_ensures();
            rest.to_multiset_ensures();
            assert(tail.contains(user));
            assert(tail.to_multiset().count(user) > 0);
            assert(rest.to_multiset().count(user) > 0);
            assert(rest.contains(user));
            let k = choose|k: int| 0 <= k < rest.len() && rest[k] == user;
            let m = if k < place { k } else { k + 1 };
            assert(remaining[m] == user);
            assert(names(remaining, dependencies[d].0)) by {
                assert(same_path(remaining[m], dependencies[d].0));
            }
        } else {
            assert(tail[i - 1] == all[i] && tail[j - 1] == all[j]);
            lemma_ranks_fewer(remaining, dependencies, rank, place);
            lemma_recovery_order_respects(rest, dependencies, rank, d, i - 1, j - 1);
        }
    }
}

} // verus!
