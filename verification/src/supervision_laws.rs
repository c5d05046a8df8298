//! How long processes are given to end, which of them belong to a sandbox, and to which sandbox a
//! mountpoint belongs.

use crate::path::{
    components, is_name, joined, lemma_joined, lemma_name, lemma_parent, lemma_within_order,
    parent_of, same_path, within,
};
use crate::process_signals::Signal;
use crate::process_supervision::{
    pids_in, reference_of, references_in, termination_next, wait_next, Descendant, ExitWait,
    Sighting, Termination, TerminationAction, WaitAction,
};
use crate::recovery_order::names;
use crate::stale_sandbox_recovery::lemma_parent_shorter;
use crate::unmounting::{document_instance_of, nearest_instance};
use vstd::prelude::*;
use vstd::utf8::encode_utf8;

verus! {

/// A program that is asked to end is sent the signal again and again for two seconds. If it is still
/// there then, it is killed, and given up two seconds later. Nothing is sent to one that was not
/// asked to end.
pub proof fn lemma_two_seconds_to_end(wait: ExitWait, seen: Sighting)
    requires
        seen.now + 2000 <= u64::MAX,
        seen.processes_remain,
    ensures
        wait.termination is None && seen.requested is None ==> wait_next(wait, seen).1
            == WaitAction::Pause && wait_next(wait, seen).0.termination is None,
        wait.termination is None && seen.requested is Some ==> wait_next(wait, seen).1
            == WaitAction::SignalAndPause(seen.requested->0) && wait_next(wait, seen).0.termination
            == Some((seen.requested->0, (seen.now + 2000) as u64)),
        wait.termination matches Some((signal, deadline)) && seen.now < deadline ==> wait_next(
            wait,
            seen,
        ).1 == WaitAction::SignalAndPause(
            (wait.termination->0).0,
        ) && wait_next(
            wait,
            seen,
        ).0.termination == wait.termination,
        wait.termination matches Some((signal, deadline)) && seen.now >= deadline && signal
            != Signal::Kill ==> wait_next(wait, seen).0.termination == Some(
            (Signal::Kill, (seen.now + 2000) as u64),
        ),
        wait.termination matches Some((signal, deadline)) && seen.now >= deadline && signal
            == Signal::Kill ==> wait_next(wait, seen).1 == WaitAction::SignalAndGiveUp(
            Signal::Kill,
        ),
{
}

/// A program has ended once none of its processes is left, whatever was asked of it; and the status
/// that is told is the first that was seen.
pub proof fn lemma_first_status_counts(wait: ExitWait, seen: Sighting)
    ensures
        wait.status is Some ==> wait_next(wait, seen).0.status == wait.status,
        wait.status is None ==> wait_next(wait, seen).0.status == seen.status,
        !seen.processes_remain && wait.status is Some ==> wait_next(wait, seen).1
            == WaitAction::Ended(wait.status->0),
        !seen.processes_remain && wait.status is None && seen.status is Some ==> wait_next(
            wait,
            seen,
        ).1 == WaitAction::Ended(seen.status->0),
        !seen.processes_remain && wait.status is None && seen.status is None ==> wait_next(
            wait,
            seen,
        ).1 == WaitAction::EndedWithoutStatus,
{
}

/// A subtree that is made to end is sent its signal until its time is over, then killed for two
/// seconds more, and then given up; it has ended as soon as none of it is left.
pub proof fn lemma_subtrees_are_ended(t: Termination, now: u64)
    requires
        now + 2000 <= u64::MAX,
    ensures
        termination_next(t, false, now) == (t, TerminationAction::Ended),
        now < t.deadline ==> termination_next(t, true, now) == (
            t,
            TerminationAction::SignalAndPause(t.signal),
        ),
        now >= t.deadline && t.last ==> termination_next(t, true, now).1
            == TerminationAction::SignalAndGiveUp(t.signal),
        now >= t.deadline && !t.last ==> termination_next(t, true, now).0 == (Termination {
            signal: Signal::Kill,
            deadline: (now + 2000) as u64,
            last: true,
        }),
{
}

/// The processes of a subtree are those that descend from its root, and no others.
pub proof fn lemma_processes_of_a_subtree(descendants: Seq<Descendant>, subtree: i32, pid: i32)
    ensures
        pids_in(descendants, subtree).contains(pid) <==> exists|i: int|
            0 <= i < descendants.len() && (#[trigger] descendants[i]) == (Descendant {
                pid,
                subtree,
            }),
    decreases descendants.len(),
{
    let all = pids_in(descendants, subtree);
    if descendants.len() > 0 {
        let head = descendants.drop_last();
        let last = descendants[descendants.len() - 1];
        let own = Descendant { pid, subtree };
        let before = pids_in(head, subtree);
        lemma_processes_of_a_subtree(head, subtree, pid);
        if before.contains(pid) {
            let i = choose|i: int| 0 <= i < head.len() && (#[trigger] head[i]) == own;
            assert(descendants[i] == own);
            let k = choose|k: int| 0 <= k < before.len() && before[k] == pid;
            assert(all[k] == pid);
        }
        if last == own {
            assert(all[before.len() as int] == pid);
        }
        if all.contains(pid) && !before.contains(pid) {
            let k = choose|k: int| 0 <= k < all.len() && all[k] == pid;
            if k < before.len() {
                assert(before[k] == pid);
            }
            assert(last.pid == pid && last.subtree == subtree);
            assert(descendants[descendants.len() - 1] == own);
        }
        if exists|i: int| 0 <= i < descendants.len() && (#[trigger] descendants[i]) == own {
            let i = choose|i: int| 0 <= i < descendants.len() && (#[trigger] descendants[i]) == own;
            if i < head.len() {
                assert(head[i] == own);
            }
        }
    }
}

/// Whether a line of a listing says that a process is in a directory, or has it as its root or as
/// that of its jail.
pub open spec fn says_where(
    layout: (int, int, int, int),
    line: Seq<char>,
    pid: int,
    path: Seq<char>,
) -> bool {
    ||| reference_of(layout, encode_utf8(line)) == Some((pid, "cwd"@, path))
    ||| reference_of(layout, encode_utf8(line)) == Some((pid, "root"@, path))
    ||| reference_of(layout, encode_utf8(line)) == Some((pid, "jail"@, path))
}

/// A process is tied to the directories that it is in, that are its root and that are the root of
/// its jail; files that it merely has open do not tie it.
pub proof fn lemma_what_ties_a_process(
    layout: (int, int, int, int),
    ls: Seq<Seq<char>>,
    pid: int,
    path: Seq<char>,
)
    ensures
        references_in(layout, ls).contains((pid, path)) <==> exists|i: int|
            0 <= i < ls.len() && says_where(layout, #[trigger] ls[i], pid, path),
    decreases ls.len(),
{
    let all = references_in(layout, ls);
    let x = (pid, path);
    if ls.len() > 0 {
        let head = ls.drop_last();
        let before = references_in(layout, head);
        lemma_what_ties_a_process(layout, head, pid, path);
        if before.contains(x) {
            let i = choose|i: int|
                0 <= i < head.len() && says_where(layout, #[trigger] head[i], pid, path);
            assert(ls[i] == head[i]);
            let k = choose|k: int| 0 <= k < before.len() && before[k] == x;
            assert(all[k] == x);
        }
        if says_where(layout, ls[ls.len() - 1], pid, path) {
            assert(all[before.len() as int] == x);
        }
        if all.contains(x) && !before.contains(x) {
            let k = choose|k: int| 0 <= k < all.len() && all[k] == x;
            if k < before.len() {
                assert(before[k] == x);
            }
            assert(says_where(layout, ls[ls.len() - 1], pid, path));
        }
        if exists|i: int| 0 <= i < ls.len() && says_where(layout, #[trigger] ls[i], pid, path) {
            let i = choose|i: int|
                0 <= i < ls.len() && says_where(layout, #[trigger] ls[i], pid, path);
            if i < head.len() {
                assert(head[i] == ls[i]);
            }
        }
    }
}

/// A path belongs to the nearest instance that it is or lies below, and to none if there is none.
pub proof fn lemma_nearest_of_all_instances(
    path: Seq<char>,
    instances: Seq<Seq<char>>,
    other: Seq<char>,
)
    requires
        names(instances, other),
        within(path, other),
        components(other).len() > 0,
    ensures
        nearest_instance(path, instances) matches Some(root) && within(path, root) && within(
            root,
            other,
        ) && names(instances, root),
    decreases components(path).len(),
{
    lemma_within_order(path, path, path);
    if !names(instances, path) {
        let (a, d) = (components(path), components(other));
        if d.len() == a.len() {
            assert(a.take(d.len() as int) =~= a);
            let i = choose|i: int|
                0 <= i < instances.len() && same_path(#[trigger] instances[i], other);
            assert(same_path(instances[i], path));
        }
        lemma_parent(path);
        lemma_parent_shorter(path);
        assert(parent_of(path) is Some);
        let parent = parent_of(path)->0;
        assert(a.drop_last().take(d.len() as int) =~= a.take(d.len() as int));
        assert(within(path, parent)) by {
            assert(a.take(a.len() - 1) =~= a.drop_last());
        }
        lemma_nearest_of_all_instances(parent, instances, other);
        lemma_within_order(path, parent, nearest_instance(parent, instances)->0);
    }
}

/// A document of which only a file was granted is mounted in its instance at
/// `run/user/<uid>/doc/<grant>/<file>`; whatever is mounted elsewhere is none.
pub proof fn lemma_mounted_documents(
    chroots: Seq<char>,
    mountpoint: Seq<char>,
    parts: Seq<Seq<char>>,
)
    requires
        chroots.len() > 0,
        components(mountpoint) == components(chroots) + parts,
        forall|i: int|
            0 <= i < parts.len() ==> is_name(#[trigger] parts[i]) && parts[i].len() > 0
                && !parts[i].contains('/'),
    ensures
        document_instance_of(chroots, mountpoint) is Some <==> parts.len() == 8 && parts[2]
            == "run"@ && parts[3] == "user"@ && parts[5] == "doc"@,
        document_instance_of(chroots, mountpoint) matches Some(instance) ==> components(instance)
            == components(chroots) + seq![parts[0], parts[1]],
{
    reveal_strlit(".");
    let n = components(chroots).len() as int;
    assert(components(mountpoint).take(n) =~= components(chroots));
    assert(components(mountpoint).skip(n) =~= parts);
    if document_instance_of(chroots, mountpoint) is Some {
        assert(is_name(parts[0]) && is_name(parts[1]));
        assert("."@ =~= seq!['.']);
        lemma_name(parts[0]);
        lemma_name(parts[1]);
        lemma_joined(chroots, parts[0]);
        let app = joined(chroots, parts[0]);
        assert(app.len() > 0);
        lemma_joined(app, parts[1]);
        assert(components(chroots) + seq![parts[0]] + seq![parts[1]] =~= components(chroots)
            + seq![parts[0], parts[1]]);
    }
}

} // verus!
