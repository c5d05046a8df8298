//! Watching over the processes of a sandbox until they end.

use crate::bytes::{find_bytes, first_match, text_at, text_between, text_bytes};
use crate::numbers::{i32_value, parse_i32};
use crate::path::{within, FsPath};
use crate::process_signals::Signal;
use crate::text::{
    lines, split_lines, text_eq, texts, trim, trim_end, trim_text, trim_text_end, views,
};
use vstd::prelude::*;
use vstd::utf8::encode_utf8;

verus! {

/// How long processes are given to end, in milliseconds.
pub const TERMINATION_GRACE: u64 = 2000;

/// How often the processes are looked at while they are made to end.
pub const SWEEP_ROUNDS: u8 = 20;

/// A process that descends from this one, and the child that it descends from.
#[derive(Debug, Clone, Copy, PartialEq, Eq, Structural)]
pub struct Descendant {
    pub pid: i32,
    pub subtree: i32,
}

/// The number of a process as the system takes it.
pub fn track(pid: u32) -> (r: Option<i32>)
    ensures
        r is Some <==> pid <= i32::MAX,
        r matches Some(p) ==> p == pid,
{
    if pid <= 0x7fff_ffff {
        Some(pid as i32)
    } else {
        None
    }
}

/// The subtree of the first entry for a process.
pub open spec fn subtree_of(descendants: Seq<Descendant>, pid: i32, from: int) -> Option<i32>
    decreases descendants.len() - from,
{
    if from >= descendants.len() {
        None
    } else if descendants[from].pid == pid {
        Some(descendants[from].subtree)
    } else {
        subtree_of(descendants, pid, from + 1)
    }
}

/// The subtree that a process belongs to.
pub fn subtree_for_descendant(descendants: &[Descendant], pid: i32) -> (r: Option<i32>)
    ensures
        r == subtree_of(descendants@, pid, 0),
{
    let mut i: usize = 0;
    while i < descendants.len()
        invariant
            i <= descendants@.len(),
            subtree_of(descendants@, pid, 0) == subtree_of(descendants@, pid, i as int),
        decreases descendants@.len() - i,
    {
        if descendants[i].pid == pid {
            return Some(descendants[i].subtree);
        }
        i += 1;
    }
    None
}

/// Whether the root of a subtree still runs; then the subtree is not an orphan.
pub fn subtree_root_runs(descendants: &[Descendant], subtree: i32) -> (r: bool)
    ensures
        r == exists|i: int| 0 <= i < descendants@.len() && (#[trigger] descendants@[i]).pid
            == subtree,
{
    let mut i: usize = 0;
    while i < descendants.len()
        invariant
            i <= descendants@.len(),
            forall|j: int| 0 <= j < i ==> (#[trigger] descendants@[j]).pid != subtree,
        decreases descendants@.len() - i,
    {
        if descendants[i].pid == subtree {
            return true;
        }
        i += 1;
    }
    false
}

/// The processes of a subtree.
pub open spec fn pids_in(descendants: Seq<Descendant>, subtree: i32) -> Seq<i32>
    decreases descendants.len(),
{
    if descendants.len() == 0 {
        Seq::empty()
    } else {
        let before = pids_in(descendants.drop_last(), subtree);
        if descendants.last().subtree == subtree {
            before.push(descendants.last().pid)
        } else {
            before
        }
    }
}

/// The processes of a subtree.
pub fn subtree_pids(descendants: &[Descendant], subtree: i32) -> (r: Vec<i32>)
    ensures
        r@ == pids_in(descendants@, subtree),
{
    let mut out: Vec<i32> = Vec::new();
    let mut i: usize = 0;
    assert(out@ =~= pids_in(descendants@.take(0), subtree));
    while i < descendants.len()
        invariant
            i <= descendants@.len(),
            out@ == pids_in(descendants@.take(i as int), subtree),
        decreases descendants@.len() - i,
    {
        proof {
            let next = descendants@.take(i + 1);
            assert(next.drop_last() =~= descendants@.take(i as int));
            assert(next.last() == descendants@[i as int]);
        }
        if descendants[i].subtree == subtree {
            out.push(descendants[i].pid);
        }
        i += 1;
    }
    assert(descendants@.take(i as int) =~= descendants@);
    out
}

/// Whether a process of a subtree is waited for when the subtree is looked at; the one that the
/// launcher itself waits for may be left to it.
pub fn is_reaped(pid: i32, subtree: i32, reap_tracked_child: bool) -> (r: bool)
    ensures
        r == (reap_tracked_child || pid != subtree),
{
    reap_tracked_child || pid != subtree
}

/// How the wait for a program stands: what is known of its end, and the signal that it is being
/// sent, until when.
#[derive(Debug, Clone, Copy)]
pub struct ExitWait {
    pub status: Option<i32>,
    pub termination: Option<(Signal, u64)>,
}

/// What is done in the wait for a program.
#[derive(Debug, Clone, Copy, PartialEq, Eq, Structural)]
pub enum WaitAction {
    Ended(i32),
    EndedWithoutStatus,
    Pause,
    SignalAndPause(Signal),
    SignalAndGiveUp(Signal),
}

/// What is seen of a program: how it ended, if it has; whether processes of its subtree are left;
/// whether it is asked to end; and the time.
#[derive(Debug, Clone, Copy, PartialEq, Eq, Structural)]
pub struct Sighting {
    pub status: Option<i32>,
    pub processes_remain: bool,
    pub requested: Option<Signal>,
    pub now: u64,
}

pub open spec fn seen_status(wait: ExitWait, seen: Sighting) -> Option<i32> {
    if wait.status is Some {
        wait.status
    } else {
        seen.status
    }
}

pub open spec fn seen_termination(wait: ExitWait, seen: Sighting) -> Option<(Signal, u64)> {
    if wait.termination is Some {
        wait.termination
    } else {
        match seen.requested {
            Some(signal) => Some((signal, (seen.now + TERMINATION_GRACE) as u64)),
            None => None,
        }
    }
}

/// How the wait stands after a look at the program, and what is done. A program that outlives the
/// time it is given is killed.
pub open spec fn wait_next(wait: ExitWait, seen: Sighting) -> (ExitWait, WaitAction) {
    let status = seen_status(wait, seen);
    if !seen.processes_remain {
        (
            ExitWait { status, termination: wait.termination },
            match status {
                Some(code) => WaitAction::Ended(code),
                None => WaitAction::EndedWithoutStatus,
            },
        )
    } else {
        match seen_termination(wait, seen) {
            None => (ExitWait { status, termination: None }, WaitAction::Pause),
            Some((signal, deadline)) => if seen.now < deadline {
                (
                    ExitWait { status, termination: Some((signal, deadline)) },
                    WaitAction::SignalAndPause(signal),
                )
            } else if signal == Signal::Kill {
                (
                    ExitWait { status, termination: Some((signal, deadline)) },
                    WaitAction::SignalAndGiveUp(signal),
                )
            } else {
                (
                    ExitWait {
                        status,
                        termination: Some(
                            (Signal::Kill, (seen.now + TERMINATION_GRACE) as u64),
                        ),
                    },
                    WaitAction::SignalAndPause(signal),
                )
            },
        }
    }
}

/// One look at a program that is waited for.
pub fn wait_for_exit_with_signal(wait: ExitWait, seen: Sighting) -> (r: (ExitWait, WaitAction))
    requires
        seen.now + TERMINATION_GRACE <= u64::MAX,
    ensures
        r == wait_next(wait, seen),
{
    let status = match wait.status {
        Some(code) => Some(code),
        None => seen.status,
    };
    if !seen.processes_remain {
        let action = match status {
            Some(code) => WaitAction::Ended(code),
            None => WaitAction::EndedWithoutStatus,
        };
        return (ExitWait { status, termination: wait.termination }, action);
    }
    let termination = match wait.termination {
        Some(t) => Some(t),
        None => match seen.requested {
            Some(signal) => Some((signal, seen.now + TERMINATION_GRACE)),
            None => None,
        },
    };
    match termination {
        None => (ExitWait { status, termination: None }, WaitAction::Pause),
        Some((signal, deadline)) => {
            if seen.now < deadline {
                return (
                    ExitWait { status, termination: Some((signal, deadline)) },
                    WaitAction::SignalAndPause(signal),
                );
            }
            match signal {
                Signal::Kill => (
                    ExitWait { status, termination: Some((signal, deadline)) },
                    WaitAction::SignalAndGiveUp(signal),
                ),
                _ => (
                    ExitWait {
                        status,
                        termination: Some((Signal::Kill, seen.now + TERMINATION_GRACE)),
                    },
                    WaitAction::SignalAndPause(signal),
                ),
            }
        },
    }
}

/// A program is reported as ended only when no process of it is left; it is not killed before the
/// time that it was given is over, unless it was asked to be.
pub proof fn lemma_wait_is_patient(wait: ExitWait, seen: Sighting)
    requires
        seen.now + TERMINATION_GRACE <= u64::MAX,
    ensures
        wait_next(wait, seen).1 is Ended ==> !seen.processes_remain,
        wait_next(wait, seen).0.termination matches Some((signal, _)) && signal == Signal::Kill
            ==> (wait.termination matches Some((before, deadline)) && (before == Signal::Kill
            || seen.now >= deadline)) || seen.requested == Some(Signal::Kill),
        wait_next(wait, seen).1 is SignalAndGiveUp ==> (wait.termination matches Some(
            (before, deadline),
        ) && before == Signal::Kill && seen.now >= deadline),
{
}

/// How the ending of a subtree stands: the signal that is being sent, and until when.
#[derive(Debug, Clone, Copy, PartialEq, Eq, Structural)]
pub struct Termination {
    pub signal: Signal,
    pub deadline: u64,
    pub last: bool,
}

/// What is done to end a subtree.
#[derive(Debug, Clone, Copy, PartialEq, Eq, Structural)]
pub enum TerminationAction {
    Ended,
    SignalAndPause(Signal),
    /// Send the signal, and look again at once.
    SignalAndLook(Signal),
    SignalAndGiveUp(Signal),
}

pub open spec fn termination_next(t: Termination, remain: bool, now: u64) -> (
    Termination,
    TerminationAction,
) {
    if !remain {
        (t, TerminationAction::Ended)
    } else if now < t.deadline {
        (t, TerminationAction::SignalAndPause(t.signal))
    } else if t.last {
        (t, TerminationAction::SignalAndGiveUp(t.signal))
    } else {
        (
            Termination {
                signal: Signal::Kill,
                deadline: (now + TERMINATION_GRACE) as u64,
                last: true,
            },
            TerminationAction::SignalAndLook(t.signal),
        )
    }
}

/// One look at a subtree that is being ended: it is sent the signal, and killed if it outlives
/// the time it is given.
pub fn terminate_with_signal_mode(t: Termination, remain: bool, now: u64) -> (r: (
    Termination,
    TerminationAction,
))
    requires
        now + TERMINATION_GRACE <= u64::MAX,
    ensures
        r == termination_next(t, remain, now),
{
    if !remain {
        (t, TerminationAction::Ended)
    } else if now < t.deadline {
        (t, TerminationAction::SignalAndPause(t.signal))
    } else if t.last {
        (t, TerminationAction::SignalAndGiveUp(t.signal))
    } else {
        (
            Termination { signal: Signal::Kill, deadline: now + TERMINATION_GRACE, last: true },
            TerminationAction::SignalAndLook(t.signal),
        )
    }
}

/// How the sweep of processes that must end stands.
#[derive(Debug, Clone, Copy, PartialEq, Eq, Structural)]
pub enum Sweep {
    /// So many rounds are left with the signal.
    Sending { signal: Signal, left: u8 },
    LastLook,
}

/// What is done about the processes that are left.
#[derive(Debug, Clone, Copy, PartialEq, Eq, Structural)]
pub enum SweepAction {
    Gone,
    /// Send each of them the signal, wait a moment and look again.
    SignalAll(Signal),
    Survived,
}

pub open spec fn sweep_next(sweep: Sweep, any_left: bool) -> (Sweep, SweepAction) {
    if !any_left {
        (sweep, SweepAction::Gone)
    } else {
        match sweep {
            Sweep::LastLook => (Sweep::LastLook, SweepAction::Survived),
            Sweep::Sending { signal, left } => (
                if left > 1 {
                    Sweep::Sending { signal, left: (left - 1) as u8 }
                } else if signal == Signal::Kill {
                    Sweep::LastLook
                } else {
                    Sweep::Sending { signal: Signal::Kill, left: SWEEP_ROUNDS }
                },
                SweepAction::SignalAll(signal),
            ),
        }
    }
}

/// The sweep before the first look.
pub fn start_sweep() -> (r: Sweep)
    ensures
        r == (Sweep::Sending { signal: Signal::Terminate, left: SWEEP_ROUNDS }),
{
    Sweep::Sending { signal: Signal::Terminate, left: SWEEP_ROUNDS }
}

/// One look at the processes that must end.
pub fn terminate_processes_with(sweep: Sweep, any_left: bool) -> (r: (Sweep, SweepAction))
    ensures
        r == sweep_next(sweep, any_left),
{
    if !any_left {
        return (sweep, SweepAction::Gone);
    }
    match sweep {
        Sweep::LastLook => (Sweep::LastLook, SweepAction::Survived),
        Sweep::Sending { signal, left } => {
            let next = if left > 1 {
                Sweep::Sending { signal, left: left - 1 }
            } else {
                match signal {
                    Signal::Kill => Sweep::LastLook,
                    _ => Sweep::Sending { signal: Signal::Kill, left: SWEEP_ROUNDS },
                }
            };
            (next, SweepAction::SignalAll(signal))
        },
    }
}

/// The state of a sweep after `n` looks that found processes.
pub open spec fn sweep_after(n: nat) -> Sweep
    decreases n,
{
    if n == 0 {
        Sweep::Sending { signal: Signal::Terminate, left: SWEEP_ROUNDS }
    } else {
        sweep_next(sweep_after((n - 1) as nat), true).0
    }
}

/// A sweep asks all processes to end in twenty rounds, kills them in twenty more, and then gives
/// up.
pub proof fn lemma_sweep_rounds(n: nat)
    ensures
        n < 20 ==> sweep_after(n) == (Sweep::Sending {
            signal: Signal::Terminate,
            left: (20 - n) as u8,
        }),
        20 <= n < 40 ==> sweep_after(n) == (Sweep::Sending {
            signal: Signal::Kill,
            left: (40 - n) as u8,
        }),
        n >= 40 ==> sweep_after(n) == Sweep::LastLook,
    decreases n,
{
    if n > 0 {
        lemma_sweep_rounds((n - 1) as nat);
    }
}

/// What came of asking a launcher to stop its sandbox.
#[derive(Debug, Clone, Copy, PartialEq, Eq, Structural)]
pub enum ForceStopResult {
    Signaled,
    Exited,
    Stale,
}

/// What the system says when it is asked about a launcher, or to signal it.
#[derive(Debug, Clone, Copy, PartialEq, Eq, Structural)]
pub enum LauncherReply {
    /// It is there; for a question, whether it reaps the processes of a sandbox.
    Present { reaper: bool },
    Gone,
    Failed,
}

/// What is done next to stop a launcher's sandbox.
#[derive(Debug, Clone, Copy, PartialEq, Eq, Structural)]
pub enum ForceStopStep {
    Inspect,
    CheckIdentityAgain,
    Signal,
    Finished(ForceStopResult),
    Failed,
}

/// What is done next, from what is known so far: whether the process is the launcher that was
/// meant, what the system says of it, whether it still is that launcher, and what came of the
/// signal.
pub open spec fn force_stop_next(
    matches: bool,
    status: Option<LauncherReply>,
    still_matches: Option<bool>,
    delivery: Option<LauncherReply>,
) -> ForceStopStep {
    if !matches {
        ForceStopStep::Finished(ForceStopResult::Stale)
    } else {
        match status {
            None => ForceStopStep::Inspect,
            Some(LauncherReply::Gone) => ForceStopStep::Finished(ForceStopResult::Exited),
            Some(LauncherReply::Failed) => ForceStopStep::Failed,
            Some(LauncherReply::Present { reaper }) => if !reaper {
                ForceStopStep::Finished(ForceStopResult::Stale)
            } else {
                match still_matches {
                    None => ForceStopStep::CheckIdentityAgain,
                    Some(false) => ForceStopStep::Finished(ForceStopResult::Exited),
                    Some(true) => match delivery {
                        None => ForceStopStep::Signal,
                        Some(LauncherReply::Gone) => ForceStopStep::Finished(
                            ForceStopResult::Exited,
                        ),
                        Some(LauncherReply::Failed) => ForceStopStep::Failed,
                        Some(LauncherReply::Present { .. }) => ForceStopStep::Finished(
                            ForceStopResult::Signaled,
                        ),
                    },
                }
            },
        }
    }
}

/// What is done next to stop a launcher's sandbox.
pub fn force_stop_launcher(
    matches: bool,
    status: Option<LauncherReply>,
    still_matches: Option<bool>,
    delivery: Option<LauncherReply>,
) -> (r: ForceStopStep)
    ensures
        r == force_stop_next(matches, status, still_matches, delivery),
{
    if !matches {
        return ForceStopStep::Finished(ForceStopResult::Stale);
    }
    match status {
        None => ForceStopStep::Inspect,
        Some(LauncherReply::Gone) => ForceStopStep::Finished(ForceStopResult::Exited),
        Some(LauncherReply::Failed) => ForceStopStep::Failed,
        Some(LauncherReply::Present { reaper }) => {
            if !reaper {
                return ForceStopStep::Finished(ForceStopResult::Stale);
            }
            match still_matches {
                None => ForceStopStep::CheckIdentityAgain,
                Some(still) => {
                    if !still {
                        return ForceStopStep::Finished(ForceStopResult::Exited);
                    }
                    match delivery {
                        None => ForceStopStep::Signal,
                        Some(LauncherReply::Gone) => ForceStopStep::Finished(
                            ForceStopResult::Exited,
                        ),
                        Some(LauncherReply::Failed) => ForceStopStep::Failed,
                        Some(LauncherReply::Present { .. }) => ForceStopStep::Finished(
                            ForceStopResult::Signaled,
                        ),
                    }
                },
            }
        },
    }
}

/// No process is signalled that was not twice found to be the launcher that was meant.
pub proof fn lemma_only_the_launcher_is_signalled(
    matches: bool,
    status: Option<LauncherReply>,
    still_matches: Option<bool>,
    delivery: Option<LauncherReply>,
)
    ensures
        force_stop_next(matches, status, still_matches, delivery) == ForceStopStep::Signal ==> matches
            && still_matches == Some(true) && status == Some(
            LauncherReply::Present { reaper: true },
        ),
{
}

/// Where the columns of a listing of open files are.
#[derive(Debug, Clone, Copy, PartialEq, Eq, Structural)]
pub struct ProcstatLayout {
    pub pid_end: usize,
    pub fd_start: usize,
    pub fd_end: usize,
    pub name_start: usize,
}

/// Where the columns are, from the first line of a listing.
pub open spec fn layout_of(header: Seq<u8>) -> Option<(int, int, int, int)> {
    match (
        first_match(header, encode_utf8(" COMM"@), 0),
        first_match(header, encode_utf8(" T V FLAGS"@), 0),
        first_match(header, encode_utf8("NAME"@), 0),
    ) {
        (Some(pid_end), Some(fd_end), Some(name_start)) => if fd_end >= 4 {
            Some((pid_end, fd_end - 4, fd_end, name_start))
        } else {
            None
        },
        _ => None,
    }
}

/// What a line of a listing says: the process, the descriptor and the path.
pub open spec fn reference_of(
    layout: (int, int, int, int),
    line: Seq<u8>,
) -> Option<(int, Seq<char>, Seq<char>)> {
    match (
        text_between(line, 0, layout.0),
        text_between(line, layout.1, layout.2),
        text_between(line, layout.3, line.len() as int),
    ) {
        (Some(pid), Some(fd), Some(path)) => match i32_value(trim(pid)) {
            Some(n) => Some((n, trim(fd), trim_end(path))),
            None => None,
        },
        _ => None,
    }
}

/// Whether a descriptor ties a process to a directory.
pub open spec fn ties(fd: Seq<char>) -> bool {
    fd == "cwd"@ || fd == "root"@ || fd == "jail"@
}

/// The processes and the directories that the lines tie them to.
pub open spec fn references_in(layout: (int, int, int, int), ls: Seq<Seq<char>>) -> Seq<
    (int, Seq<char>),
>
    decreases ls.len(),
{
    if ls.len() == 0 {
        Seq::empty()
    } else {
        let before = references_in(layout, ls.drop_last());
        match reference_of(layout, encode_utf8(ls.last())) {
            Some((pid, fd, path)) => if ties(fd) {
                before.push((pid, path))
            } else {
                before
            },
            None => before,
        }
    }
}

/// The processes and the directories that a listing ties them to.
pub open spec fn listing_references(text: Seq<char>) -> Seq<(int, Seq<char>)> {
    let ls = lines(text);
    if ls.len() == 0 {
        Seq::empty()
    } else {
        match layout_of(encode_utf8(ls[0])) {
            Some(layout) => references_in(layout, ls.skip(1)),
            None => Seq::empty(),
        }
    }
}

/// A process that is tied to a directory.
#[derive(Debug)]
pub struct ProcessReference {
    pub pid: i32,
    pub path: FsPath,
}

impl View for ProcessReference {
    type V = (int, Seq<char>);

    open spec fn view(&self) -> (int, Seq<char>) {
        (self.pid as int, self.path@)
    }
}

/// The directories that the processes of the system are tied to.
#[derive(Debug)]
pub struct SandboxProcessSnapshot {
    pub references: Vec<ProcessReference>,
}

impl ProcstatLayout {
    pub open spec fn columns(&self) -> (int, int, int, int) {
        (self.pid_end as int, self.fd_start as int, self.fd_end as int, self.name_start as int)
    }

    /// Where the columns are, from the first line of a listing.
    pub fn from_header(header: &str) -> (r: Option<ProcstatLayout>)
        ensures
            r is Some <==> layout_of(encode_utf8(header@)) is Some,
            r matches Some(layout) ==> layout_of(encode_utf8(header@)) == Some(layout.columns()),
    {
        let bytes = header.as_bytes();
        let comm = text_bytes(" COMM");
        let flags = text_bytes(" T V FLAGS");
        let name = text_bytes("NAME");
        match (
            find_bytes(bytes, comm.as_slice()),
            find_bytes(bytes, flags.as_slice()),
            find_bytes(bytes, name.as_slice()),
        ) {
            (Some(pid_end), Some(fd_end), Some(name_start)) => if fd_end >= 4 {
                Some(ProcstatLayout { pid_end, fd_start: fd_end - 4, fd_end, name_start })
            } else {
                None
            },
            _ => None,
        }
    }

    fn reference(&self, line: &str) -> (r: Option<(i32, String, FsPath)>)
        ensures
            r is Some <==> reference_of(self.columns(), encode_utf8(line@)) is Some,
            r matches Some(p) ==> reference_of(self.columns(), encode_utf8(line@)) == Some(
                (p.0 as int, p.1@, p.2@),
            ),
    {
        let bytes = line.as_bytes();
        match (
            text_at(bytes, 0, self.pid_end),
            text_at(bytes, self.fd_start, self.fd_end),
            text_at(bytes, self.name_start, bytes.len()),
        ) {
            (Some(pid_text), Some(fd), Some(path)) => {
                let trimmed = trim_text(&pid_text);
                match parse_i32(&trimmed) {
                    Some(pid) => Some((pid, trim_text(&fd), FsPath { text: trim_text_end(&path) })),
                    None => None,
                }
            },
            _ => None,
        }
    }
}

/// Whether the process is tied to a directory in one of the roots.
pub open spec fn tied_to_any(
    references: Seq<(int, Seq<char>)>,
    roots: Seq<Seq<char>>,
    pid: int,
) -> bool {
    exists|i: int, j: int|
        0 <= i < references.len() && 0 <= j < roots.len() && (#[trigger] references[i]).0 == pid
            && within(references[i].1, #[trigger] roots[j])
}

/// Whether each number is larger than the one before.
pub open spec fn increasing(v: Seq<i32>) -> bool {
    forall|i: int, j: int| 0 <= i < j < v.len() ==> v[i] < v[j]
}

impl SandboxProcessSnapshot {
    /// Reads a listing of the open files of all processes.
    pub fn parse(text: &str) -> (r: SandboxProcessSnapshot)
        ensures
            views(r.references@) == listing_references(text@),
    {
        let ls = split_lines(text);
        let ghost all = texts(ls@);
        let mut references: Vec<ProcessReference> = Vec::new();
        assert(views(references@) =~= Seq::<(int, Seq<char>)>::empty());
        assert(all.len() == ls@.len());
        if ls.len() == 0 {
            return SandboxProcessSnapshot { references };
        }
        assert(all[0] == ls@[0]@);
        let layout = match ProcstatLayout::from_header(&ls[0]) {
            Some(layout) => layout,
            None => {
                return SandboxProcessSnapshot { references };
            },
        };
        let ghost rest = all.skip(1);
        let mut i: usize = 1;
        assert(rest.take(0) =~= Seq::<Seq<char>>::empty());
        while i < ls.len()
            invariant
                1 <= i <= ls@.len(),
                all == texts(ls@),
                rest == all.skip(1),
                views(references@) == references_in(layout.columns(), rest.take(i - 1)),
            decreases ls@.len() - i,
        {
            proof {
                let next = rest.take(i as int);
                assert(next.drop_last() =~= rest.take(i - 1));
                assert(next.last() == ls@[i as int]@);
            }
            if let Some((pid, fd, path)) = layout.reference(&ls[i]) {
                if text_eq(&fd, "cwd") || text_eq(&fd, "root") || text_eq(&fd, "jail") {
                    let reference = ProcessReference { pid, path };
                    proof {
                        crate::text::lemma_views_push(references@, reference);
                    }
                    references.push(reference);
                }
            }
            i += 1;
        }
        assert(rest.take(i - 1) =~= rest);
        SandboxProcessSnapshot { references }
    }

    /// Whether a process is tied to a directory in the root.
    pub fn references_root(&self, root: &FsPath) -> (r: bool)
        ensures
            r == exists|i: int|
                0 <= i < self.references@.len() && within(
                    (#[trigger] self.references@[i]).path@,
                    root@,
                ),
    {
        let mut i: usize = 0;
        while i < self.references.len()
            invariant
                i <= self.references@.len(),
                forall|j: int|
                    0 <= j < i ==> !within((#[trigger] self.references@[j]).path@, root@),
            decreases self.references@.len() - i,
        {
            if self.references[i].path.starts_with(root) {
                return true;
            }
            i += 1;
        }
        false
    }

    /// The processes that are tied to a directory in one of the roots, each once, in order.
    pub fn pids_referencing_roots(&self, roots: &[FsPath]) -> (r: Vec<i32>)
        ensures
            increasing(r@),
            forall|pid: i32| #[trigger]
                r@.contains(pid) <==> tied_to_any(
                    views(self.references@),
                    crate::path::path_texts(roots@),
                    pid as int,
                ),
    {
        let ghost refs = views(self.references@);
        let ghost all = crate::path::path_texts(roots@);
        let mut out: Vec<i32> = Vec::new();
        let mut i: usize = 0;
        while i < self.references.len()
            invariant
                i <= self.references@.len(),
                refs == views(self.references@),
                all == crate::path::path_texts(roots@),
                increasing(out@),
                forall|pid: i32| #[trigger]
                    out@.contains(pid) <==> tied_to_any(refs.take(i as int), all, pid as int),
            decreases self.references@.len() - i,
        {
            let ghost before = out@;
            let tied = self.is_tied(i, roots);
            let pid: i32 = self.references[i].pid;
            proof {
                assert(refs[i as int] == self.references@[i as int]@);
                lemma_tied_step(refs, all, i as int);
            }
            if tied {
                insert_pid(&mut out, pid);
            }
            i += 1;
        }
        assert(refs.take(i as int) =~= refs);
        out
    }

    fn is_tied(&self, i: usize, roots: &[FsPath]) -> (r: bool)
        requires
            i < self.references@.len(),
        ensures
            r == exists|j: int|
                0 <= j < roots@.len() && within(
                    self.references@[i as int].path@,
                    #[trigger] crate::path::path_texts(roots@)[j],
                ),
    {
        let ghost all = crate::path::path_texts(roots@);
        let mut k: usize = 0;
        while k < roots.len()
            invariant
                k <= roots@.len(),
                i < self.references@.len(),
                all == crate::path::path_texts(roots@),
                forall|j: int|
                    0 <= j < k ==> !within(self.references@[i as int].path@, #[trigger] all[j]),
            decreases roots@.len() - k,
        {
            assert(all[k as int] == roots@[k as int]@);
            if self.references[i].path.starts_with(&roots[k]) {
                return true;
            }
            k += 1;
        }
        false
    }

    /// The processes that are tied to a directory in the root, each once, in order.
    pub fn pids_referencing_root(&self, root: &FsPath) -> (r: Vec<i32>)
        ensures
            increasing(r@),
            forall|pid: i32| #[trigger]
                r@.contains(pid) <==> tied_to_any(
                    views(self.references@),
                    seq![root@],
                    pid as int,
                ),
    {
        let mut roots: Vec<FsPath> = Vec::new();
        roots.push(root.clone());
        assert(crate::path::path_texts(roots@) =~= seq![root@]);
        self.pids_referencing_roots(roots.as_slice())
    }
}

/// One reference more ties its process where it lies in one of the roots.
proof fn lemma_tied_step(references: Seq<(int, Seq<char>)>, roots: Seq<Seq<char>>, i: int)
    requires
        0 <= i < references.len(),
    ensures
        forall|pid: int| #[trigger]
            tied_to_any(references.take(i + 1), roots, pid) <==> tied_to_any(
                references.take(i),
                roots,
                pid,
            ) || (references[i].0 == pid && exists|j: int|
                0 <= j < roots.len() && within(references[i].1, #[trigger] roots[j])),
{
    let (now, before) = (references.take(i + 1), references.take(i));
    assert forall|pid: int| #[trigger] tied_to_any(now, roots, pid) <==> tied_to_any(
        before,
        roots,
        pid,
    ) || (references[i].0 == pid && exists|j: int|
        0 <= j < roots.len() && within(references[i].1, #[trigger] roots[j])) by {
        if tied_to_any(now, roots, pid) {
            let (a, b) = choose|a: int, b: int|
                0 <= a < now.len() && 0 <= b < roots.len() && (#[trigger] now[a]).0 == pid
                    && within(now[a].1, #[trigger] roots[b]);
            if a < i {
                assert(before[a] == now[a]);
                assert(before[a].0 == pid && within(before[a].1, roots[b]));
            } else {
                assert(now[a] == references[i]);
                assert(within(references[i].1, roots[b]));
            }
        }
        if tied_to_any(before, roots, pid) {
            let (a, b) = choose|a: int, b: int|
                0 <= a < before.len() && 0 <= b < roots.len() && (#[trigger] before[a]).0 == pid
                    && within(before[a].1, #[trigger] roots[b]);
            assert(now[a] == before[a]);
            assert(now[a].0 == pid && within(now[a].1, roots[b]));
        }
        if references[i].0 == pid && exists|j: int|
            0 <= j < roots.len() && within(references[i].1, #[trigger] roots[j]) {
            let b = choose|j: int|
                0 <= j < roots.len() && within(references[i].1, #[trigger] roots[j]);
            assert(now[i] == references[i]);
            assert(now[i].0 == pid && within(now[i].1, roots[b]));
        }
    }
}

/// Puts a number in its place, unless it is there.
fn insert_pid(pids: &mut Vec<i32>, pid: i32)
    requires
        increasing(old(pids)@),
    ensures
        increasing(final(pids)@),
        forall|p: i32| #[trigger] final(pids)@.contains(p) <==> old(pids)@.contains(p) || p == pid,
{
    let ghost before = pids@;
    let mut i: usize = 0;
    while i < pids.len() && pids[i] < pid
        invariant
            i <= pids@.len(),
            pids@ == before,
            forall|j: int| 0 <= j < i ==> pids@[j] < pid,
        decreases pids@.len() - i,
    {
        i += 1;
    }
    if i < pids.len() && pids[i] == pid {
        assert(before.contains(before[i as int]));
        return;
    }
    pids.insert(i, pid);
    proof {
        let after = pids@;
        assert forall|a: int, b: int| 0 <= a < b < after.len() implies after[a] < after[b] by {
            let x = if a < i { a } else { a - 1 };
            let y = if b < i { b } else { b - 1 };
            if a != i && b != i {
                assert(after[a] == before[x] && after[b] == before[y]);
            } else if a == i {
                assert(after[b] == before[y]);
                assert(before[i as int] > pid);
                if y > i {
                    assert(before[i as int] < before[y]);
                }
            } else {
                assert(after[a] == before[x]);
            }
        }
        assert forall|p: i32| #[trigger] after.contains(p) <==> before.contains(p) || p
            == pid by {
            if before.contains(p) {
                let j = choose|j: int| 0 <= j < before.len() && before[j] == p;
                let k = if j < i { j } else { j + 1 };
                assert(after[k] == p);
            }
            assert(after[i as int] == pid);
            if after.contains(p) && p != pid {
                let k = choose|k: int| 0 <= k < after.len() && after[k] == p;
                let j = if k < i { k } else { k - 1 };
                assert(before[j] == p);
            }
        }
    }
}

pub open spec fn is_other(pid: i32, own: i32) -> bool {
    pid != own
}

/// The processes without the launcher's own.
pub open spec fn others(pids: Seq<i32>, own: i32) -> Seq<i32> {
    crate::text::selected(pids, |pid: i32| is_other(pid, own))
}

/// The processes without the launcher's own.
pub fn without_own(pids: Vec<i32>, own: i32) -> (r: Vec<i32>)
    ensures
        r@ == others(pids@, own),
{
    let ghost keep = |pid: i32| is_other(pid, own);
    let mut out: Vec<i32> = Vec::new();
    let mut i: usize = 0;
    assert(out@ =~= crate::text::selected(pids@.take(0), keep));
    while i < pids.len()
        invariant
            i <= pids@.len(),
            keep == (|pid: i32| is_other(pid, own)),
            out@ == crate::text::selected(pids@.take(i as int), keep),
        decreases pids@.len() - i,
    {
        proof {
            assert(pids@.take(i + 1).drop_last() =~= pids@.take(i as int));
            assert(pids@.take(i + 1).last() == pids@[i as int]);
        }
        if pids[i] != own {
            out.push(pids[i]);
        }
        i += 1;
    }
    assert(pids@.take(i as int) =~= pids@);
    out
}

} // verus!
