//! The conversation of the spawn broker with the portal of a sandbox.

use crate::numbers::{be_at, be_bytes, be_value, push_be};
use crate::process_signals::Signal;
use crate::spawn_protocol::{
    frame_of, header, packet, parse_frame, FD_OK, FD_TEST, LIFECYCLE_TEST_ACCEPTED,
    LIFECYCLE_TEST_EXITED, LIFECYCLE_TEST_START, PING, PONG, SPAWN, SPAWN_ACCEPTED, SPAWN_EXITED,
    SPAWN_STARTED, SPAWN_TERMINATE,
};
use vstd::prelude::*;

verus! {

/// A message as it is sent.
pub open spec fn message(kind: u16, request: u32, payload: Seq<u8>) -> Seq<u8> {
    header(kind, request, payload.len() as u32, 0) + payload
}

/// What the first packet of a connection asks for.
#[derive(Debug, Clone, Copy, PartialEq, Eq, Structural)]
pub enum Opening {
    Nothing,
    Ping { request: u32 },
    DescriptorTest { request: u32 },
    LifecycleTest { request: u32 },
    Spawn { request: u32 },
}

/// What a packet that came with so many descriptors asks for.
pub open spec fn opening(bytes: Seq<u8>, fds: int) -> Opening {
    match frame_of(bytes) {
        None => Opening::Nothing,
        Some((kind, request, _, _)) => if kind == PING && fds == 0 {
            Opening::Ping { request }
        } else if kind == FD_TEST && fds == 1 {
            Opening::DescriptorTest { request }
        } else if kind == LIFECYCLE_TEST_START && fds == 0 {
            Opening::LifecycleTest { request }
        } else if kind == SPAWN {
            Opening::Spawn { request }
        } else {
            Opening::Nothing
        },
    }
}

/// What a packet that came with so many descriptors asks for.
pub fn open_connection(bytes: &[u8], fds: usize) -> (r: Opening)
    ensures
        r == opening(bytes@, fds as int),
{
    match parse_frame(bytes) {
        None => Opening::Nothing,
        Some((kind, request, _, _)) => if kind == PING && fds == 0 {
            Opening::Ping { request }
        } else if kind == FD_TEST && fds == 1 {
            Opening::DescriptorTest { request }
        } else if kind == LIFECYCLE_TEST_START && fds == 0 {
            Opening::LifecycleTest { request }
        } else if kind == SPAWN {
            Opening::Spawn { request }
        } else {
            Opening::Nothing
        },
    }
}

/// The answer to a ping.
pub fn pong(request: u32) -> (r: Vec<u8>)
    ensures
        r@ == message(PONG, request, Seq::empty()),
{
    let none: Vec<u8> = Vec::new();
    assert(none@ =~= Seq::<u8>::empty());
    packet(PONG, request, none.as_slice())
}

/// The answer to a test of passing descriptors: the descriptor must give the byte `F`.
pub fn descriptor_test_answer(request: u32, byte: Option<u8>) -> (r: Option<Vec<u8>>)
    ensures
        r is Some <==> byte == Some(0x46u8),
        r matches Some(bytes) ==> bytes@ == message(FD_OK, request, Seq::empty()),
{
    match byte {
        Some(b) => if b == 0x46 {
            let none: Vec<u8> = Vec::new();
            assert(none@ =~= Seq::<u8>::empty());
            Some(packet(FD_OK, request, none.as_slice()))
        } else {
            None
        },
        None => None,
    }
}

/// The first answer to a test of a conversation.
pub fn lifecycle_accepted(request: u32) -> (r: Vec<u8>)
    ensures
        r@ == message(LIFECYCLE_TEST_ACCEPTED, request, be_bytes(request)),
{
    let mut payload: Vec<u8> = Vec::new();
    push_be(&mut payload, request);
    assert(payload@ =~= be_bytes(request));
    packet(LIFECYCLE_TEST_ACCEPTED, request, payload.as_slice())
}

/// The second answer to a test of a conversation.
pub fn lifecycle_exited(request: u32) -> (r: Vec<u8>)
    ensures
        r@ == message(LIFECYCLE_TEST_EXITED, request, be_bytes(request) + be_bytes(0)),
{
    packet(LIFECYCLE_TEST_EXITED, request, two_numbers(request, 0).as_slice())
}

/// How often a test of a conversation looks whether the broker stops.
pub const LIFECYCLE_LOOKS: u8 = 50;

/// What a test of a conversation does after its first answer was sent.
#[derive(Debug, Clone, Copy, PartialEq, Eq, Structural)]
pub enum LifecycleStep {
    /// It looks again after a millisecond.
    Wait,
    /// It sends the second answer, and ends.
    Send,
    /// It ends.
    Close,
}

/// What a test of a conversation does once it has waited `looks` times and sees whether the
/// broker stops: the second answer is sent only by a broker that goes on.
pub fn lifecycle_step(looks: u8, stopping: bool) -> (r: LifecycleStep)
    ensures
        r == (if stopping {
            LifecycleStep::Close
        } else if looks < LIFECYCLE_LOOKS {
            LifecycleStep::Wait
        } else {
            LifecycleStep::Send
        }),
{
    if stopping {
        LifecycleStep::Close
    } else if looks < LIFECYCLE_LOOKS {
        LifecycleStep::Wait
    } else {
        LifecycleStep::Send
    }
}

fn two_numbers(a: u32, b: u32) -> (r: Vec<u8>)
    ensures
        r@ == be_bytes(a) + be_bytes(b),
{
    let mut payload: Vec<u8> = Vec::new();
    push_be(&mut payload, a);
    push_be(&mut payload, b);
    assert(payload@ =~= be_bytes(a) + be_bytes(b));
    payload
}

/// The payload that tells of a start: the process as the host and as the sandbox knows it.
pub fn spawn_started_payload(pid: u32, relative_pid: u32) -> (r: Vec<u8>)
    ensures
        r@ == be_bytes(pid) + be_bytes(relative_pid),
{
    two_numbers(pid, relative_pid)
}

/// The process as the sandbox is told of it: none unless it may know.
pub fn spawn_started_relative_pid(expose_pids: bool, started_pid: u32) -> (r: u32)
    ensures
        r == (if expose_pids {
            started_pid
        } else {
            0
        }),
{
    if expose_pids {
        started_pid
    } else {
        0
    }
}

/// The process that has reported itself started, from the four bytes that it wrote; none where it
/// wrote fewer or no process.
pub fn wait_for_spawn_started(bytes: &[u8]) -> (r: Option<u32>)
    ensures
        r is Some <==> bytes@.len() == 4 && be_value(bytes@) != 0,
        r matches Some(pid) ==> pid == be_value(bytes@),
{
    if bytes.len() != 4 {
        return None;
    }
    assert(bytes@.subrange(0, 4) =~= bytes@);
    let pid: u32 = be_at(bytes, 0);
    if pid == 0 {
        None
    } else {
        Some(pid)
    }
}

/// What is known of the other end of a connection on which a program was started.
#[derive(Debug)]
pub enum BusState {
    /// Nothing has come.
    Quiet,
    /// It was closed or is broken.
    Gone,
    /// A packet came, with so many descriptors.
    Packet(Vec<u8>, usize),
}

/// Whether a packet asks for the program of the request to be ended.
pub open spec fn asks_termination(bytes: Seq<u8>, fds: int, request: u32) -> bool {
    frame_of(bytes) == Some((SPAWN_TERMINATE, request, 0usize, 0u32)) && fds == 0
}

/// Whether the program of a request is to be ended: the portal says so, or is gone.
pub fn watch_bus_termination_requested(state: &BusState, request: u32) -> (r: bool)
    ensures
        r == (match state {
            BusState::Quiet => false,
            BusState::Gone => true,
            BusState::Packet(bytes, fds) => asks_termination(bytes@, *fds as int, request),
        }),
{
    match state {
        BusState::Quiet => false,
        BusState::Gone => true,
        BusState::Packet(bytes, fds) => match parse_frame(bytes.as_slice()) {
            Some((kind, asked, length, named)) => kind == SPAWN_TERMINATE && asked == request
                && length == 0 && named == 0 && *fds == 0,
            None => false,
        },
    }
}

/// The signal that ends a program, if it is to be ended.
pub fn spawn_termination_signal(
    requested: bool,
    watch_bus: bool,
    broker_stopping: bool,
) -> (r: Option<Signal>)
    ensures
        r == (if broker_stopping {
            Some(Signal::Terminate)
        } else if watch_bus && requested {
            Some(Signal::Interrupt)
        } else {
            None
        }),
{
    if broker_stopping {
        Some(Signal::Terminate)
    } else if watch_bus && requested {
        Some(Signal::Interrupt)
    } else {
        None
    }
}

/// Why a program that is bound to its caller has no caller.
#[derive(Debug)]
pub enum WatchBusError<E> {
    NoProcessId,
    NoSubtree(u32),
    Unresolved(E),
}

/// The subtree of processes that the caller of a request belongs to, where the program is bound
/// to its caller.
pub fn resolve_watch_bus_owner<T, E, F: FnOnce(u32) -> Result<Option<T>, E>>(
    watch_bus: bool,
    caller_pid: u32,
    resolve: F,
) -> (r: Result<Option<T>, WatchBusError<E>>)
    requires
        watch_bus && caller_pid != 0 ==> resolve.requires((caller_pid,)),
    ensures
        !watch_bus ==> r == Ok::<Option<T>, WatchBusError<E>>(None),
        watch_bus && caller_pid == 0 ==> r == Err::<Option<T>, WatchBusError<E>>(
            WatchBusError::NoProcessId,
        ),
        watch_bus && caller_pid != 0 ==> exists|answer: Result<Option<T>, E>|
            #![trigger resolve.ensures((caller_pid,), answer)]
            resolve.ensures((caller_pid,), answer) && match answer {
                Ok(Some(owner)) => r == Ok::<Option<T>, WatchBusError<E>>(Some(owner)),
                Ok(None) => r == Err::<Option<T>, WatchBusError<E>>(
                    WatchBusError::NoSubtree(caller_pid),
                ),
                Err(e) => r == Err::<Option<T>, WatchBusError<E>>(WatchBusError::Unresolved(e)),
            },
{
    if !watch_bus {
        return Ok(None);
    }
    if caller_pid == 0 {
        return Err(WatchBusError::NoProcessId);
    }
    match resolve(caller_pid) {
        Ok(Some(owner)) => Ok(Some(owner)),
        Ok(None) => Err(WatchBusError::NoSubtree(caller_pid)),
        Err(e) => Err(WatchBusError::Unresolved(e)),
    }
}

/// What came of ending the processes of a caller that is gone.
#[derive(Debug, Clone, Copy, PartialEq, Eq, Structural)]
pub enum OwnerCleanup {
    NoSubtree,
    Finished(bool),
    Failed,
}

/// Whether nothing is left to be done for a caller that is gone.
pub fn cleanup_exited_watch_bus_owner(outcome: OwnerCleanup) -> (r: bool)
    ensures
        r == (match outcome {
            OwnerCleanup::NoSubtree => true,
            OwnerCleanup::Finished(cleaned) => cleaned,
            OwnerCleanup::Failed => true,
        }),
{
    match outcome {
        OwnerCleanup::NoSubtree => true,
        OwnerCleanup::Finished(cleaned) => cleaned,
        OwnerCleanup::Failed => true,
    }
}

/// What does not change while a request to start a program is served.
#[derive(Debug, Clone, Copy, PartialEq, Eq, Structural)]
pub struct ServedRequest {
    pub request: u32,
    pub watch_bus: bool,
    pub expose_pids: bool,
}

/// Where the service of a request stands.
#[derive(Debug, Clone, Copy, PartialEq, Eq, Structural)]
pub enum Stage {
    ResolvingOwner,
    Launching,
    Tracking { pid: u32, notify: bool },
    Accepting { pid: u32, notify: bool },
    AwaitingStart { pid: u32 },
    Starting { pid: u32 },
    Running { pid: u32 },
    Reporting { triggered: bool },
    Watching { triggered: bool },
    CleaningOwner,
    Ending,
    Closed,
}

/// What the service learns.
#[derive(Debug, Clone, Copy, PartialEq, Eq, Structural)]
pub enum ServiceEvent {
    /// What was to be done is done.
    Done,
    /// What was to be done failed.
    Failed,
    /// The program runs, and says when it has started if it was asked to.
    Launched { pid: u32, notify: bool },
    /// What the program has reported of its start.
    Started { reported: Option<u32> },
    /// The program has ended, or could not be waited for; its portal may have asked for that.
    Exited { status: Option<u32>, triggered: bool },
    /// What is known of the broker and of the other end.
    Polled { stopping: bool, requested: bool },
    /// Whether nothing is left to be done for the caller.
    Cleaned(bool),
}

/// What is done next.
#[derive(Debug)]
pub enum ServiceAction {
    ResolveOwner,
    Launch,
    Track { pid: u32 },
    /// Send the bytes.
    Send(Vec<u8>),
    AwaitStart,
    AwaitExit,
    /// Kill the program and wait for it.
    KillChild,
    /// End the program and all that it started.
    EndTree,
    PollBus,
    /// Wait a moment, then look again.
    PollLater,
    CleanOwner,
    Close,
}

pub ghost enum ServiceActionView {
    ResolveOwner,
    Launch,
    Track(u32),
    Send(Seq<u8>),
    AwaitStart,
    AwaitExit,
    KillChild,
    EndTree,
    PollBus,
    PollLater,
    CleanOwner,
    Close,
}

impl View for ServiceAction {
    type V = ServiceActionView;

    open spec fn view(&self) -> ServiceActionView {
        match self {
            ServiceAction::ResolveOwner => ServiceActionView::ResolveOwner,
            ServiceAction::Launch => ServiceActionView::Launch,
            ServiceAction::Track { pid } => ServiceActionView::Track(*pid),
            ServiceAction::Send(bytes) => ServiceActionView::Send(bytes@),
            ServiceAction::AwaitStart => ServiceActionView::AwaitStart,
            ServiceAction::AwaitExit => ServiceActionView::AwaitExit,
            ServiceAction::KillChild => ServiceActionView::KillChild,
            ServiceAction::EndTree => ServiceActionView::EndTree,
            ServiceAction::PollBus => ServiceActionView::PollBus,
            ServiceAction::PollLater => ServiceActionView::PollLater,
            ServiceAction::CleanOwner => ServiceActionView::CleanOwner,
            ServiceAction::Close => ServiceActionView::Close,
        }
    }
}

/// What follows the end of a program: the portal may be watched until its caller is gone.
pub open spec fn after_exit(served: ServedRequest, triggered: bool) -> (Stage, ServiceActionView) {
    if served.watch_bus {
        (Stage::Watching { triggered }, ServiceActionView::PollBus)
    } else {
        (Stage::Closed, ServiceActionView::Close)
    }
}

/// Where the service of a request stands after an event, and what is done next.
pub open spec fn served(
    setup: ServedRequest,
    stage: Stage,
    event: ServiceEvent,
) -> (Stage, ServiceActionView) {
    match (stage, event) {
        (Stage::ResolvingOwner, ServiceEvent::Done) => (
            Stage::Launching,
            ServiceActionView::Launch,
        ),
        (Stage::Launching, ServiceEvent::Launched { pid, notify }) => (
            Stage::Tracking { pid, notify },
            ServiceActionView::Track(pid),
        ),
        (Stage::Tracking { pid, notify }, ServiceEvent::Done) => (
            Stage::Accepting { pid, notify },
            ServiceActionView::Send(message(SPAWN_ACCEPTED, setup.request, be_bytes(pid))),
        ),
        (Stage::Tracking { .. }, _) => (Stage::Ending, ServiceActionView::KillChild),
        (Stage::Accepting { pid, notify }, ServiceEvent::Done) => if notify {
            (Stage::AwaitingStart { pid }, ServiceActionView::AwaitStart)
        } else {
            (Stage::Running { pid }, ServiceActionView::AwaitExit)
        },
        (Stage::Accepting { .. }, _) => (Stage::Ending, ServiceActionView::EndTree),
        (Stage::AwaitingStart { pid }, ServiceEvent::Started { reported }) => (
            Stage::Starting { pid },
            ServiceActionView::Send(
                message(
                    SPAWN_STARTED,
                    setup.request,
                    be_bytes(pid) + be_bytes(
                        match reported {
                            Some(p) => if setup.expose_pids {
                                p
                            } else {
                                0
                            },
                            None => 0,
                        },
                    ),
                ),
            ),
        ),
        (Stage::Starting { pid }, ServiceEvent::Done) => (
            Stage::Running { pid },
            ServiceActionView::AwaitExit,
        ),
        (Stage::Starting { .. }, _) => (Stage::Ending, ServiceActionView::EndTree),
        (Stage::Running { pid }, ServiceEvent::Exited { status, triggered }) => match status {
            Some(code) => (
                Stage::Reporting { triggered },
                ServiceActionView::Send(
                    message(SPAWN_EXITED, setup.request, be_bytes(pid) + be_bytes(code)),
                ),
            ),
            None => after_exit(setup, triggered),
        },
        (Stage::Reporting { triggered }, _) => after_exit(setup, triggered),
        (Stage::Watching { triggered }, ServiceEvent::Polled { stopping, requested }) => if stopping {
            (Stage::Closed, ServiceActionView::Close)
        } else if triggered || requested {
            (Stage::CleaningOwner, ServiceActionView::CleanOwner)
        } else {
            (Stage::Watching { triggered: false }, ServiceActionView::PollLater)
        },
        (Stage::CleaningOwner, ServiceEvent::Cleaned(false)) => (
            Stage::Watching { triggered: true },
            ServiceActionView::PollLater,
        ),
        (_, _) => (Stage::Closed, ServiceActionView::Close),
    }
}

fn finish_or_watch(setup: ServedRequest, triggered: bool) -> (r: (Stage, ServiceAction))
    ensures
        (r.0, r.1@) == after_exit(setup, triggered),
{
    if setup.watch_bus {
        (Stage::Watching { triggered }, ServiceAction::PollBus)
    } else {
        (Stage::Closed, ServiceAction::Close)
    }
}

/// One step of serving a request to start a program.
pub fn handle_connection(setup: ServedRequest, stage: Stage, event: ServiceEvent) -> (r: (
    Stage,
    ServiceAction,
))
    ensures
        (r.0, r.1@) == served(setup, stage, event),
{
    match (stage, event) {
        (Stage::ResolvingOwner, ServiceEvent::Done) => (Stage::Launching, ServiceAction::Launch),
        (Stage::Launching, ServiceEvent::Launched { pid, notify }) => (
            Stage::Tracking { pid, notify },
            ServiceAction::Track { pid },
        ),
        (Stage::Tracking { pid, notify }, ServiceEvent::Done) => {
            let mut payload: Vec<u8> = Vec::new();
            push_be(&mut payload, pid);
            assert(payload@ =~= be_bytes(pid));
            (
                Stage::Accepting { pid, notify },
                ServiceAction::Send(packet(SPAWN_ACCEPTED, setup.request, payload.as_slice())),
            )
        },
        (Stage::Tracking { .. }, _) => (Stage::Ending, ServiceAction::KillChild),
        (Stage::Accepting { pid, notify }, ServiceEvent::Done) => if notify {
            (Stage::AwaitingStart { pid }, ServiceAction::AwaitStart)
        } else {
            (Stage::Running { pid }, ServiceAction::AwaitExit)
        },
        (Stage::Accepting { .. }, _) => (Stage::Ending, ServiceAction::EndTree),
        (Stage::AwaitingStart { pid }, ServiceEvent::Started { reported }) => {
            let relative: u32 = match reported {
                Some(p) => spawn_started_relative_pid(setup.expose_pids, p),
                None => 0,
            };
            let payload = spawn_started_payload(pid, relative);
            (
                Stage::Starting { pid },
                ServiceAction::Send(packet(SPAWN_STARTED, setup.request, payload.as_slice())),
            )
        },
        (Stage::Starting { pid }, ServiceEvent::Done) => (
            Stage::Running { pid },
            ServiceAction::AwaitExit,
        ),
        (Stage::Starting { .. }, _) => (Stage::Ending, ServiceAction::EndTree),
        (Stage::Running { pid }, ServiceEvent::Exited { status, triggered }) => match status {
            Some(code) => {
                let payload = two_numbers(pid, code);
                (
                    Stage::Reporting { triggered },
                    ServiceAction::Send(packet(SPAWN_EXITED, setup.request, payload.as_slice())),
                )
            },
            None => finish_or_watch(setup, triggered),
        },
        (Stage::Reporting { triggered }, _) => finish_or_watch(setup, triggered),
        (Stage::Watching { triggered }, ServiceEvent::Polled { stopping, requested }) => {
            if stopping {
                (Stage::Closed, ServiceAction::Close)
            } else if triggered || requested {
                (Stage::CleaningOwner, ServiceAction::CleanOwner)
            } else {
                (Stage::Watching { triggered: false }, ServiceAction::PollLater)
            }
        },
        (Stage::CleaningOwner, ServiceEvent::Cleaned(cleaned)) => if cleaned {
            (Stage::Closed, ServiceAction::Close)
        } else {
            (Stage::Watching { triggered: true }, ServiceAction::PollLater)
        },
        _ => (Stage::Closed, ServiceAction::Close),
    }
}

/// Where the service of a request stands after the events.
pub open spec fn service_run(setup: ServedRequest, events: Seq<ServiceEvent>) -> Stage
    decreases events.len(),
{
    if events.len() == 0 {
        Stage::ResolvingOwner
    } else {
        served(setup, service_run(setup, events.drop_last()), events.last()).0
    }
}

/// The process that a stage speaks of.
pub open spec fn stage_pid(stage: Stage) -> Option<u32> {
    match stage {
        Stage::Tracking { pid, .. } => Some(pid),
        Stage::Accepting { pid, .. } => Some(pid),
        Stage::AwaitingStart { pid } => Some(pid),
        Stage::Starting { pid } => Some(pid),
        Stage::Running { pid } => Some(pid),
        _ => None,
    }
}

/// Every process that the portal is told of is the one that was launched; it is told of its start
/// and of its end only after it was told that the request is accepted; and a connection that was
/// closed stays closed.
pub proof fn lemma_service_order(setup: ServedRequest, events: Seq<ServiceEvent>)
    ensures
        service_run(setup, events) == Stage::ResolvingOwner ==> events.len() == 0,
        service_run(setup, events) == Stage::Launching ==> events.len() == 1 && events[0]
            == ServiceEvent::Done,
        stage_pid(service_run(setup, events)) matches Some(pid) ==> events.len() >= 2
            && (events[1] matches ServiceEvent::Launched { pid: p, .. } && p == pid),
        service_run(setup, events) is AwaitingStart || service_run(setup, events) is Starting
            || service_run(setup, events) is Running ==> events.len() >= 4 && events[2]
            == ServiceEvent::Done && events[3] == ServiceEvent::Done,
        service_run(setup, events) is Accepting ==> events.len() == 3 && events[2]
            == ServiceEvent::Done,
        service_run(setup, events) is Tracking ==> events.len() == 2,
    decreases events.len(),
{
    if events.len() > 0 {
        let head = events.drop_last();
        lemma_service_order(setup, head);
        assert(forall|i: int| 0 <= i < head.len() ==> head[i] == events[i]);
    }
}

/// A connection that was closed stays closed.
pub proof fn lemma_closed_stays_closed(setup: ServedRequest, event: ServiceEvent)
    ensures
        served(setup, Stage::Closed, event) == (Stage::Closed, ServiceActionView::Close),
        served(setup, Stage::Ending, event) == (Stage::Closed, ServiceActionView::Close),
{
}

/// The first place of a number from `from` on.
pub open spec fn first_at(numbers: Seq<i32>, number: i32, from: int) -> Option<int>
    decreases numbers.len() - from,
{
    if from >= numbers.len() {
        None
    } else if numbers[from] == number {
        Some(from)
    } else {
        first_at(numbers, number, from + 1)
    }
}

/// The descriptors without the first that is the given one; the last one takes its place.
pub open spec fn released(retained: Seq<i32>, fd: i32) -> Seq<i32> {
    match first_at(retained, fd, 0) {
        Some(i) => retained.update(i, retained.last()).drop_last(),
        None => retained,
    }
}

proof fn lemma_first_at(numbers: Seq<i32>, number: i32, from: int)
    requires
        0 <= from,
    ensures
        match first_at(numbers, number, from) {
            Some(i) => from <= i < numbers.len() && numbers[i] == number,
            None => forall|i: int| from <= i < numbers.len() ==> numbers[i] != number,
        },
    decreases numbers.len() - from,
{
    if from < numbers.len() && numbers[from] != number {
        lemma_first_at(numbers, number, from + 1);
    }
}

/// Releasing a descriptor that is kept takes just that one away, and releasing one that is not
/// kept takes none.
pub proof fn lemma_released(retained: Seq<i32>, fd: i32)
    ensures
        retained.contains(fd) ==> released(retained, fd).to_multiset()
            == retained.to_multiset().remove(fd),
        !retained.contains(fd) ==> released(retained, fd) == retained,
{
    broadcast use vstd::seq_lib::group_to_multiset_ensures;

    lemma_first_at(retained, fd, 0);
    if let Some(i) = first_at(retained, fd, 0) {
        let moved = retained.update(i, retained.last());
        assert(retained.contains(retained[i]));
        vstd::seq_lib::to_multiset_update(retained, i, retained.last());
        vstd::seq_lib::to_multiset_remove(moved, moved.len() - 1);
        assert(moved.remove(moved.len() - 1) =~= moved.drop_last());
        assert(moved.drop_last().to_multiset() =~= retained.to_multiset().remove(fd));
    }
}

/// The connections of a broker.
#[derive(Debug)]
pub struct BrokerConnections {
    pub stopping: bool,
    pub retained: Vec<i32>,
}

impl BrokerConnections {
    pub fn new() -> (r: BrokerConnections)
        ensures
            !r.stopping,
            r.retained@ == Seq::<i32>::empty(),
    {
        let retained: Vec<i32> = Vec::new();
        assert(retained@ =~= Seq::<i32>::empty());
        BrokerConnections { stopping: false, retained }
    }

    /// Keeps the descriptor of a connection.
    pub fn retain(&mut self, fd: i32)
        ensures
            final(self).stopping == old(self).stopping,
            final(self).retained@ == old(self).retained@.push(fd),
    {
        self.retained.push(fd);
    }

    /// Gives the descriptor of a connection up, once. The last one takes its place.
    pub fn release(&mut self, fd: i32)
        ensures
            final(self).stopping == old(self).stopping,
            final(self).retained@ == released(old(self).retained@, fd),
    {
        let mut i: usize = 0;
        while i < self.retained.len()
            invariant
                i <= self.retained@.len(),
                *self == *old(self),
                first_at(self.retained@, fd, 0) == first_at(self.retained@, fd, i as int),
            decreases self.retained@.len() - i,
        {
            if self.retained[i] == fd {
                let _ = self.retained.swap_remove(i);
                return;
            }
            i += 1;
        }
    }

    /// Lets no new connection in; the result are the connections to be shut down.
    pub fn stop(&mut self) -> (r: Vec<i32>)
        ensures
            final(self).stopping,
            final(self).retained@ == old(self).retained@,
            r@ == old(self).retained@,
    {
        self.stopping = true;
        let mut out: Vec<i32> = Vec::new();
        out.extend_from_slice(self.retained.as_slice());
        assert(out@ =~= self.retained@);
        out
    }
}

/// A connection is let in only while the broker runs, and only from the user that it serves.
pub fn admits(
    stopping: bool,
    peer_uid: u32,
    peer_gid: u32,
    expected_uid: u32,
    expected_gid: u32,
) -> (r: bool)
    ensures
        r == (!stopping && peer_uid == expected_uid && peer_gid == expected_gid),
{
    !stopping && peer_uid == expected_uid && peer_gid == expected_gid
}

} // verus!
