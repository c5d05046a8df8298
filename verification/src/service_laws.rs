//! What goes over the connection of a broker, byte by byte, and when a program that was started for
//! it is ended.

use crate::broker_connection::{
    asks_termination, message, opening, served, service_run, Opening, ServedRequest, ServiceActionView,
    ServiceEvent, Stage,
};
use crate::numbers::{be16_bytes, be16_value, be_bytes, be_value};
use crate::spawn_protocol::{frame_of, header, lemma_frame_round_trip, SPAWN_ACCEPTED, SPAWN_EXITED,
    SPAWN_STARTED,
};
use vstd::prelude::*;

verus! {

/// The number that four bytes from a place on are, the greatest first.
pub open spec fn four_bytes(bytes: Seq<u8>, at: int) -> int {
    bytes[at] * 16777216 + bytes[at + 1] * 65536 + bytes[at + 2] * 256 + bytes[at + 3]
}

/// The number that two bytes from a place on are, the greater first.
pub open spec fn two_bytes(bytes: Seq<u8>, at: int) -> int {
    bytes[at] * 256 + bytes[at + 1]
}

proof fn lemma_four(bytes: Seq<u8>, at: int)
    requires
        0 <= at <= bytes.len() - 4,
    ensures
        be_value(bytes.subrange(at, at + 4)) == four_bytes(bytes, at),
{
    let part = bytes.subrange(at, at + 4);
    assert(part[0] == bytes[at] && part[1] == bytes[at + 1] && part[2] == bytes[at + 2] && part[3]
        == bytes[at + 3]);
}

proof fn lemma_two(bytes: Seq<u8>, at: int)
    requires
        0 <= at <= bytes.len() - 2,
    ensures
        be16_value(bytes.subrange(at, at + 2)) == two_bytes(bytes, at),
{
    let part = bytes.subrange(at, at + 2);
    assert(part[0] == bytes[at] && part[1] == bytes[at + 1]);
}

/// A packet is one of the protocol if and only if it begins with the letters `FSBP` and the version
/// one, and then holds as many bytes behind its first twenty as it says, four thousand and ninety-six
/// at most. The kind of the message, the request, the length and the number of descriptors follow
/// each other, each with its greatest byte first.
pub proof fn lemma_packets_byte_by_byte(packet: Seq<u8>)
    ensures
        frame_of(packet) is Some <==> {
            &&& packet.len() >= 20
            &&& packet[0] == 0x46
            &&& packet[1] == 0x53
            &&& packet[2] == 0x42
            &&& packet[3] == 0x50
            &&& packet[4] == 0
            &&& packet[5] == 1
            &&& four_bytes(packet, 12) <= 4096
            &&& packet.len() == 20 + four_bytes(packet, 12)
        },
        frame_of(packet) matches Some((kind, request, length, fds)) ==> {
            &&& kind == two_bytes(packet, 6)
            &&& request == four_bytes(packet, 8)
            &&& length == four_bytes(packet, 12)
            &&& fds == four_bytes(packet, 16)
        },
{
    if packet.len() >= 20 {
        lemma_four(packet, 0);
        lemma_two(packet, 4);
        lemma_two(packet, 6);
        lemma_four(packet, 8);
        lemma_four(packet, 12);
        lemma_four(packet, 16);
    }
}

/// A number is sent with its greatest byte first.
pub proof fn lemma_numbers_byte_by_byte(n: u32, small: u16)
    ensures
        be_bytes(n).len() == 4,
        four_bytes(be_bytes(n), 0) == n,
        be16_bytes(small).len() == 2,
        two_bytes(be16_bytes(small), 0) == small,
{
}

/// What a connection asks for goes by the kind of its first packet, and for the tests by the
/// descriptors that came with it too.
pub proof fn lemma_what_is_asked_for(packet: Seq<u8>, fds: int, request: u32)
    ensures
        frame_of(packet) is None ==> opening(packet, fds) == Opening::Nothing,
        frame_of(packet) is Some ==> {
            let kind = two_bytes(packet, 6);
            let asked = opening(packet, fds);
            &&& asked == (Opening::Ping { request }) <==> kind == 1 && fds == 0 && request
                == four_bytes(packet, 8)
            &&& asked == (Opening::DescriptorTest { request }) <==> kind == 3 && fds == 1 && request
                == four_bytes(packet, 8)
            &&& asked == (Opening::LifecycleTest { request }) <==> kind == 5 && fds == 0 && request
                == four_bytes(packet, 8)
            &&& asked == (Opening::Spawn { request }) <==> kind == 8 && request == four_bytes(
                packet,
                8,
            )
        },
        asks_termination(packet, fds, request) <==> {
            &&& frame_of(packet) is Some
            &&& packet.len() == 20
            &&& two_bytes(packet, 6) == 11
            &&& four_bytes(packet, 8) == request
            &&& four_bytes(packet, 16) == 0
            &&& fds == 0
        },
{
    lemma_packets_byte_by_byte(packet);
}

/// Whether the bytes tell the portal of a request: a message of the kind, with the numbers.
pub open spec fn tells(bytes: Seq<u8>, kind: int, request: u32, numbers: Seq<u32>) -> bool {
    &&& frame_of(bytes) is Some
    &&& two_bytes(bytes, 6) == kind
    &&& four_bytes(bytes, 8) == request
    &&& four_bytes(bytes, 16) == 0
    &&& bytes.len() == 20 + 4 * numbers.len()
    &&& forall|i: int| 0 <= i < numbers.len() ==> #[trigger] numbers[i] == four_bytes(bytes, 20 + 4 * i)
}

proof fn lemma_one_number(kind: u16, request: u32, a: u32)
    ensures
        tells(message(kind, request, be_bytes(a)), kind as int, request, seq![a]),
{
    let payload = be_bytes(a);
    let bytes = message(kind, request, payload);
    lemma_frame_round_trip(kind, request, payload, 0);
    lemma_packets_byte_by_byte(bytes);
    lemma_numbers_byte_by_byte(a, 0);
    let head = header(kind, request, 4, 0);
    assert(bytes =~= head + payload);
    assert(bytes[20] == payload[0] && bytes[21] == payload[1] && bytes[22] == payload[2]
        && bytes[23] == payload[3]);
}

proof fn lemma_two_numbers(kind: u16, request: u32, a: u32, b: u32)
    ensures
        tells(
            message(kind, request, be_bytes(a) + be_bytes(b)),
            kind as int,
            request,
            seq![a, b],
        ),
{
    let payload = be_bytes(a) + be_bytes(b);
    let bytes = message(kind, request, payload);
    lemma_frame_round_trip(kind, request, payload, 0);
    lemma_packets_byte_by_byte(bytes);
    lemma_numbers_byte_by_byte(a, 0);
    lemma_numbers_byte_by_byte(b, 0);
    let (x, y) = (be_bytes(a), be_bytes(b));
    let head = header(kind, request, 8, 0);
    assert(bytes =~= head + payload);
    assert(bytes[20] == x[0] && bytes[21] == x[1] && bytes[22] == x[2] && bytes[23] == x[3]);
    assert(bytes[24] == y[0] && bytes[25] == y[1] && bytes[26] == y[2] && bytes[27] == y[3]);
    let numbers = seq![a, b];
    assert forall|i: int| 0 <= i < numbers.len() implies #[trigger] numbers[i] == four_bytes(
        bytes,
        20 + 4 * i,
    ) by {
        assert(i == 0 || i == 1);
    }
}

/// The portal is told three things of a program: that its request was accepted, once the process is
/// known; that it has started, where it was asked for; and how it ended, where that is known. The
/// number that the program has in its own sandbox is told only where it may be known.
pub proof fn lemma_what_the_portal_is_told(setup: ServedRequest, stage: Stage, event: ServiceEvent)
    ensures
        served(setup, stage, event).1 matches ServiceActionView::Send(bytes) ==> {
            ||| stage matches Stage::Tracking { pid, notify } && event == ServiceEvent::Done && tells(
                bytes,
                9,
                setup.request,
                seq![pid],
            )
            ||| stage matches Stage::AwaitingStart { pid } && event matches ServiceEvent::Started {
                reported,
            } && tells(
                bytes,
                12,
                setup.request,
                seq![
                    pid,
                    if setup.expose_pids && reported is Some {
                        reported->0
                    } else {
                        0
                    },
                ],
            )
            ||| stage matches Stage::Running { pid } && event matches ServiceEvent::Exited {
                status,
                triggered,
            } && status is Some && tells(bytes, 10, setup.request, seq![pid, status->0])
        },
        stage is Tracking && event == ServiceEvent::Done ==> served(setup, stage, event).1 is Send,
        stage is AwaitingStart && event is Started ==> served(setup, stage, event).1 is Send,
        stage is Running && (event matches ServiceEvent::Exited { status, triggered } && status is Some)
            ==> served(setup, stage, event).1 is Send,
{
    match (stage, event) {
        (Stage::Tracking { pid, notify }, ServiceEvent::Done) => {
            lemma_one_number(SPAWN_ACCEPTED, setup.request, pid);
        },
        (Stage::AwaitingStart { pid }, ServiceEvent::Started { reported }) => {
            let told = if setup.expose_pids && reported is Some {
                reported->0
            } else {
                0
            };
            lemma_two_numbers(SPAWN_STARTED, setup.request, pid, told);
        },
        (Stage::Running { pid }, ServiceEvent::Exited { status, triggered }) => {
            if status is Some {
                lemma_two_numbers(SPAWN_EXITED, setup.request, pid, status->0);
            }
        },
        _ => {},
    }
}

/// Nothing is launched before the caller is known, and nothing goes on after that fails; and a
/// program that runs is not left alone: where the broker cannot keep track of it, it is killed, and
/// where the portal cannot be told of it, it is ended with all that it started.
pub proof fn lemma_failed_services_leave_nothing(
    setup: ServedRequest,
    stage: Stage,
    event: ServiceEvent,
)
    ensures
        served(setup, stage, event).1 == ServiceActionView::Launch <==> stage
            == Stage::ResolvingOwner && event == ServiceEvent::Done,
        stage is Tracking && event != ServiceEvent::Done <==> served(setup, stage, event).1
            == ServiceActionView::KillChild,
        (stage is Accepting || stage is Starting) && event != ServiceEvent::Done <==> served(
            setup,
            stage,
            event,
        ).1 == ServiceActionView::EndTree,
        (stage is ResolvingOwner || stage is Launching) && event == ServiceEvent::Failed ==> served(
            setup,
            stage,
            event,
        ) == (Stage::Closed, ServiceActionView::Close),
        served(setup, stage, event).1 matches ServiceActionView::Track(pid) ==> stage
            == Stage::Launching && (event matches ServiceEvent::Launched { pid: p, notify }
            && p == pid),
{
}

/// The caller of a program is looked after only where the program is bound to it.
pub proof fn lemma_only_bound_callers_are_watched(setup: ServedRequest, events: Seq<ServiceEvent>)
    ensures
        service_run(setup, events) is Watching || service_run(setup, events) is CleaningOwner
            ==> setup.watch_bus,
    decreases events.len(),
{
    if events.len() > 0 {
        lemma_only_bound_callers_are_watched(setup, events.drop_last());
    }
}

/// Once a program that is bound to its caller has ended, what the caller started is ended as soon as
/// that is asked for, by the portal at any time, and this is tried until nothing is left to be done
/// or the broker stops.
pub proof fn lemma_callers_are_cleaned_up(
    setup: ServedRequest,
    triggered: bool,
    stopping: bool,
    requested: bool,
)
    requires
        setup.watch_bus,
    ensures
        served(
            setup,
            Stage::Reporting { triggered },
            ServiceEvent::Done,
        ) == (Stage::Watching { triggered }, ServiceActionView::PollBus),
        served(
            setup,
            Stage::Watching { triggered },
            ServiceEvent::Polled { stopping, requested },
        ).1 == (if stopping {
            ServiceActionView::Close
        } else if triggered || requested {
            ServiceActionView::CleanOwner
        } else {
            ServiceActionView::PollLater
        }),
        served(
            setup,
            served(setup, Stage::CleaningOwner, ServiceEvent::Cleaned(false)).0,
            ServiceEvent::Polled { stopping: false, requested },
        ).1 == ServiceActionView::CleanOwner,
        served(setup, Stage::CleaningOwner, ServiceEvent::Cleaned(true)) == (
            Stage::Closed,
            ServiceActionView::Close,
        ),
{
}

} // verus!
