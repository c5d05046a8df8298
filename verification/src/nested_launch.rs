//! What passes between the launch client and the daemon that starts nested sandboxes.

use crate::bytes::{byte_views, contains_byte, lemma_byte_views_push, push_bytes, slice_bytes};
use crate::launch_request::{MAX_ARGUMENTS, MAX_ENVIRONMENT};
use crate::numbers::{be_at, be_bytes, be_value, lemma_be_round_trip, push_be};
use vstd::prelude::*;

verus! {

pub const MAX_NESTED_PACKET: usize = 65_536;

pub const NESTED_MAGIC: u32 = 0x4653_4C4A;

/// What is wrong with a request between client and daemon.
#[derive(Debug, Clone, Copy, PartialEq, Eq, Structural)]
pub enum NestedError {
    TruncatedRequest,
    InvalidRequest,
    InvalidCount,
    TruncatedArgument,
    InvalidArgument,
    TrailingData,
    TooLarge,
}

impl NestedError {
    pub fn message(self) -> (r: &'static str)
        ensures
            r@ == (match self {
                NestedError::TruncatedRequest => "truncated nested request"@,
                NestedError::InvalidRequest => "invalid nested request"@,
                NestedError::InvalidCount => "invalid nested argument count"@,
                NestedError::TruncatedArgument => "truncated nested argument"@,
                NestedError::InvalidArgument => "invalid nested argument"@,
                NestedError::TrailingData => "trailing nested request data"@,
                NestedError::TooLarge => "nested request too large"@,
            }),
    {
        match self {
            NestedError::TruncatedRequest => "truncated nested request",
            NestedError::InvalidRequest => "invalid nested request",
            NestedError::InvalidCount => "invalid nested argument count",
            NestedError::TruncatedArgument => "truncated nested argument",
            NestedError::InvalidArgument => "invalid nested argument",
            NestedError::TrailingData => "trailing nested request data",
            NestedError::TooLarge => "nested request too large",
        }
    }
}

/// Whether an argument can be sent.
pub open spec fn can_send(arg: Seq<u8>) -> bool {
    !arg.contains(0) && arg.len() <= u32::MAX
}

/// An argument after its length.
pub open spec fn piece(arg: Seq<u8>) -> Seq<u8> {
    be_bytes(arg.len() as u32) + arg
}

/// The arguments, each after its length.
pub open spec fn pieces(args: Seq<Seq<u8>>) -> Seq<u8>
    decreases args.len(),
{
    if args.len() == 0 {
        Seq::empty()
    } else {
        pieces(args.drop_last()) + piece(args.last())
    }
}

/// The packet that holds the arguments.
pub open spec fn packet(args: Seq<Seq<u8>>) -> Seq<u8> {
    be_bytes(NESTED_MAGIC) + be_bytes(args.len() as u32) + pieces(args)
}

/// The arguments in a packet from `at` on, and where they end.
pub open spec fn arguments_at(bytes: Seq<u8>, at: int, count: int) -> Result<
    (Seq<Seq<u8>>, int),
    NestedError,
>
    decreases count,
{
    if count <= 0 {
        Ok((Seq::empty(), at))
    } else if at + 4 > bytes.len() {
        Err(NestedError::TruncatedRequest)
    } else {
        let end = at + 4 + be_value(bytes.subrange(at, at + 4));
        if end > bytes.len() {
            Err(NestedError::TruncatedArgument)
        } else {
            let arg = bytes.subrange(at + 4, end);
            if arg.contains(0) {
                Err(NestedError::InvalidArgument)
            } else {
                match arguments_at(bytes, end, count - 1) {
                    Err(e) => Err(e),
                    Ok((rest, last)) => Ok((seq![arg] + rest, last)),
                }
            }
        }
    }
}

/// The arguments that a packet holds, or the first thing that is wrong with it.
pub open spec fn packet_arguments(bytes: Seq<u8>) -> Result<Seq<Seq<u8>>, NestedError> {
    if bytes.len() < 4 {
        Err(NestedError::TruncatedRequest)
    } else if be_value(bytes.subrange(0, 4)) != NESTED_MAGIC {
        Err(NestedError::InvalidRequest)
    } else if bytes.len() < 8 {
        Err(NestedError::TruncatedRequest)
    } else {
        let count = be_value(bytes.subrange(4, 8));
        if count == 0 || count > MAX_ARGUMENTS + MAX_ENVIRONMENT + 16 {
            Err(NestedError::InvalidCount)
        } else {
            match arguments_at(bytes, 8, count as int) {
                Err(e) => Err(e),
                Ok((args, end)) => if end != bytes.len() {
                    Err(NestedError::TrailingData)
                } else {
                    Ok(args)
                },
            }
        }
    }
}

pub open spec fn all_can_be_sent(args: Seq<Seq<u8>>) -> bool {
    forall|i: int| 0 <= i < args.len() ==> can_send(#[trigger] args[i])
}

/// Writes the packet that holds the arguments.
pub fn nested_payload(args: &[Vec<u8>]) -> (r: Result<Vec<u8>, NestedError>)
    ensures
        if !all_can_be_sent(byte_views(args@)) {
            r == Err::<Vec<u8>, NestedError>(NestedError::InvalidArgument)
        } else if packet(byte_views(args@)).len() > MAX_NESTED_PACKET {
            r == Err::<Vec<u8>, NestedError>(NestedError::TooLarge)
        } else {
            r matches Ok(payload) && payload@ == packet(byte_views(args@))
        },
{
    let ghost all = byte_views(args@);
    let mut out: Vec<u8> = Vec::new();
    push_be(&mut out, NESTED_MAGIC);
    push_be(&mut out, args.len() as u32);
    let ghost head = be_bytes(NESTED_MAGIC) + be_bytes(args@.len() as u32);
    assert(out@ =~= head);
    let mut i: usize = 0;
    assert(all.take(0) =~= Seq::<Seq<u8>>::empty());
    assert(head + pieces(all.take(0)) =~= head);
    while i < args.len()
        invariant
            i <= args@.len(),
            all == byte_views(args@),
            out@ == head + pieces(all.take(i as int)),
            forall|j: int| 0 <= j < i ==> can_send(#[trigger] all[j]),
        decreases args@.len() - i,
    {
        let value = args[i].as_slice();
        assert(all[i as int] == value@);
        if contains_byte(value, 0) || value.len() > 0xffff_ffff {
            assert(!can_send(all[i as int]));
            return Err(NestedError::InvalidArgument);
        }
        let ghost before = out@;
        push_be(&mut out, value.len() as u32);
        push_bytes(&mut out, value);
        proof {
            let next = all.take(i + 1);
            assert(next.drop_last() =~= all.take(i as int));
            assert(out@ =~= head + pieces(next));
        }
        i += 1;
    }
    assert(all.take(i as int) =~= all);
    if out.len() > MAX_NESTED_PACKET {
        return Err(NestedError::TooLarge);
    }
    Ok(out)
}

/// Reads the arguments that a packet holds.
pub fn receive_nested_request(payload: &[u8]) -> (r: Result<Vec<Vec<u8>>, NestedError>)
    ensures
        match packet_arguments(payload@) {
            Ok(args) => r matches Ok(got) && byte_views(got@) == args,
            Err(e) => r == Err::<Vec<Vec<u8>>, NestedError>(e),
        },
{
    if payload.len() < 4 {
        return Err(NestedError::TruncatedRequest);
    }
    if be_at(payload, 0) != NESTED_MAGIC {
        return Err(NestedError::InvalidRequest);
    }
    if payload.len() < 8 {
        return Err(NestedError::TruncatedRequest);
    }
    let count: u32 = be_at(payload, 4);
    if count == 0 || count as usize > MAX_ARGUMENTS + MAX_ENVIRONMENT + 16 {
        return Err(NestedError::InvalidCount);
    }
    let ghost goal = arguments_at(payload@, 8, count as int);
    let mut out: Vec<Vec<u8>> = Vec::new();
    let mut at: usize = 8;
    let mut left: u32 = count;
    proof {
        if goal is Ok {
            assert(byte_views(out@) + (goal->Ok_0).0 =~= (goal->Ok_0).0);
        }
    }
    while left > 0
        invariant
            left <= count,
            8 <= at <= payload@.len(),
            goal == arguments_at(payload@, 8, count as int),
            match arguments_at(payload@, at as int, left as int) {
                Err(e) => goal == Err::<(Seq<Seq<u8>>, int), NestedError>(e),
                Ok((rest, end)) => goal == Ok::<(Seq<Seq<u8>>, int), NestedError>(
                    (byte_views(out@) + rest, end),
                ),
            },
            packet_arguments(payload@) == (match goal {
                Err(e) => Err(e),
                Ok((args, end)) => if end != payload@.len() {
                    Err(NestedError::TrailingData)
                } else {
                    Ok(args)
                },
            }),
        decreases left,
    {
        if payload.len() - at < 4 {
            return Err(NestedError::TruncatedRequest);
        }
        let length: usize = be_at(payload, at) as usize;
        if length > payload.len() - at - 4 {
            return Err(NestedError::TruncatedArgument);
        }
        let end: usize = at + 4 + length;
        let arg = slice_bytes(payload, at + 4, end);
        if contains_byte(arg.as_slice(), 0) {
            return Err(NestedError::InvalidArgument);
        }
        let ghost before = byte_views(out@);
        proof {
            lemma_byte_views_push(out@, arg);
            match arguments_at(payload@, end as int, left - 1) {
                Err(e) => {},
                Ok((rest, last)) => {
                    assert(before + (seq![arg@] + rest) =~= before.push(arg@) + rest);
                },
            }
        }
        out.push(arg);
        at = end;
        left -= 1;
    }
    assert(byte_views(out@) + Seq::<Seq<u8>>::empty() =~= byte_views(out@));
    if at != payload.len() {
        return Err(NestedError::TrailingData);
    }
    Ok(out)
}

proof fn lemma_pieces_cons(first: Seq<u8>, rest: Seq<Seq<u8>>)
    ensures
        pieces(seq![first] + rest) == piece(first) + pieces(rest),
    decreases rest.len(),
{
    let all = seq![first] + rest;
    if rest.len() == 0 {
        assert(all.drop_last() =~= Seq::<Seq<u8>>::empty());
        assert(pieces(all.drop_last()) =~= Seq::<u8>::empty());
        assert(pieces(rest) =~= Seq::<u8>::empty());
        assert(pieces(all) =~= piece(first) + pieces(rest));
    } else {
        lemma_pieces_cons(first, rest.drop_last());
        assert(all.drop_last() =~= seq![first] + rest.drop_last());
        assert(pieces(all) =~= piece(first) + pieces(rest));
    }
}

proof fn lemma_arguments_at(bytes: Seq<u8>, at: int, args: Seq<Seq<u8>>)
    requires
        0 <= at,
        at + pieces(args).len() <= bytes.len(),
        bytes.subrange(at, at + pieces(args).len()) == pieces(args),
        all_can_be_sent(args),
    ensures
        arguments_at(bytes, at, args.len() as int) == Ok::<(Seq<Seq<u8>>, int), NestedError>(
            (args, at + pieces(args).len()),
        ),
    decreases args.len(),
{
    if args.len() > 0 {
        let first = args[0];
        let rest = args.skip(1);
        assert(args =~= seq![first] + rest);
        lemma_pieces_cons(first, rest);
        assert(can_send(args[0]));
        let n = first.len() as int;
        lemma_be_round_trip(first.len() as u32);
        let all = pieces(args);
        assert(bytes.subrange(at, at + 4) =~= all.subrange(0, 4)) by {
            assert forall|i: int| 0 <= i < 4 implies bytes[at + i] == all[i] by {
                assert(bytes.subrange(at, at + all.len())[i] == all[i]);
            }
        }
        assert(all.subrange(0, 4) =~= be_bytes(first.len() as u32));
        let end = at + 4 + n;
        assert(bytes.subrange(at + 4, end) =~= first) by {
            assert forall|i: int| 0 <= i < n implies bytes[at + 4 + i] == first[i] by {
                assert(bytes.subrange(at, at + all.len())[4 + i] == all[4 + i]);
            }
        }
        assert(bytes.subrange(end, end + pieces(rest).len()) =~= pieces(rest)) by {
            assert forall|i: int| 0 <= i < pieces(rest).len() implies bytes[end + i] == pieces(
                rest,
            )[i] by {
                assert(bytes.subrange(at, at + all.len())[4 + n + i] == all[4 + n + i]);
            }
        }
        assert(all_can_be_sent(rest)) by {
            assert forall|i: int| 0 <= i < rest.len() implies can_send(#[trigger] rest[i]) by {
                assert(can_send(args[i + 1]));
            }
        }
        lemma_arguments_at(bytes, end, rest);
    } else {
        assert(args =~= Seq::<Seq<u8>>::empty());
    }
}

/// The daemon reads the arguments that the client sent.
pub proof fn lemma_packet_round_trip(args: Seq<Seq<u8>>)
    requires
        all_can_be_sent(args),
        0 < args.len() <= MAX_ARGUMENTS + MAX_ENVIRONMENT + 16,
    ensures
        packet_arguments(packet(args)) == Ok::<Seq<Seq<u8>>, NestedError>(args),
{
    let bytes = packet(args);
    lemma_be_round_trip(NESTED_MAGIC);
    lemma_be_round_trip(args.len() as u32);
    assert(bytes.subrange(0, 4) =~= be_bytes(NESTED_MAGIC));
    assert(bytes.subrange(4, 8) =~= be_bytes(args.len() as u32));
    assert(bytes.subrange(8, 8 + pieces(args).len() as int) =~= pieces(args));
    lemma_arguments_at(bytes, 8, args);
}

/// `libc::WIFEXITED` says whether the lowest seven bits of a wait status are zero.
#[verifier::external_body]
fn wait_exited(status: i32) -> (r: bool)
    ensures
        r == (status & 0x7f == 0),
{
    libc::WIFEXITED(status)
}

/// `libc::WEXITSTATUS` gives the second lowest eight bits of a wait status.
#[verifier::external_body]
fn wait_exit_code(status: i32) -> (r: i32)
    ensures
        r == (status >> 8) & 0xff,
{
    libc::WEXITSTATUS(status)
}

/// `libc::WIFSIGNALED` says whether the lowest seven bits of a wait status are neither all zero
/// nor all one. Systems differ on the status 0x13, by which some tell that a process was
/// continued: nothing is said of it here.
#[verifier::external_body]
fn wait_signaled(status: i32) -> (r: bool)
    ensures
        status != 0x13 ==> r == (status & 0x7f != 0 && status & 0x7f != 0x7f),
{
    libc::WIFSIGNALED(status)
}

/// `libc::WTERMSIG` gives the lowest seven bits of a wait status.
#[verifier::external_body]
fn wait_signal(status: i32) -> (r: i32)
    ensures
        r == status & 0x7f,
{
    libc::WTERMSIG(status)
}

/// How the client ends once it knows how the program ended.
#[derive(Debug, Clone, Copy, PartialEq, Eq, Structural)]
pub enum ClientExit {
    /// It exits with the code.
    Code(i32),
    /// It raises the signal against itself, and exits with 127 should it survive.
    Signal(i32),
}

pub open spec fn exit_for(status: i32) -> ClientExit {
    if status & 0x7f == 0 {
        ClientExit::Code((status >> 8) & 0xff)
    } else if status & 0x7f != 0x7f {
        ClientExit::Signal(status & 0x7f)
    } else {
        ClientExit::Code(127)
    }
}

/// How the client ends once it knows how the program ended. The status 0x13 tells of no end on
/// some systems; there the client exits with the code for an end that is not known.
pub fn exit_from_wait_status(status: i32) -> (r: ClientExit)
    ensures
        status != 0x13 ==> r == exit_for(status),
        status == 0x13 ==> r == ClientExit::Signal(0x13) || r == ClientExit::Code(127),
{
    assert(0x13i32 & 0x7f == 0x13) by (bit_vector);
    if wait_exited(status) {
        return ClientExit::Code(wait_exit_code(status));
    }
    if wait_signaled(status) {
        return ClientExit::Signal(wait_signal(status));
    }
    ClientExit::Code(127)
}

/// The bytes in which the daemon reports a status.
pub fn write_status(status: u32) -> (r: Vec<u8>)
    ensures
        r@ == be_bytes(status),
{
    let mut out: Vec<u8> = Vec::new();
    push_be(&mut out, status);
    assert(out@ =~= be_bytes(status));
    out
}

/// The status that the daemon reported.
pub fn read_status(bytes: &[u8]) -> (r: Option<u32>)
    ensures
        r is Some <==> bytes@.len() == 4,
        r matches Some(status) ==> status == be_value(bytes@),
{
    if bytes.len() == 4 {
        assert(bytes@.subrange(0, 4) =~= bytes@);
        Some(be_at(bytes, 0))
    } else {
        None
    }
}

} // verus!
