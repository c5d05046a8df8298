//! What a request to launch a program holds, argument by argument and byte by byte, and what of the
//! end of a program its client passes on.

use crate::application_entrypoint::id_values;
use crate::bytes::text_in;
use crate::launch_request::{
    entries_from, launch_mode, number_argument, request_in, Field, JailMode, RequestError,
    RequestView,
};
use crate::nested_launch::{
    arguments_at, exit_for, packet, packet_arguments, piece, pieces, ClientExit, NestedError,
};
use crate::numbers::{be_bytes, be_value, bounded_value};
use crate::service_laws::{four_bytes, lemma_numbers_byte_by_byte};
use vstd::prelude::*;
use vstd::utf8::encode_utf8;

verus! {

/// Whether an argument names the number.
pub open spec fn names_number(bytes: Seq<u8>, n: nat) -> bool {
    text_in(bytes) matches Some(text) && bounded_value(text, n) == Some(n)
}

/// Whether an argument is the text.
pub open spec fn is_text(bytes: Seq<u8>, text: Seq<char>) -> bool {
    text_in(bytes) == Some(text)
}

proof fn lemma_entries(args: Seq<Seq<u8>>, from: int, count: int)
    requires
        0 <= from,
        0 <= count,
    ensures
        entries_from(args, from, count) matches Ok(entries) ==> from + count <= args.len() || count
            == 0,
        entries_from(args, from, count) matches Ok(entries) ==> entries.len() == count && forall|
            i: int,
        |
            0 <= i < count ==> #[trigger] entries[i] == args[from + i],
    decreases count,
{
    if count > 0 {
        lemma_entries(args, from, count - 1);
    }
}

/// A request that can be read names in turn the root of the sandbox, the directory of the run state,
/// the device and the number of the root, the user and the group, the groups, the directory to begin
/// in or a dash, how the program is kept apart, the descriptors, and how many variables there are, up
/// to five hundred and twelve. Then come these, two dashes, and the program with its arguments, up to
/// one thousand and twenty-four.
pub proof fn lemma_requests_argument_by_argument(args: Seq<Seq<u8>>, request: RequestView)
    requires
        request_in(args) == Ok::<RequestView, RequestError>(request),
    ensures
        request.root == args[1],
        request.runtime_root == args[2],
        names_number(args[3], request.root_device as nat),
        names_number(args[4], request.root_inode as nat),
        names_number(args[5], request.uid as nat),
        names_number(args[6], request.gid as nat),
        request.cwd is None <==> args[8] == encode_utf8("-"@),
        request.cwd matches Some(cwd) ==> cwd == args[8],
        request.jail_mode == JailMode::Direct <==> is_text(args[9], "direct"@),
        request.jail_mode == JailMode::Sandbox <==> is_text(args[9], "sandbox"@),
        request.jail_mode == JailMode::NoNetwork <==> is_text(args[9], "no-network"@),
        request.environment.len() <= 512,
        names_number(args[11], request.environment.len()),
        forall|i: int|
            0 <= i < request.environment.len() ==> #[trigger] request.environment[i] == args[12 + i],
        args[12 + request.environment.len() as int] == encode_utf8("--"@),
        1 <= request.argv.len() <= 1024,
        args.len() == 13 + request.environment.len() + request.argv.len(),
        forall|i: int|
            0 <= i < request.argv.len() ==> #[trigger] request.argv[i] == args[13
                + request.environment.len() + i],
{
    reveal_strlit("direct");
    reveal_strlit("sandbox");
    reveal_strlit("no-network");
    assert("direct"@.len() == 6 && "sandbox"@.len() == 7 && "no-network"@.len() == 10);
    let count = number_argument(args, 11, Field::EnvironmentCount, u64::MAX as nat)->Ok_0 as int;
    lemma_entries(args, 12, count);
}

/// Without the network a program is kept apart from it and from the host; otherwise it is kept apart
/// from the host alone where it asks for a sandbox.
pub proof fn lemma_how_programs_are_kept_apart(nested_sandbox: bool, no_network: bool)
    ensures
        launch_mode(nested_sandbox, no_network) == JailMode::NoNetwork <==> no_network,
        launch_mode(nested_sandbox, no_network) == JailMode::Sandbox <==> nested_sandbox
            && !no_network,
        launch_mode(nested_sandbox, no_network) == JailMode::Direct <==> !nested_sandbox
            && !no_network,
{
}

proof fn lemma_four_at(bytes: Seq<u8>, at: int)
    requires
        0 <= at,
        at + 4 <= bytes.len(),
    ensures
        be_value(bytes.subrange(at, at + 4)) == four_bytes(bytes, at),
{
    let part = bytes.subrange(at, at + 4);
    assert(part[0] == bytes[at] && part[1] == bytes[at + 1] && part[2] == bytes[at + 2] && part[3]
        == bytes[at + 3]);
}

/// Whether a packet is one of nested sandboxes: it begins with the letters `FSLJ`, and then with how
/// many arguments there are, from one to one thousand five hundred and fifty-two.
pub open spec fn is_announced(bytes: Seq<u8>) -> bool {
    &&& bytes.len() >= 8
    &&& bytes[0] == 0x46
    &&& bytes[1] == 0x53
    &&& bytes[2] == 0x4c
    &&& bytes[3] == 0x4a
    &&& 1 <= four_bytes(bytes, 4) <= 1552
}

proof fn lemma_each_argument(bytes: Seq<u8>, at: int, count: int)
    requires
        0 <= at <= bytes.len(),
        0 <= count,
    ensures
        arguments_at(bytes, at, count) matches Ok((args, end)) ==> {
            &&& args.len() == count
            &&& at <= end <= bytes.len()
            &&& count > 0 ==> at + 4 + args[0].len() <= bytes.len() && args[0].len() == four_bytes(
                bytes,
                at,
            ) && args[0] == bytes.subrange(at + 4, at + 4 + args[0].len())
            &&& forall|i: int| 0 <= i < count ==> !(#[trigger] args[i]).contains(0)
        },
    decreases count,
{
    if count > 0 && at + 4 <= bytes.len() {
        lemma_four_at(bytes, at);
        let end = at + 4 + four_bytes(bytes, at);
        if end <= bytes.len() {
            lemma_each_argument(bytes, end, count - 1);
            if let Ok((rest, last)) = arguments_at(bytes, end, count - 1) {
                let arg = bytes.subrange(at + 4, end);
                let all = seq![arg] + rest;
                assert forall|i: int| 0 <= i < count && !arg.contains(0) implies !(
                #[trigger] all[i]).contains(0) by {
                    if i > 0 {
                        assert(all[i] == rest[i - 1]);
                    }
                }
            }
        }
    }
}

/// A packet that can be read is announced as one of nested sandboxes and holds as many arguments as
/// it says, the first of them right behind its first eight bytes; none of them holds a zero byte.
pub proof fn lemma_packets_of_nested_sandboxes(bytes: Seq<u8>, args: Seq<Seq<u8>>)
    requires
        packet_arguments(bytes) == Ok::<Seq<Seq<u8>>, NestedError>(args),
    ensures
        is_announced(bytes),
        args.len() == four_bytes(bytes, 4),
        args[0].len() == four_bytes(bytes, 8),
        args[0] == bytes.subrange(12, 12 + args[0].len() as int),
        forall|i: int| 0 <= i < args.len() ==> !(#[trigger] args[i]).contains(0),
{
    lemma_four_at(bytes, 0);
    lemma_four_at(bytes, 4);
    lemma_each_argument(bytes, 8, four_bytes(bytes, 4));
}

/// An argument is sent as its length, with the greatest byte first, and then its bytes, right behind
/// the one before it.
pub proof fn lemma_arguments_follow_each_other(args: Seq<Seq<u8>>, arg: Seq<u8>)
    requires
        arg.len() <= u32::MAX,
        args.len() < u32::MAX,
    ensures
        ({
            let before = packet(args);
            let after = packet(args.push(arg));
            let n = before.len() as int;
            &&& n >= 8
            &&& after.len() == n + 4 + arg.len()
            &&& four_bytes(after, 4) == args.len() + 1
            &&& four_bytes(after, n) == arg.len()
            &&& after.subrange(8, n) == before.subrange(8, n)
            &&& after.subrange(n + 4, n + 4 + arg.len()) == arg
        }),
{
    let all = args.push(arg);
    assert(all.drop_last() =~= args);
    let (before, after) = (packet(args), packet(all));
    let n = before.len() as int;
    let count = be_bytes(all.len() as u32);
    let size = be_bytes(arg.len() as u32);
    lemma_numbers_byte_by_byte(all.len() as u32, 0);
    lemma_numbers_byte_by_byte(arg.len() as u32, 0);
    assert(pieces(all) == pieces(args) + piece(arg));
    assert(after[4] == count[0] && after[5] == count[1] && after[6] == count[2] && after[7]
        == count[3]);
    assert(after[n] == size[0] && after[n + 1] == size[1] && after[n + 2] == size[2] && after[n + 3]
        == size[3]);
    assert(after.subrange(8, n) =~= before.subrange(8, n));
    assert(after.subrange(n + 4, n + 4 + arg.len()) =~= arg);
}

/// A client ends as the program did: with its code, or by the signal that ended it.
pub proof fn lemma_clients_end_as_programs_do(code: i32, signal: i32)
    requires
        0 <= code <= 255,
        1 <= signal <= 126,
    ensures
        exit_for((code * 256) as i32) == ClientExit::Code(code),
        exit_for(signal) == ClientExit::Signal(signal),
        exit_for((signal + 128) as i32) == ClientExit::Signal(signal),
        exit_for(127) == ClientExit::Code(127),
{
    let shifted = (code * 256) as i32;
    let dumped = (signal + 128) as i32;
    assert(0 <= code <= 255 && shifted == code * 256 ==> shifted & 0x7f == 0 && (shifted >> 8) & 0xff
        == code) by (bit_vector);
    assert(1 <= signal <= 126 && dumped == signal + 128 ==> signal & 0x7f == signal && dumped & 0x7f
        == signal) by (bit_vector);
    assert(127i32 & 0x7f == 0x7f) by (bit_vector);
}

/// What a program prints of its numbers is read word by word: all of them must be numbers of 32 bits, and the first that is none is named.
pub proof fn lemma_printed_numbers(parts: Seq<Seq<char>>, n: int)
    requires
        0 <= n <= parts.len(),
        forall|i: int|
            0 <= i < n ==> bounded_value(#[trigger] parts[i], 4294967295) is Some,
        n < parts.len() ==> bounded_value(parts[n], 4294967295) is None,
    ensures
        n < parts.len() ==> id_values(parts) == Err::<Seq<nat>, Seq<char>>(parts[n]),
        n == parts.len() ==> (id_values(parts) matches Ok(ids) && ids.len() == n && forall|i: int|
            0 <= i < n ==> bounded_value(parts[i], 4294967295) == Some(#[trigger] ids[i])),
    decreases parts.len(),
{
    if parts.len() > 0 {
        let head = parts.drop_last();
        assert(forall|i: int| 0 <= i < head.len() ==> #[trigger] head[i] == parts[i]);
        if n < parts.len() {
            lemma_printed_numbers(head, n);
            if n == head.len() {
                assert(parts.last() == parts[n]);
            }
        } else {
            lemma_printed_numbers(head, n - 1);
            assert(parts.last() == parts[n - 1]);
        }
    }
}

} // verus!
