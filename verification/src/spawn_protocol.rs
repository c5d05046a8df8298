//! What passes between a sandbox's portal and the broker that starts programs for it.

use crate::bytes::{byte_views, contains_byte, lemma_byte_views_push, slice_bytes};
use crate::numbers::{
    be16_at, be16_bytes, be16_value, be_at, be_bytes, be_value, lemma_be16_bytes_of_value,
    lemma_be16_round_trip, lemma_be_bytes_of_value, lemma_be_round_trip, push_be, push_be16,
};
use vstd::prelude::*;

verus! {

pub const MAGIC: u32 = 0x4653_4250;

pub const VERSION: u16 = 1;

pub const HEADER_SIZE: usize = 20;

pub const MAX_PAYLOAD: usize = 4096;

pub const MAX_FDS: usize = 32;

pub const PING: u16 = 1;

pub const PONG: u16 = 2;

pub const FD_TEST: u16 = 3;

pub const FD_OK: u16 = 4;

pub const LIFECYCLE_TEST_START: u16 = 5;

pub const LIFECYCLE_TEST_ACCEPTED: u16 = 6;

pub const LIFECYCLE_TEST_EXITED: u16 = 7;

pub const SPAWN: u16 = 8;

pub const SPAWN_ACCEPTED: u16 = 9;

pub const SPAWN_EXITED: u16 = 10;

pub const SPAWN_TERMINATE: u16 = 11;

pub const SPAWN_STARTED: u16 = 12;

pub const MAX_TARGET_FD: i32 = 65_535;

pub const MAX_SPAWN_ITEMS: u32 = 256;

/// The header of a message with a payload of `length` bytes.
pub open spec fn header(message: u16, request: u32, length: u32, fds: u32) -> Seq<u8> {
    be_bytes(MAGIC) + be16_bytes(VERSION) + be16_bytes(message) + be_bytes(request) + be_bytes(
        length,
    ) + be_bytes(fds)
}

/// What a packet's header says: the kind of message, the request, the length of the payload and
/// the number of descriptors.
pub open spec fn frame_of(packet: Seq<u8>) -> Option<(u16, u32, usize, u32)> {
    if packet.len() < HEADER_SIZE {
        None
    } else {
        let length = be_value(packet.subrange(12, 16));
        if be_value(packet.subrange(0, 4)) != MAGIC || be16_value(packet.subrange(4, 6)) != VERSION
            || length > MAX_PAYLOAD || packet.len() != HEADER_SIZE + length {
            None
        } else {
            Some(
                (
                    be16_value(packet.subrange(6, 8)),
                    be_value(packet.subrange(8, 12)),
                    length as usize,
                    be_value(packet.subrange(16, 20)),
                ),
            )
        }
    }
}

/// The header of a message with the payload.
pub fn frame(message: u16, request: u32, payload: &[u8], fds: u32) -> (r: Vec<u8>)
    ensures
        r@ == header(message, request, payload@.len() as u32, fds),
{
    let mut out: Vec<u8> = Vec::new();
    push_be(&mut out, MAGIC);
    push_be16(&mut out, VERSION);
    push_be16(&mut out, message);
    push_be(&mut out, request);
    push_be(&mut out, payload.len() as u32);
    push_be(&mut out, fds);
    assert(out@ =~= header(message, request, payload@.len() as u32, fds));
    out
}

/// Reads the header of a packet.
pub fn parse_frame(packet: &[u8]) -> (r: Option<(u16, u32, usize, u32)>)
    ensures
        r == frame_of(packet@),
{
    if packet.len() < HEADER_SIZE {
        return None;
    }
    let magic: u32 = be_at(packet, 0);
    let version: u16 = be16_at(packet, 4);
    let kind: u16 = be16_at(packet, 6);
    let request: u32 = be_at(packet, 8);
    let length: usize = be_at(packet, 12) as usize;
    let fds: u32 = be_at(packet, 16);
    if magic != MAGIC || version != VERSION || length > MAX_PAYLOAD || packet.len() != HEADER_SIZE
        + length {
        return None;
    }
    Some((kind, request, length, fds))
}

/// A message that is not too long is read as it was written.
pub proof fn lemma_frame_round_trip(message: u16, request: u32, payload: Seq<u8>, fds: u32)
    requires
        payload.len() <= MAX_PAYLOAD,
    ensures
        frame_of(header(message, request, payload.len() as u32, fds) + payload) == Some(
            (message, request, payload.len() as usize, fds),
        ),
        header(message, request, payload.len() as u32, fds).len() == HEADER_SIZE,
{
    let length = payload.len() as u32;
    let packet = header(message, request, length, fds) + payload;
    lemma_be_round_trip(MAGIC);
    lemma_be16_round_trip(VERSION);
    lemma_be16_round_trip(message);
    lemma_be_round_trip(request);
    lemma_be_round_trip(length);
    lemma_be_round_trip(fds);
    assert(packet.subrange(0, 4) =~= be_bytes(MAGIC));
    assert(packet.subrange(4, 6) =~= be16_bytes(VERSION));
    assert(packet.subrange(6, 8) =~= be16_bytes(message));
    assert(packet.subrange(8, 12) =~= be_bytes(request));
    assert(packet.subrange(12, 16) =~= be_bytes(length));
    assert(packet.subrange(16, 20) =~= be_bytes(fds));
}

/// A packet whose header is read is that header before its payload.
pub proof fn lemma_frame_is_canonical(packet: Seq<u8>)
    requires
        frame_of(packet) is Some,
    ensures
        ({
            let (message, request, length, fds) = frame_of(packet)->0;
            packet == header(message, request, length as u32, fds) + packet.skip(
                HEADER_SIZE as int,
            )
        }),
{
    let (message, request, length, fds) = frame_of(packet)->0;
    lemma_be_bytes_of_value(packet.subrange(0, 4));
    lemma_be16_bytes_of_value(packet.subrange(4, 6));
    lemma_be16_bytes_of_value(packet.subrange(6, 8));
    lemma_be_bytes_of_value(packet.subrange(8, 12));
    lemma_be_bytes_of_value(packet.subrange(12, 16));
    lemma_be_bytes_of_value(packet.subrange(16, 20));
    let head = packet.subrange(0, 4) + packet.subrange(4, 6) + packet.subrange(6, 8)
        + packet.subrange(8, 12) + packet.subrange(12, 16) + packet.subrange(16, 20);
    assert(packet =~= head + packet.skip(20));
}

/// A message as a packet.
pub fn packet(message: u16, request: u32, payload: &[u8]) -> (r: Vec<u8>)
    ensures
        r@ == header(message, request, payload@.len() as u32, 0) + payload@,
{
    let mut out = frame(message, request, payload, 0);
    crate::bytes::push_bytes(&mut out, payload);
    out
}

/// How many descriptors there are with those of one more control message of so many bytes.
pub fn control_fds(have: usize, bytes: usize) -> (r: Option<usize>)
    requires
        have <= MAX_FDS,
    ensures
        r is Some <==> bytes % 4 == 0 && have + bytes / 4 <= MAX_FDS,
        r matches Some(n) ==> n == have + bytes / 4,
{
    if bytes % 4 != 0 || bytes / 4 > MAX_FDS - have {
        None
    } else {
        Some(have + bytes / 4)
    }
}

/// Whether a packet is taken: its header is whole and names as many descriptors as came with it,
/// and all of those are descriptors.
pub open spec fn is_taken(packet: Seq<u8>, descriptors: Seq<i32>) -> bool {
    frame_of(packet) matches Some(f) && f.3 == descriptors.len() && forall|i: int|
        0 <= i < descriptors.len() ==> #[trigger] descriptors[i] >= 0
}

/// Whether a packet is taken.
pub fn receive_packet(packet: &[u8], descriptors: &[i32]) -> (r: bool)
    ensures
        r == is_taken(packet@, descriptors@),
{
    match parse_frame(packet) {
        Some((_, _, _, expected)) => {
            if descriptors.len() != expected as usize {
                return false;
            }
            let mut i: usize = 0;
            while i < descriptors.len()
                invariant
                    i <= descriptors@.len(),
                    forall|j: int| 0 <= j < i ==> #[trigger] descriptors@[j] >= 0,
                decreases descriptors@.len() - i,
            {
                if descriptors[i] < 0 {
                    return false;
                }
                i += 1;
            }
            true
        },
        None => false,
    }
}

/// A request to start a program; its descriptors are put in the targets in their order.
#[derive(Debug)]
pub struct SpawnRequest {
    pub cwd: Option<Vec<u8>>,
    pub flags: u32,
    pub argv: Vec<Vec<u8>>,
    pub caller_pid: u32,
    pub environment: Vec<(Vec<u8>, Vec<u8>)>,
    pub targets: Vec<i32>,
}

pub ghost struct SpawnView {
    pub cwd: Option<Seq<u8>>,
    pub flags: u32,
    pub argv: Seq<Seq<u8>>,
    pub caller_pid: u32,
    pub environment: Seq<(Seq<u8>, Seq<u8>)>,
    pub targets: Seq<i32>,
}

pub open spec fn byte_pairs(v: Seq<(Vec<u8>, Vec<u8>)>) -> Seq<(Seq<u8>, Seq<u8>)> {
    Seq::new(v.len(), |i: int| (v[i].0@, v[i].1@))
}

impl View for SpawnRequest {
    type V = SpawnView;

    open spec fn view(&self) -> SpawnView {
        SpawnView {
            cwd: match self.cwd {
                Some(cwd) => Some(cwd@),
                None => None,
            },
            flags: self.flags,
            argv: byte_views(self.argv@),
            caller_pid: self.caller_pid,
            environment: byte_pairs(self.environment@),
            targets: self.targets@,
        }
    }
}

/// What is wrong with a request to start a program.
#[derive(Debug, Clone, Copy, PartialEq, Eq, Structural)]
pub enum SpawnError {
    InvalidCwd,
    MissingArgumentCount,
    MissingEnvironmentCount,
    MissingMappingCount,
    MissingFlags,
    InvalidArgumentCount,
    InvalidEnvironmentCount,
    MappingMismatch,
    InvalidArgument,
    InvalidKey,
    InvalidValue,
    MissingTarget,
    InvalidTarget,
    DuplicateTarget,
    MissingCaller,
    TrailingBytes,
}

impl SpawnError {
    pub fn reason(self) -> (r: &'static str)
        ensures
            r@ == (match self {
                SpawnError::InvalidCwd => "invalid cwd"@,
                SpawnError::MissingArgumentCount => "missing argument count"@,
                SpawnError::MissingEnvironmentCount => "missing environment count"@,
                SpawnError::MissingMappingCount => "missing fd mapping count"@,
                SpawnError::MissingFlags => "missing flags"@,
                SpawnError::InvalidArgumentCount => "invalid argument count"@,
                SpawnError::InvalidEnvironmentCount => "invalid environment count"@,
                SpawnError::MappingMismatch => "fd mapping count mismatch"@,
                SpawnError::InvalidArgument => "invalid argument"@,
                SpawnError::InvalidKey => "invalid environment key"@,
                SpawnError::InvalidValue => "invalid environment value"@,
                SpawnError::MissingTarget => "missing fd target"@,
                SpawnError::InvalidTarget => "invalid fd target"@,
                SpawnError::DuplicateTarget => "duplicate fd target"@,
                SpawnError::MissingCaller => "missing caller process id"@,
                SpawnError::TrailingBytes => "trailing payload bytes"@,
            }),
    {
        match self {
            SpawnError::InvalidCwd => "invalid cwd",
            SpawnError::MissingArgumentCount => "missing argument count",
            SpawnError::MissingEnvironmentCount => "missing environment count",
            SpawnError::MissingMappingCount => "missing fd mapping count",
            SpawnError::MissingFlags => "missing flags",
            SpawnError::InvalidArgumentCount => "invalid argument count",
            SpawnError::InvalidEnvironmentCount => "invalid environment count",
            SpawnError::MappingMismatch => "fd mapping count mismatch",
            SpawnError::InvalidArgument => "invalid argument",
            SpawnError::InvalidKey => "invalid environment key",
            SpawnError::InvalidValue => "invalid environment value",
            SpawnError::MissingTarget => "missing fd target",
            SpawnError::InvalidTarget => "invalid fd target",
            SpawnError::DuplicateTarget => "duplicate fd target",
            SpawnError::MissingCaller => "missing caller process id",
            SpawnError::TrailingBytes => "trailing payload bytes",
        }
    }
}

/// The number at a place, and where what follows begins.
pub open spec fn number_at(bytes: Seq<u8>, at: int) -> Option<(u32, int)> {
    if at + 4 <= bytes.len() {
        Some((be_value(bytes.subrange(at, at + 4)), at + 4))
    } else {
        None
    }
}

/// The byte string after its length at a place, and where what follows begins. A byte string
/// holds no zero byte.
pub open spec fn string_at(bytes: Seq<u8>, at: int, allow_empty: bool) -> Option<(Seq<u8>, int)> {
    match number_at(bytes, at) {
        None => None,
        Some((length, from)) => if from + length > bytes.len() {
            None
        } else {
            let value = bytes.subrange(from, from + length);
            if (!allow_empty && value.len() == 0) || value.contains(0) {
                None
            } else {
                Some((value, from + length))
            }
        },
    }
}

/// So many arguments from a place on, and where what follows begins.
pub open spec fn strings_at(bytes: Seq<u8>, at: int, count: int) -> Option<(Seq<Seq<u8>>, int)>
    decreases count,
{
    if count <= 0 {
        Some((Seq::empty(), at))
    } else {
        match strings_at(bytes, at, count - 1) {
            None => None,
            Some((before, from)) => match string_at(bytes, from, false) {
                None => None,
                Some((value, end)) => Some((before.push(value), end)),
            },
        }
    }
}

/// A variable at a place, and where what follows begins.
pub open spec fn variable_at(bytes: Seq<u8>, at: int) -> Result<
    ((Seq<u8>, Seq<u8>), int),
    SpawnError,
> {
    match string_at(bytes, at, false) {
        None => Err(SpawnError::InvalidKey),
        Some((key, from)) => if key.contains(0x3d) {
            Err(SpawnError::InvalidKey)
        } else {
            match string_at(bytes, from, true) {
                None => Err(SpawnError::InvalidValue),
                Some((value, end)) => Ok(((key, value), end)),
            }
        },
    }
}

/// So many variables from a place on, and where what follows begins.
pub open spec fn variables_at(bytes: Seq<u8>, at: int, count: int) -> Result<
    (Seq<(Seq<u8>, Seq<u8>)>, int),
    SpawnError,
>
    decreases count,
{
    if count <= 0 {
        Ok((Seq::empty(), at))
    } else {
        match variables_at(bytes, at, count - 1) {
            Err(e) => Err(e),
            Ok((before, from)) => match variable_at(bytes, from) {
                Err(e) => Err(e),
                Ok((variable, end)) => Ok((before.push(variable), end)),
            },
        }
    }
}

/// So many targets from a place on, and where what follows begins; no target occurs twice.
pub open spec fn targets_at(bytes: Seq<u8>, at: int, count: int) -> Result<
    (Seq<i32>, int),
    SpawnError,
>
    decreases count,
{
    if count <= 0 {
        Ok((Seq::empty(), at))
    } else {
        match targets_at(bytes, at, count - 1) {
            Err(e) => Err(e),
            Ok((before, from)) => match number_at(bytes, from) {
                None => Err(SpawnError::MissingTarget),
                Some((target, end)) => if target > MAX_TARGET_FD {
                    Err(SpawnError::InvalidTarget)
                } else if before.contains(target as i32) {
                    Err(SpawnError::DuplicateTarget)
                } else {
                    Ok((before.push(target as i32), end))
                },
            },
        }
    }
}

/// The counts and flags of a request, and where what follows begins.
pub ghost struct SpawnCounts {
    pub cwd: Seq<u8>,
    pub argc: u32,
    pub envc: u32,
    pub mappings: u32,
    pub flags: u32,
    pub end: int,
}

pub open spec fn counts_in(bytes: Seq<u8>) -> Result<SpawnCounts, SpawnError> {
    match string_at(bytes, 0, true) {
        None => Err(SpawnError::InvalidCwd),
        Some((cwd, a)) => match number_at(bytes, a) {
            None => Err(SpawnError::MissingArgumentCount),
            Some((argc, b)) => match number_at(bytes, b) {
                None => Err(SpawnError::MissingEnvironmentCount),
                Some((envc, c)) => match number_at(bytes, c) {
                    None => Err(SpawnError::MissingMappingCount),
                    Some((mappings, d)) => match number_at(bytes, d) {
                        None => Err(SpawnError::MissingFlags),
                        Some((flags, end)) => Ok(
                            SpawnCounts { cwd, argc, envc, mappings, flags, end },
                        ),
                    },
                },
            },
        },
    }
}

/// The request in a payload that came with so many descriptors, or the first thing that is wrong
/// with it.
pub open spec fn spawn_in(bytes: Seq<u8>, fds: int) -> Result<SpawnView, SpawnError> {
    match counts_in(bytes) {
        Err(e) => Err(e),
        Ok(counts) => if counts.argc == 0 || counts.argc > MAX_SPAWN_ITEMS {
            Err(SpawnError::InvalidArgumentCount)
        } else if counts.envc > MAX_SPAWN_ITEMS {
            Err(SpawnError::InvalidEnvironmentCount)
        } else if counts.mappings != fds {
            Err(SpawnError::MappingMismatch)
        } else {
            match strings_at(bytes, counts.end, counts.argc as int) {
                None => Err(SpawnError::InvalidArgument),
                Some((argv, a)) => match variables_at(bytes, a, counts.envc as int) {
                    Err(e) => Err(e),
                    Ok((environment, b)) => match targets_at(bytes, b, fds) {
                        Err(e) => Err(e),
                        Ok((targets, c)) => match number_at(bytes, c) {
                            None => Err(SpawnError::MissingCaller),
                            Some((caller_pid, end)) => if end != bytes.len() {
                                Err(SpawnError::TrailingBytes)
                            } else {
                                Ok(
                                    SpawnView {
                                        cwd: if counts.cwd.len() == 0 {
                                            None
                                        } else {
                                            Some(counts.cwd)
                                        },
                                        flags: counts.flags,
                                        argv,
                                        caller_pid,
                                        environment,
                                        targets,
                                    },
                                )
                            },
                        },
                    },
                },
            }
        },
    }
}

fn decode_u32(payload: &[u8], at: usize) -> (r: Option<(u32, usize)>)
    requires
        at <= payload@.len(),
    ensures
        r is Some <==> number_at(payload@, at as int) is Some,
        r matches Some(p) ==> number_at(payload@, at as int) == Some((p.0, p.1 as int)) && p.1
            <= payload@.len(),
{
    if payload.len() - at < 4 {
        None
    } else {
        Some((be_at(payload, at), at + 4))
    }
}

fn decode_bytes(payload: &[u8], at: usize, allow_empty: bool) -> (r: Option<(Vec<u8>, usize)>)
    requires
        at <= payload@.len(),
    ensures
        r is Some <==> string_at(payload@, at as int, allow_empty) is Some,
        r matches Some(p) ==> string_at(payload@, at as int, allow_empty) == Some(
            (p.0@, p.1 as int),
        ) && p.1 <= payload@.len(),
{
    let (length, from) = match decode_u32(payload, at) {
        Some(p) => p,
        None => {
            return None;
        },
    };
    if length as usize > payload.len() - from {
        return None;
    }
    let end: usize = from + length as usize;
    let value = slice_bytes(payload, from, end);
    if (!allow_empty && value.len() == 0) || contains_byte(value.as_slice(), 0) {
        return None;
    }
    Some((value, end))
}

proof fn lemma_strings_fail(bytes: Seq<u8>, at: int, n: int, count: int)
    requires
        0 <= n <= count,
        strings_at(bytes, at, n) is None,
    ensures
        strings_at(bytes, at, count) is None,
    decreases count - n,
{
    if n < count {
        lemma_strings_fail(bytes, at, n + 1, count);
    }
}

proof fn lemma_variables_fail(bytes: Seq<u8>, at: int, n: int, count: int)
    requires
        0 <= n <= count,
        variables_at(bytes, at, n) is Err,
    ensures
        variables_at(bytes, at, count) == variables_at(bytes, at, n),
    decreases count - n,
{
    if n < count {
        lemma_variables_fail(bytes, at, n + 1, count);
    }
}

proof fn lemma_targets_fail(bytes: Seq<u8>, at: int, n: int, count: int)
    requires
        0 <= n <= count,
        targets_at(bytes, at, n) is Err,
    ensures
        targets_at(bytes, at, count) == targets_at(bytes, at, n),
    decreases count - n,
{
    if n < count {
        lemma_targets_fail(bytes, at, n + 1, count);
    }
}

fn decode_arguments(payload: &[u8], at: usize, count: u32) -> (r: Option<(Vec<Vec<u8>>, usize)>)
    requires
        at <= payload@.len(),
    ensures
        r is Some <==> strings_at(payload@, at as int, count as int) is Some,
        r matches Some(p) ==> strings_at(payload@, at as int, count as int) == Some(
            (byte_views(p.0@), p.1 as int),
        ) && p.1 <= payload@.len(),
{
    let mut out: Vec<Vec<u8>> = Vec::new();
    let mut from: usize = at;
    let mut i: u32 = 0;
    assert(byte_views(out@) =~= Seq::<Seq<u8>>::empty());
    while i < count
        invariant
            i <= count,
            from <= payload@.len(),
            strings_at(payload@, at as int, i as int) == Some((byte_views(out@), from as int)),
        decreases count - i,
    {
        match decode_bytes(payload, from, false) {
            Some((value, end)) => {
                proof {
                    lemma_byte_views_push(out@, value);
                }
                out.push(value);
                from = end;
            },
            None => {
                proof {
                    lemma_strings_fail(payload@, at as int, i + 1, count as int);
                }
                return None;
            },
        }
        i += 1;
    }
    Some((out, from))
}

fn decode_environment(payload: &[u8], at: usize, count: u32) -> (r: Result<
    (Vec<(Vec<u8>, Vec<u8>)>, usize),
    SpawnError,
>)
    requires
        at <= payload@.len(),
    ensures
        match variables_at(payload@, at as int, count as int) {
            Ok((variables, end)) => r matches Ok(p) && byte_pairs(p.0@) == variables && p.1 == end
                && p.1 <= payload@.len(),
            Err(e) => r matches Err(got) && got == e,
        },
{
    let mut out: Vec<(Vec<u8>, Vec<u8>)> = Vec::new();
    let mut from: usize = at;
    let mut i: u32 = 0;
    assert(byte_pairs(out@) =~= Seq::<(Seq<u8>, Seq<u8>)>::empty());
    while i < count
        invariant
            i <= count,
            from <= payload@.len(),
            variables_at(payload@, at as int, i as int) == Ok::<
                (Seq<(Seq<u8>, Seq<u8>)>, int),
                SpawnError,
            >((byte_pairs(out@), from as int)),
        decreases count - i,
    {
        let (key, middle) = match decode_bytes(payload, from, false) {
            Some(p) => p,
            None => {
                proof {
                    lemma_variables_fail(payload@, at as int, i + 1, count as int);
                }
                return Err(SpawnError::InvalidKey);
            },
        };
        if contains_byte(key.as_slice(), 0x3d) {
            proof {
                lemma_variables_fail(payload@, at as int, i + 1, count as int);
            }
            return Err(SpawnError::InvalidKey);
        }
        let (value, end) = match decode_bytes(payload, middle, true) {
            Some(p) => p,
            None => {
                proof {
                    lemma_variables_fail(payload@, at as int, i + 1, count as int);
                }
                return Err(SpawnError::InvalidValue);
            },
        };
        let ghost before = out@;
        let pair = (key, value);
        out.push(pair);
        assert(byte_pairs(out@) =~= byte_pairs(before).push((pair.0@, pair.1@)));
        from = end;
        i += 1;
    }
    Ok((out, from))
}

fn contains_i32(values: &[i32], x: i32) -> (r: bool)
    ensures
        r == values@.contains(x),
{
    let mut i: usize = 0;
    while i < values.len()
        invariant
            i <= values@.len(),
            forall|j: int| 0 <= j < i ==> values@[j] != x,
        decreases values@.len() - i,
    {
        if values[i] == x {
            return true;
        }
        i += 1;
    }
    false
}

fn decode_targets(payload: &[u8], at: usize, count: usize) -> (r: Result<
    (Vec<i32>, usize),
    SpawnError,
>)
    requires
        at <= payload@.len(),
    ensures
        match targets_at(payload@, at as int, count as int) {
            Ok((targets, end)) => r matches Ok(p) && p.0@ == targets && p.1 == end && p.1
                <= payload@.len(),
            Err(e) => r matches Err(got) && got == e,
        },
{
    let mut out: Vec<i32> = Vec::new();
    let mut from: usize = at;
    let mut i: usize = 0;
    assert(out@ =~= Seq::<i32>::empty());
    while i < count
        invariant
            i <= count,
            from <= payload@.len(),
            targets_at(payload@, at as int, i as int) == Ok::<(Seq<i32>, int), SpawnError>(
                (out@, from as int),
            ),
        decreases count - i,
    {
        let (target, end) = match decode_u32(payload, from) {
            Some(p) => p,
            None => {
                proof {
                    lemma_targets_fail(payload@, at as int, i + 1, count as int);
                }
                return Err(SpawnError::MissingTarget);
            },
        };
        if target > MAX_TARGET_FD as u32 {
            proof {
                lemma_targets_fail(payload@, at as int, i + 1, count as int);
            }
            return Err(SpawnError::InvalidTarget);
        }
        if contains_i32(out.as_slice(), target as i32) {
            proof {
                lemma_targets_fail(payload@, at as int, i + 1, count as int);
            }
            return Err(SpawnError::DuplicateTarget);
        }
        out.push(target as i32);
        from = end;
        i += 1;
    }
    Ok((out, from))
}

/// Reads a request to start a program that came with so many descriptors.
pub fn parse_spawn(payload: &[u8], fds: usize) -> (r: Result<SpawnRequest, SpawnError>)
    ensures
        match spawn_in(payload@, fds as int) {
            Ok(view) => r matches Ok(request) && request@ == view,
            Err(e) => r matches Err(got) && got == e,
        },
{
    let (cwd, a) = match decode_bytes(payload, 0, true) {
        Some(p) => p,
        None => {
            return Err(SpawnError::InvalidCwd);
        },
    };
    let (argc, b) = match decode_u32(payload, a) {
        Some(p) => p,
        None => {
            return Err(SpawnError::MissingArgumentCount);
        },
    };
    let (envc, c) = match decode_u32(payload, b) {
        Some(p) => p,
        None => {
            return Err(SpawnError::MissingEnvironmentCount);
        },
    };
    let (mappings, d) = match decode_u32(payload, c) {
        Some(p) => p,
        None => {
            return Err(SpawnError::MissingMappingCount);
        },
    };
    let (flags, e) = match decode_u32(payload, d) {
        Some(p) => p,
        None => {
            return Err(SpawnError::MissingFlags);
        },
    };
    if argc == 0 || argc > MAX_SPAWN_ITEMS {
        return Err(SpawnError::InvalidArgumentCount);
    }
    if envc > MAX_SPAWN_ITEMS {
        return Err(SpawnError::InvalidEnvironmentCount);
    }
    if mappings as usize != fds {
        return Err(SpawnError::MappingMismatch);
    }
    let (argv, f) = match decode_arguments(payload, e, argc) {
        Some(p) => p,
        None => {
            return Err(SpawnError::InvalidArgument);
        },
    };
    let (environment, g) = match decode_environment(payload, f, envc) {
        Ok(p) => p,
        Err(error) => {
            return Err(error);
        },
    };
    let (targets, h) = match decode_targets(payload, g, fds) {
        Ok(p) => p,
        Err(error) => {
            return Err(error);
        },
    };
    let (caller_pid, end) = match decode_u32(payload, h) {
        Some(p) => p,
        None => {
            return Err(SpawnError::MissingCaller);
        },
    };
    if end != payload.len() {
        return Err(SpawnError::TrailingBytes);
    }
    let directory = if cwd.len() == 0 {
        None
    } else {
        Some(cwd)
    };
    Ok(SpawnRequest { cwd: directory, flags, argv, caller_pid, environment, targets })
}

/// A byte string after its length.
pub open spec fn string_bytes(value: Seq<u8>) -> Seq<u8> {
    be_bytes(value.len() as u32) + value
}

pub open spec fn strings_bytes(values: Seq<Seq<u8>>) -> Seq<u8>
    decreases values.len(),
{
    if values.len() == 0 {
        Seq::empty()
    } else {
        strings_bytes(values.drop_last()) + string_bytes(values.last())
    }
}

pub open spec fn variables_bytes(variables: Seq<(Seq<u8>, Seq<u8>)>) -> Seq<u8>
    decreases variables.len(),
{
    if variables.len() == 0 {
        Seq::empty()
    } else {
        variables_bytes(variables.drop_last()) + (string_bytes(variables.last().0) + string_bytes(
            variables.last().1,
        ))
    }
}

pub open spec fn targets_bytes(targets: Seq<i32>) -> Seq<u8>
    decreases targets.len(),
{
    if targets.len() == 0 {
        Seq::empty()
    } else {
        targets_bytes(targets.drop_last()) + be_bytes(targets.last() as u32)
    }
}

pub open spec fn cwd_bytes(cwd: Option<Seq<u8>>) -> Seq<u8> {
    match cwd {
        Some(directory) => directory,
        None => Seq::empty(),
    }
}

/// The payload that asks for a program to be started.
pub open spec fn spawn_bytes(view: SpawnView) -> Seq<u8> {
    string_bytes(cwd_bytes(view.cwd)) + (be_bytes(view.argv.len() as u32) + (be_bytes(
        view.environment.len() as u32,
    ) + (be_bytes(view.targets.len() as u32) + (be_bytes(view.flags) + (strings_bytes(view.argv) + (
    variables_bytes(view.environment) + (targets_bytes(view.targets) + be_bytes(
        view.caller_pid,
    ))))))))
}

pub open spec fn valid_string(value: Seq<u8>) -> bool {
    !value.contains(0) && value.len() <= u32::MAX
}

/// Whether a request can be written.
pub open spec fn can_ask(view: SpawnView) -> bool {
    &&& view.cwd matches Some(cwd) ==> cwd.len() > 0 && valid_string(cwd)
    &&& 0 < view.argv.len() <= MAX_SPAWN_ITEMS
    &&& forall|i: int|
        0 <= i < view.argv.len() ==> (#[trigger] view.argv[i]).len() > 0 && valid_string(
            view.argv[i],
        )
    &&& view.environment.len() <= MAX_SPAWN_ITEMS
    &&& forall|i: int|
        0 <= i < view.environment.len() ==> valid_pair(#[trigger] view.environment[i])
    &&& view.targets.len() <= MAX_FDS
    &&& view.targets.no_duplicates()
    &&& forall|i: int|
        0 <= i < view.targets.len() ==> 0 <= #[trigger] view.targets[i] <= MAX_TARGET_FD
}

pub open spec fn valid_pair(pair: (Seq<u8>, Seq<u8>)) -> bool {
    pair.0.len() > 0 && valid_string(pair.0) && !pair.0.contains(0x3d) && valid_string(pair.1)
}

/// Whether the piece stands at the place.
#[verifier::opaque]
pub open spec fn lies_at(bytes: Seq<u8>, at: int, piece: Seq<u8>) -> bool {
    0 <= at && at + piece.len() <= bytes.len() && bytes.subrange(at, at + piece.len()) == piece
}

proof fn lemma_lies_split(bytes: Seq<u8>, at: int, a: Seq<u8>, b: Seq<u8>)
    requires
        lies_at(bytes, at, a + b),
    ensures
        lies_at(bytes, at, a),
        lies_at(bytes, at + a.len(), b),
{
    reveal(lies_at);
    let whole = a + b;
    assert forall|i: int| 0 <= i < whole.len() implies bytes[at + i] == whole[i] by {
        assert(bytes.subrange(at, at + whole.len())[i] == whole[i]);
    }
    assert(bytes.subrange(at, at + a.len()) =~= a);
    assert(bytes.subrange(at + a.len(), at + a.len() + b.len()) =~= b) by {
        assert forall|i: int| 0 <= i < b.len() implies bytes[at + a.len() + i] == b[i] by {
            assert(bytes[at + (a.len() + i)] == whole[a.len() + i]);
        }
    }
}

proof fn lemma_number_at(bytes: Seq<u8>, at: int, n: u32)
    requires
        lies_at(bytes, at, be_bytes(n)),
    ensures
        number_at(bytes, at) == Some((n, at + 4)),
{
    reveal(lies_at);
    lemma_be_round_trip(n);
}

proof fn lemma_string_at(bytes: Seq<u8>, at: int, value: Seq<u8>, allow_empty: bool)
    requires
        lies_at(bytes, at, string_bytes(value)),
        valid_string(value),
        allow_empty || value.len() > 0,
    ensures
        string_at(bytes, at, allow_empty) == Some((value, at + string_bytes(value).len())),
{
    lemma_lies_split(bytes, at, be_bytes(value.len() as u32), value);
    lemma_number_at(bytes, at, value.len() as u32);
    reveal(lies_at);
}

proof fn lemma_strings_at(bytes: Seq<u8>, at: int, values: Seq<Seq<u8>>)
    requires
        lies_at(bytes, at, strings_bytes(values)),
        forall|i: int|
            0 <= i < values.len() ==> (#[trigger] values[i]).len() > 0 && valid_string(values[i]),
    ensures
        strings_at(bytes, at, values.len() as int) == Some(
            (values, at + strings_bytes(values).len()),
        ),
    decreases values.len(),
{
    if values.len() > 0 {
        let head = values.drop_last();
        lemma_lies_split(bytes, at, strings_bytes(head), string_bytes(values.last()));
        assert forall|i: int| 0 <= i < head.len() implies (#[trigger] head[i]).len() > 0
            && valid_string(head[i]) by {
            assert(head[i] == values[i]);
        }
        lemma_strings_at(bytes, at, head);
        assert(values[values.len() - 1].len() > 0);
        lemma_string_at(bytes, at + strings_bytes(head).len(), values.last(), false);
        assert(values =~= head.push(values.last()));
    } else {
        assert(values =~= Seq::<Seq<u8>>::empty());
    }
}

proof fn lemma_variables_at(bytes: Seq<u8>, at: int, variables: Seq<(Seq<u8>, Seq<u8>)>)
    requires
        lies_at(bytes, at, variables_bytes(variables)),
        forall|i: int| 0 <= i < variables.len() ==> valid_pair(#[trigger] variables[i]),
    ensures
        variables_at(bytes, at, variables.len() as int) == Ok::<
            (Seq<(Seq<u8>, Seq<u8>)>, int),
            SpawnError,
        >((variables, at + variables_bytes(variables).len())),
    decreases variables.len(),
{
    if variables.len() > 0 {
        let head = variables.drop_last();
        let (key, value) = variables.last();
        lemma_lies_split(
            bytes,
            at,
            variables_bytes(head),
            string_bytes(key) + string_bytes(value),
        );
        assert forall|i: int| 0 <= i < head.len() implies valid_pair(#[trigger] head[i]) by {
            assert(head[i] == variables[i]);
        }
        lemma_variables_at(bytes, at, head);
        let from = at + variables_bytes(head).len();
        assert(valid_pair(variables[variables.len() - 1]));
        lemma_lies_split(bytes, from, string_bytes(key), string_bytes(value));
        lemma_string_at(bytes, from, key, false);
        lemma_string_at(bytes, from + string_bytes(key).len(), value, true);
        assert(variables =~= head.push(variables.last()));
    } else {
        assert(variables =~= Seq::<(Seq<u8>, Seq<u8>)>::empty());
    }
}

proof fn lemma_target_number(target: i32)
    requires
        0 <= target <= MAX_TARGET_FD,
    ensures
        (target as u32) as i32 == target,
        target as u32 <= MAX_TARGET_FD,
{
}

proof fn lemma_targets_at(bytes: Seq<u8>, at: int, targets: Seq<i32>)
    requires
        lies_at(bytes, at, targets_bytes(targets)),
        targets.no_duplicates(),
        forall|i: int| 0 <= i < targets.len() ==> 0 <= #[trigger] targets[i] <= MAX_TARGET_FD,
    ensures
        targets_at(bytes, at, targets.len() as int) == Ok::<(Seq<i32>, int), SpawnError>(
            (targets, at + targets_bytes(targets).len()),
        ),
    decreases targets.len(),
{
    if targets.len() > 0 {
        let head = targets.drop_last();
        let last = targets.last();
        lemma_lies_split(bytes, at, targets_bytes(head), be_bytes(last as u32));
        assert forall|i: int| 0 <= i < head.len() implies 0 <= #[trigger] head[i]
            <= MAX_TARGET_FD by {
            assert(head[i] == targets[i]);
        }
        assert(head.no_duplicates()) by {
            assert forall|i: int, j: int|
                0 <= i < head.len() && 0 <= j < head.len() && i != j implies head[i]
                != head[j] by {
                assert(targets[i] != targets[j]);
            }
        }
        lemma_targets_at(bytes, at, head);
        assert(0 <= targets[targets.len() - 1] <= MAX_TARGET_FD);
        lemma_target_number(last);
        lemma_number_at(bytes, at + targets_bytes(head).len(), last as u32);
        assert(!head.contains(last)) by {
            if head.contains(last) {
                let i = choose|i: int| 0 <= i < head.len() && head[i] == last;
                assert(targets[i] != targets[targets.len() - 1]);
            }
        }
        assert(targets =~= head.push(last));
    } else {
        assert(targets =~= Seq::<i32>::empty());
    }
}

proof fn lemma_counts_in(
    bytes: Seq<u8>,
    cwd: Seq<u8>,
    argc: u32,
    envc: u32,
    mappings: u32,
    flags: u32,
    rest: Seq<u8>,
)
    requires
        lies_at(
            bytes,
            0,
            string_bytes(cwd) + (be_bytes(argc) + (be_bytes(envc) + (be_bytes(mappings) + (be_bytes(
                flags,
            ) + rest)))),
        ),
        valid_string(cwd),
    ensures
        counts_in(bytes) == Ok::<SpawnCounts, SpawnError>(
            SpawnCounts { cwd, argc, envc, mappings, flags, end: string_bytes(cwd).len() as int + 16 },
        ),
        lies_at(bytes, string_bytes(cwd).len() as int + 16, rest),
{
    let from_flags = be_bytes(flags) + rest;
    let from_mappings = be_bytes(mappings) + from_flags;
    let from_envc = be_bytes(envc) + from_mappings;
    let from_argc = be_bytes(argc) + from_envc;
    lemma_lies_split(bytes, 0, string_bytes(cwd), from_argc);
    lemma_string_at(bytes, 0, cwd, true);
    let a = string_bytes(cwd).len() as int;
    lemma_lies_split(bytes, a, be_bytes(argc), from_envc);
    lemma_number_at(bytes, a, argc);
    lemma_lies_split(bytes, a + 4, be_bytes(envc), from_mappings);
    lemma_number_at(bytes, a + 4, envc);
    lemma_lies_split(bytes, a + 8, be_bytes(mappings), from_flags);
    lemma_number_at(bytes, a + 8, mappings);
    lemma_lies_split(bytes, a + 12, be_bytes(flags), rest);
    lemma_number_at(bytes, a + 12, flags);
}

/// What follows the counts in the payload of a request.
spec fn spawn_tail(view: SpawnView) -> Seq<u8> {
    strings_bytes(view.argv) + (variables_bytes(view.environment) + (targets_bytes(view.targets)
        + be_bytes(view.caller_pid)))
}

proof fn lemma_spawn_tail(bytes: Seq<u8>, at: int, view: SpawnView)
    requires
        lies_at(bytes, at, spawn_tail(view)),
        can_ask(view),
    ensures
        ({
            let c = at + strings_bytes(view.argv).len();
            let d = c + variables_bytes(view.environment).len();
            let e = d + targets_bytes(view.targets).len();
            &&& strings_at(bytes, at, view.argv.len() as int) == Some((view.argv, c))
            &&& variables_at(bytes, c, view.environment.len() as int) == Ok::<
                (Seq<(Seq<u8>, Seq<u8>)>, int),
                SpawnError,
            >((view.environment, d))
            &&& targets_at(bytes, d, view.targets.len() as int) == Ok::<
                (Seq<i32>, int),
                SpawnError,
            >((view.targets, e))
            &&& number_at(bytes, e) == Some((view.caller_pid, e + 4))
            &&& e + 4 == at + spawn_tail(view).len()
        }),
{
    let last = be_bytes(view.caller_pid);
    let from_targets = targets_bytes(view.targets) + last;
    let from_variables = variables_bytes(view.environment) + from_targets;
    lemma_lies_split(bytes, at, strings_bytes(view.argv), from_variables);
    lemma_strings_at(bytes, at, view.argv);
    let c = at + strings_bytes(view.argv).len();
    lemma_lies_split(bytes, c, variables_bytes(view.environment), from_targets);
    lemma_variables_at(bytes, c, view.environment);
    let d = c + variables_bytes(view.environment).len();
    lemma_lies_split(bytes, d, targets_bytes(view.targets), last);
    lemma_targets_at(bytes, d, view.targets);
    let e = d + targets_bytes(view.targets).len();
    lemma_number_at(bytes, e, view.caller_pid);
}

proof fn lemma_spawn_head(view: SpawnView)
    requires
        can_ask(view),
    ensures
        counts_in(spawn_bytes(view)) == Ok::<SpawnCounts, SpawnError>(
            SpawnCounts {
                cwd: cwd_bytes(view.cwd),
                argc: view.argv.len() as u32,
                envc: view.environment.len() as u32,
                mappings: view.targets.len() as u32,
                flags: view.flags,
                end: string_bytes(cwd_bytes(view.cwd)).len() as int + 16,
            },
        ),
        lies_at(
            spawn_bytes(view),
            string_bytes(cwd_bytes(view.cwd)).len() as int + 16,
            spawn_tail(view),
        ),
        spawn_bytes(view).len() == string_bytes(cwd_bytes(view.cwd)).len() + 16 + spawn_tail(
            view,
        ).len(),
{
    let bytes = spawn_bytes(view);
    assert(lies_at(bytes, 0, bytes)) by {
        reveal(lies_at);
        assert(bytes.subrange(0, bytes.len() as int) =~= bytes);
    }
    lemma_counts_in(
        bytes,
        cwd_bytes(view.cwd),
        view.argv.len() as u32,
        view.environment.len() as u32,
        view.targets.len() as u32,
        view.flags,
        spawn_tail(view),
    );
}

proof fn lemma_spawn_pieces(bytes: Seq<u8>, view: SpawnView, counts: SpawnCounts, c: int, d: int, e: int)
    requires
        counts_in(bytes) == Ok::<SpawnCounts, SpawnError>(counts),
        0 < counts.argc <= MAX_SPAWN_ITEMS,
        counts.envc <= MAX_SPAWN_ITEMS,
        counts.mappings == view.targets.len(),
        counts.flags == view.flags,
        strings_at(bytes, counts.end, counts.argc as int) == Some((view.argv, c)),
        variables_at(bytes, c, counts.envc as int) == Ok::<
            (Seq<(Seq<u8>, Seq<u8>)>, int),
            SpawnError,
        >((view.environment, d)),
        targets_at(bytes, d, view.targets.len() as int) == Ok::<(Seq<i32>, int), SpawnError>(
            (view.targets, e),
        ),
        number_at(bytes, e) == Some((view.caller_pid, bytes.len() as int)),
        view.cwd == (if counts.cwd.len() == 0 {
            None
        } else {
            Some(counts.cwd)
        }),
    ensures
        spawn_in(bytes, view.targets.len() as int) == Ok::<SpawnView, SpawnError>(view),
{
}

/// The broker reads the request that was written.
pub proof fn lemma_spawn_round_trip(view: SpawnView)
    requires
        can_ask(view),
    ensures
        spawn_in(spawn_bytes(view), view.targets.len() as int) == Ok::<SpawnView, SpawnError>(
            view,
        ),
{
    let bytes = spawn_bytes(view);
    lemma_spawn_head(view);
    let b = string_bytes(cwd_bytes(view.cwd)).len() as int + 16;
    lemma_spawn_tail(bytes, b, view);
    let c = b + strings_bytes(view.argv).len();
    let d = c + variables_bytes(view.environment).len();
    let e = d + targets_bytes(view.targets).len();
    let counts = SpawnCounts {
        cwd: cwd_bytes(view.cwd),
        argc: view.argv.len() as u32,
        envc: view.environment.len() as u32,
        mappings: view.targets.len() as u32,
        flags: view.flags,
        end: b,
    };
    lemma_spawn_pieces(bytes, view, counts, c, d, e);
}

} // verus!
