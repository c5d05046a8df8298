//! Requests to start a program in a sandbox, as the privileged helper is given them.

use crate::bytes::{
    byte_views, bytes_eq, bytes_text, contains_byte, copy_bytes, find_byte, first_byte,
    lemma_byte_views_push, lemma_encode_contains, lemma_first_byte, lemma_text_in, slice_bytes,
    text_bytes, text_in,
};
use crate::numbers::{
    bounded_value, decimal, i32_value, lemma_decimal, lemma_signed_decimal, parse_i32, parse_u32,
    render_i32, render_u64, signed_decimal,
};
use crate::text::{
    concat, concat3, contains_char, join, join_texts, lemma_join_split, lemma_texts_push, split,
    split_text, text_eq, texts,
};
use vstd::prelude::*;
use vstd::utf8::encode_utf8;

verus! {

pub const MAX_MAPPED_FDS: usize = 32;

pub const MAX_TARGET_FD: i32 = 65_535;

pub const MAX_ARGUMENTS: usize = 1024;

pub const MAX_ENVIRONMENT: usize = 512;

/// How far a program is kept apart from the rest of the system.
#[derive(Debug, Clone, Copy, PartialEq, Eq, Structural)]
pub enum JailMode {
    Direct,
    Sandbox,
    NoNetwork,
}

pub open spec fn mode_name(mode: JailMode) -> Seq<char> {
    match mode {
        JailMode::Direct => "direct"@,
        JailMode::Sandbox => "sandbox"@,
        JailMode::NoNetwork => "no-network"@,
    }
}

/// The parts of a request.
#[derive(Debug, Clone, Copy, PartialEq, Eq, Structural)]
pub enum Field {
    Root,
    RuntimeRoot,
    RootDevice,
    RootInode,
    Uid,
    Gid,
    Groups,
    WorkingDirectory,
    IsolationMode,
    MappedDescriptors,
    EnvironmentCount,
    EnvironmentEntry,
}

/// What a part of a request is called.
pub open spec fn field_label(field: Field) -> Seq<char> {
    match field {
        Field::Root => "sandbox root"@,
        Field::RuntimeRoot => "runtime root"@,
        Field::RootDevice => "sandbox root device"@,
        Field::RootInode => "sandbox root inode"@,
        Field::Uid => "uid"@,
        Field::Gid => "gid"@,
        Field::Groups => "supplementary groups"@,
        Field::WorkingDirectory => "working directory"@,
        Field::IsolationMode => "launch isolation mode"@,
        Field::MappedDescriptors => "mapped file descriptors"@,
        Field::EnvironmentCount => "environment count"@,
        Field::EnvironmentEntry => "environment entry"@,
    }
}

impl Field {
    pub fn label(self) -> (r: &'static str)
        ensures
            r@ == field_label(self),
    {
        match self {
            Field::Root => "sandbox root",
            Field::RuntimeRoot => "runtime root",
            Field::RootDevice => "sandbox root device",
            Field::RootInode => "sandbox root inode",
            Field::Uid => "uid",
            Field::Gid => "gid",
            Field::Groups => "supplementary groups",
            Field::WorkingDirectory => "working directory",
            Field::IsolationMode => "launch isolation mode",
            Field::MappedDescriptors => "mapped file descriptors",
            Field::EnvironmentCount => "environment count",
            Field::EnvironmentEntry => "environment entry",
        }
    }
}

/// Why arguments are no request.
#[derive(Debug, Clone, Copy, PartialEq, Eq, Structural)]
pub enum RequestError {
    Missing(Field),
    NotUtf8(Field),
    Invalid(Field),
    InvalidMode,
    InvalidGroup,
    DuplicateGroup,
    InvalidDescriptor,
    InvalidDescriptors,
    TooMuchEnvironment,
    InvalidEnvironment,
    MissingSeparator,
    InvalidArguments,
}

impl RequestError {
    pub fn message(self) -> (r: String)
        ensures
            r@ == (match self {
                RequestError::Missing(field) => "missing "@ + field_label(field),
                RequestError::NotUtf8(field) => field_label(field) + (if field == Field::Groups
                    || field == Field::MappedDescriptors {
                    " are not UTF-8"@
                } else {
                    " is not UTF-8"@
                }),
                RequestError::Invalid(field) => "invalid "@ + field_label(field),
                RequestError::InvalidMode => "invalid launch isolation mode"@,
                RequestError::InvalidGroup => "invalid supplementary group"@,
                RequestError::DuplicateGroup => "duplicate supplementary group"@,
                RequestError::InvalidDescriptor => "invalid mapped file descriptor"@,
                RequestError::InvalidDescriptors => "invalid mapped file descriptors"@,
                RequestError::TooMuchEnvironment => "too many launch environment entries"@,
                RequestError::InvalidEnvironment => "invalid launch environment entry"@,
                RequestError::MissingSeparator =>
                    "secure launch request is missing argument separator"@,
                RequestError::InvalidArguments => "invalid secure launch program arguments"@,
            }),
    {
        match self {
            RequestError::Missing(field) => concat("missing ", field.label()),
            RequestError::NotUtf8(field) => match field {
                Field::Groups => concat(field.label(), " are not UTF-8"),
                Field::MappedDescriptors => concat(field.label(), " are not UTF-8"),
                _ => concat(field.label(), " is not UTF-8"),
            },
            RequestError::Invalid(field) => concat("invalid ", field.label()),
            RequestError::InvalidMode => "invalid launch isolation mode".to_owned(),
            RequestError::InvalidGroup => "invalid supplementary group".to_owned(),
            RequestError::DuplicateGroup => "duplicate supplementary group".to_owned(),
            RequestError::InvalidDescriptor => "invalid mapped file descriptor".to_owned(),
            RequestError::InvalidDescriptors => "invalid mapped file descriptors".to_owned(),
            RequestError::TooMuchEnvironment => "too many launch environment entries".to_owned(),
            RequestError::InvalidEnvironment => "invalid launch environment entry".to_owned(),
            RequestError::MissingSeparator =>
                "secure launch request is missing argument separator".to_owned(),
            RequestError::InvalidArguments => "invalid secure launch program arguments".to_owned(),
        }
    }
}

/// A request to start a program in a sandbox.
#[derive(Debug)]
pub struct Request {
    pub root: Vec<u8>,
    pub runtime_root: Vec<u8>,
    pub root_device: u64,
    pub root_inode: u64,
    pub uid: u32,
    pub gid: u32,
    pub groups: Vec<u32>,
    pub cwd: Option<Vec<u8>>,
    pub jail_mode: JailMode,
    pub mapped_fds: Vec<i32>,
    pub environment: Vec<Vec<u8>>,
    pub argv: Vec<Vec<u8>>,
}

pub ghost struct RequestView {
    pub root: Seq<u8>,
    pub runtime_root: Seq<u8>,
    pub root_device: u64,
    pub root_inode: u64,
    pub uid: u32,
    pub gid: u32,
    pub groups: Seq<u32>,
    pub cwd: Option<Seq<u8>>,
    pub jail_mode: JailMode,
    pub mapped_fds: Seq<i32>,
    pub environment: Seq<Seq<u8>>,
    pub argv: Seq<Seq<u8>>,
}

pub open spec fn bytes_view(v: Option<Vec<u8>>) -> Option<Seq<u8>> {
    match v {
        Some(b) => Some(b@),
        None => None,
    }
}

impl View for Request {
    type V = RequestView;

    open spec fn view(&self) -> RequestView {
        RequestView {
            root: self.root@,
            runtime_root: self.runtime_root@,
            root_device: self.root_device,
            root_inode: self.root_inode,
            uid: self.uid,
            gid: self.gid,
            groups: self.groups@,
            cwd: bytes_view(self.cwd),
            jail_mode: self.jail_mode,
            mapped_fds: self.mapped_fds@,
            environment: byte_views(self.environment@),
            argv: byte_views(self.argv@),
        }
    }
}

/// The argument at a place.
pub open spec fn argument(args: Seq<Seq<u8>>, i: int, field: Field) -> Result<
    Seq<u8>,
    RequestError,
> {
    if i < args.len() {
        Ok(args[i])
    } else {
        Err(RequestError::Missing(field))
    }
}

/// The number of at most `max` in the argument at a place.
pub open spec fn number_argument(
    args: Seq<Seq<u8>>,
    i: int,
    field: Field,
    max: nat,
) -> Result<nat, RequestError> {
    match argument(args, i, field) {
        Err(e) => Err(e),
        Ok(bytes) => match text_in(bytes) {
            None => Err(RequestError::NotUtf8(field)),
            Some(text) => match bounded_value(text, max) {
                None => Err(RequestError::Invalid(field)),
                Some(n) => Ok(n),
            },
        },
    }
}

/// The groups in a list of pieces: each a number, none twice.
pub open spec fn group_list(pieces: Seq<Seq<char>>) -> Result<Seq<u32>, RequestError>
    decreases pieces.len(),
{
    if pieces.len() == 0 {
        Ok(Seq::empty())
    } else {
        match group_list(pieces.drop_last()) {
            Err(e) => Err(e),
            Ok(before) => match bounded_value(pieces.last(), u32::MAX as nat) {
                None => Err(RequestError::InvalidGroup),
                Some(n) => if before.contains(n as u32) {
                    Err(RequestError::DuplicateGroup)
                } else {
                    Ok(before.push(n as u32))
                },
            },
        }
    }
}

/// The numbers in a list of pieces.
pub open spec fn descriptor_list(pieces: Seq<Seq<char>>) -> Result<Seq<i32>, RequestError>
    decreases pieces.len(),
{
    if pieces.len() == 0 {
        Ok(Seq::empty())
    } else {
        match descriptor_list(pieces.drop_last()) {
            Err(e) => Err(e),
            Ok(before) => match i32_value(pieces.last()) {
                None => Err(RequestError::InvalidDescriptor),
                Some(n) => Ok(before.push(n as i32)),
            },
        }
    }
}

/// Whether the descriptors can be the targets of a mapping.
pub open spec fn valid_targets(fds: Seq<i32>) -> bool {
    &&& fds.len() <= MAX_MAPPED_FDS
    &&& forall|i: int| 0 <= i < fds.len() ==> 0 <= #[trigger] fds[i] <= MAX_TARGET_FD
    &&& fds.no_duplicates()
}

pub open spec fn groups_in(bytes: Seq<u8>) -> Result<Seq<u32>, RequestError> {
    match text_in(bytes) {
        None => Err(RequestError::NotUtf8(Field::Groups)),
        Some(text) => if text.len() == 0 {
            Ok(Seq::empty())
        } else {
            group_list(split(text, ','))
        },
    }
}

pub open spec fn descriptors_in(bytes: Seq<u8>) -> Result<Seq<i32>, RequestError> {
    match text_in(bytes) {
        None => Err(RequestError::NotUtf8(Field::MappedDescriptors)),
        Some(text) => if text.len() == 0 {
            Ok(Seq::empty())
        } else {
            match descriptor_list(split(text, ',')) {
                Err(e) => Err(e),
                Ok(fds) => if valid_targets(fds) {
                    Ok(fds)
                } else {
                    Err(RequestError::InvalidDescriptors)
                },
            }
        },
    }
}

pub open spec fn mode_in(bytes: Seq<u8>) -> Result<JailMode, RequestError> {
    match text_in(bytes) {
        None => Err(RequestError::InvalidMode),
        Some(text) => if text == "direct"@ {
            Ok(JailMode::Direct)
        } else if text == "sandbox"@ {
            Ok(JailMode::Sandbox)
        } else if text == "no-network"@ {
            Ok(JailMode::NoNetwork)
        } else {
            Err(RequestError::InvalidMode)
        },
    }
}

/// Whether an entry has a name before its first `=`.
pub open spec fn valid_entry(entry: Seq<u8>) -> bool {
    entry.contains(0x3d) && entry[0] != 0x3d
}

/// The entries of the environment, or what is wrong with the first that is not there or not
/// valid.
pub open spec fn entries_from(args: Seq<Seq<u8>>, from: int, count: int) -> Result<
    Seq<Seq<u8>>,
    RequestError,
>
    decreases count,
{
    if count <= 0 {
        Ok(Seq::empty())
    } else {
        match entries_from(args, from, count - 1) {
            Err(e) => Err(e),
            Ok(before) => match argument(args, from + count - 1, Field::EnvironmentEntry) {
                Err(e) => Err(e),
                Ok(entry) => if valid_entry(entry) {
                    Ok(before.push(entry))
                } else {
                    Err(RequestError::InvalidEnvironment)
                },
            },
        }
    }
}

/// The program and its arguments after the separator.
pub open spec fn program_from(args: Seq<Seq<u8>>, from: int) -> Result<
    Seq<Seq<u8>>,
    RequestError,
> {
    if from >= args.len() || args[from] != encode_utf8("--"@) {
        Err(RequestError::MissingSeparator)
    } else {
        let argv = args.skip(from + 1);
        if argv.len() == 0 || argv.len() > MAX_ARGUMENTS {
            Err(RequestError::InvalidArguments)
        } else {
            Ok(argv)
        }
    }
}

/// What stands before the environment in a request.
pub ghost struct HeadView {
    pub root: Seq<u8>,
    pub runtime_root: Seq<u8>,
    pub root_device: nat,
    pub root_inode: nat,
    pub uid: nat,
    pub gid: nat,
    pub groups: Seq<u32>,
    pub cwd: Option<Seq<u8>>,
    pub jail_mode: JailMode,
    pub mapped_fds: Seq<i32>,
}

/// Where and as whom to start.
pub open spec fn identity_in(args: Seq<Seq<u8>>) -> Result<
    (Seq<u8>, Seq<u8>, nat, nat, nat, nat),
    RequestError,
> {
    match argument(args, 1, Field::Root) {
        Err(e) => Err(e),
        Ok(root) => match argument(args, 2, Field::RuntimeRoot) {
            Err(e) => Err(e),
            Ok(runtime_root) => match number_argument(
                args,
                3,
                Field::RootDevice,
                u64::MAX as nat,
            ) {
                Err(e) => Err(e),
                Ok(device) => match number_argument(args, 4, Field::RootInode, u64::MAX as nat) {
                    Err(e) => Err(e),
                    Ok(inode) => match number_argument(args, 5, Field::Uid, u32::MAX as nat) {
                        Err(e) => Err(e),
                        Ok(uid) => match number_argument(args, 6, Field::Gid, u32::MAX as nat) {
                            Err(e) => Err(e),
                            Ok(gid) => Ok((root, runtime_root, device, inode, uid, gid)),
                        },
                    },
                },
            },
        },
    }
}

pub open spec fn cwd_in(bytes: Seq<u8>) -> Option<Seq<u8>> {
    if bytes == encode_utf8("-"@) {
        None
    } else {
        Some(bytes)
    }
}

/// How to start.
pub open spec fn manner_in(args: Seq<Seq<u8>>) -> Result<
    (Seq<u32>, Option<Seq<u8>>, JailMode, Seq<i32>),
    RequestError,
> {
    match argument(args, 7, Field::Groups) {
        Err(e) => Err(e),
        Ok(groups_bytes) => match groups_in(groups_bytes) {
            Err(e) => Err(e),
            Ok(groups) => match argument(args, 8, Field::WorkingDirectory) {
                Err(e) => Err(e),
                Ok(cwd) => match argument(args, 9, Field::IsolationMode) {
                    Err(e) => Err(e),
                    Ok(mode_bytes) => match mode_in(mode_bytes) {
                        Err(e) => Err(e),
                        Ok(mode) => match argument(args, 10, Field::MappedDescriptors) {
                            Err(e) => Err(e),
                            Ok(fds_bytes) => match descriptors_in(fds_bytes) {
                                Err(e) => Err(e),
                                Ok(fds) => Ok((groups, cwd_in(cwd), mode, fds)),
                            },
                        },
                    },
                },
            },
        },
    }
}

/// The request that the arguments make, or the first thing that is wrong with them.
pub open spec fn request_in(args: Seq<Seq<u8>>) -> Result<RequestView, RequestError> {
    match identity_in(args) {
        Err(e) => Err(e),
        Ok((root, runtime_root, device, inode, uid, gid)) => match manner_in(args) {
            Err(e) => Err(e),
            Ok((groups, cwd, jail_mode, mapped_fds)) => match number_argument(
                args,
                11,
                Field::EnvironmentCount,
                u64::MAX as nat,
            ) {
                Err(e) => Err(e),
                Ok(count) => if count > MAX_ENVIRONMENT {
                    Err(RequestError::TooMuchEnvironment)
                } else {
                    match entries_from(args, 12, count as int) {
                        Err(e) => Err(e),
                        Ok(environment) => match program_from(args, 12 + count as int) {
                            Err(e) => Err(e),
                            Ok(argv) => Ok(
                                RequestView {
                                    root,
                                    runtime_root,
                                    root_device: device as u64,
                                    root_inode: inode as u64,
                                    uid: uid as u32,
                                    gid: gid as u32,
                                    groups,
                                    cwd,
                                    jail_mode,
                                    mapped_fds,
                                    environment,
                                    argv,
                                },
                            ),
                        },
                    }
                },
            },
        },
    }
}

fn take_argument(args: &[Vec<u8>], i: usize, field: Field) -> (r: Result<Vec<u8>, RequestError>)
    ensures
        match argument(byte_views(args@), i as int, field) {
            Ok(bytes) => r matches Ok(got) && got@ == bytes,
            Err(e) => r == Err::<Vec<u8>, RequestError>(e),
        },
{
    if i < args.len() {
        Ok(copy_bytes(args[i].as_slice()))
    } else {
        Err(RequestError::Missing(field))
    }
}

fn take_number(args: &[Vec<u8>], i: usize, field: Field, max: u64) -> (r: Result<
    u64,
    RequestError,
>)
    ensures
        match number_argument(byte_views(args@), i as int, field, max as nat) {
            Ok(n) => r matches Ok(got) && got == n,
            Err(e) => r == Err::<u64, RequestError>(e),
        },
{
    let bytes = match take_argument(args, i, field) {
        Ok(bytes) => bytes,
        Err(e) => {
            return Err(e);
        },
    };
    match bytes_text(bytes.as_slice()) {
        Some(text) => match crate::numbers::parse_bounded(&text, max) {
            Some(n) => Ok(n),
            None => Err(RequestError::Invalid(field)),
        },
        None => Err(RequestError::NotUtf8(field)),
    }
}

fn contains_u32(values: &[u32], x: u32) -> (r: bool)
    ensures
        r == values@.contains(x),
{
    let mut i: usize = 0;
    while i < values.len()
        invariant
            i <= values@.len(),
            forall|j: int| 0 <= j < i ==> values@[j] != x,
        decreases values@.len() - i,
    {
        if values[i] == x {
            return true;
        }
        i += 1;
    }
    false
}

proof fn lemma_first_bad_group(pieces: Seq<Seq<char>>, n: int)
    requires
        0 <= n <= pieces.len(),
        group_list(pieces.take(n)) is Err,
    ensures
        group_list(pieces) == group_list(pieces.take(n)),
    decreases pieces.len() - n,
{
    if n == pieces.len() {
        assert(pieces.take(n) =~= pieces);
    } else {
        assert(pieces.take(n + 1).drop_last() =~= pieces.take(n));
        lemma_first_bad_group(pieces, n + 1);
    }
}

proof fn lemma_first_bad_descriptor(pieces: Seq<Seq<char>>, n: int)
    requires
        0 <= n <= pieces.len(),
        descriptor_list(pieces.take(n)) is Err,
    ensures
        descriptor_list(pieces) == descriptor_list(pieces.take(n)),
    decreases pieces.len() - n,
{
    if n == pieces.len() {
        assert(pieces.take(n) =~= pieces);
    } else {
        assert(pieces.take(n + 1).drop_last() =~= pieces.take(n));
        lemma_first_bad_descriptor(pieces, n + 1);
    }
}

/// Reads supplementary groups.
pub fn parse_groups(value: &[u8]) -> (r: Result<Vec<u32>, RequestError>)
    ensures
        match groups_in(value@) {
            Ok(groups) => r matches Ok(got) && got@ == groups,
            Err(e) => r == Err::<Vec<u32>, RequestError>(e),
        },
{
    let text = match bytes_text(value) {
        Some(text) => text,
        None => {
            return Err(RequestError::NotUtf8(Field::Groups));
        },
    };
    let mut out: Vec<u32> = Vec::new();
    if text.as_str().unicode_len() == 0 {
        assert(out@ =~= Seq::<u32>::empty());
        return Ok(out);
    }
    let pieces = split_text(&text, ',');
    let ghost all = texts(pieces@);
    let mut i: usize = 0;
    assert(all.take(0) =~= Seq::<Seq<char>>::empty());
    assert(out@ =~= Seq::<u32>::empty());
    while i < pieces.len()
        invariant
            i <= pieces@.len(),
            all == texts(pieces@),
            groups_in(value@) == group_list(all),
            group_list(all.take(i as int)) == Ok::<Seq<u32>, RequestError>(out@),
        decreases pieces@.len() - i,
    {
        proof {
            let next = all.take(i + 1);
            assert(next.drop_last() =~= all.take(i as int));
            assert(next.last() == pieces@[i as int]@);
        }
        match parse_u32(&pieces[i]) {
            Some(n) => {
                if contains_u32(out.as_slice(), n) {
                    proof {
                        lemma_first_bad_group(all, i + 1);
                    }
                    return Err(RequestError::DuplicateGroup);
                }
                out.push(n);
            },
            None => {
                proof {
                    lemma_first_bad_group(all, i + 1);
                }
                return Err(RequestError::InvalidGroup);
            },
        }
        i += 1;
    }
    assert(all.take(i as int) =~= all);
    Ok(out)
}

/// Whether the descriptors can be the targets of a mapping.
pub fn are_valid_targets(fds: &[i32]) -> (r: bool)
    ensures
        r == valid_targets(fds@),
{
    if fds.len() > MAX_MAPPED_FDS {
        return false;
    }
    let mut i: usize = 0;
    while i < fds.len()
        invariant
            i <= fds@.len() <= MAX_MAPPED_FDS,
            forall|j: int| 0 <= j < i ==> 0 <= #[trigger] fds@[j] <= MAX_TARGET_FD,
            forall|j: int, k: int| 0 <= j < i && 0 <= k < i && j != k ==> fds@[j] != fds@[k],
        decreases fds@.len() - i,
    {
        if fds[i] < 0 || fds[i] > MAX_TARGET_FD {
            return false;
        }
        let mut k: usize = 0;
        while k < i
            invariant
                k <= i < fds@.len(),
                forall|j: int| 0 <= j < k ==> fds@[j] != fds@[i as int],
            decreases i - k,
        {
            if fds[k] == fds[i] {
                return false;
            }
            k += 1;
        }
        i += 1;
    }
    true
}

/// Reads the descriptors that a program is to have.
pub fn parse_mapped_fds(value: &[u8]) -> (r: Result<Vec<i32>, RequestError>)
    ensures
        match descriptors_in(value@) {
            Ok(fds) => r matches Ok(got) && got@ == fds,
            Err(e) => r == Err::<Vec<i32>, RequestError>(e),
        },
{
    let text = match bytes_text(value) {
        Some(text) => text,
        None => {
            return Err(RequestError::NotUtf8(Field::MappedDescriptors));
        },
    };
    let mut out: Vec<i32> = Vec::new();
    if text.as_str().unicode_len() == 0 {
        assert(out@ =~= Seq::<i32>::empty());
        return Ok(out);
    }
    let pieces = split_text(&text, ',');
    let ghost all = texts(pieces@);
    let mut i: usize = 0;
    assert(all.take(0) =~= Seq::<Seq<char>>::empty());
    assert(out@ =~= Seq::<i32>::empty());
    while i < pieces.len()
        invariant
            i <= pieces@.len(),
            all == texts(pieces@),
            text_in(value@) == Some(text@),
            text@.len() > 0,
            all == split(text@, ','),
            descriptor_list(all.take(i as int)) == Ok::<Seq<i32>, RequestError>(out@),
        decreases pieces@.len() - i,
    {
        proof {
            let next = all.take(i + 1);
            assert(next.drop_last() =~= all.take(i as int));
            assert(next.last() == pieces@[i as int]@);
        }
        match parse_i32(&pieces[i]) {
            Some(n) => {
                out.push(n);
            },
            None => {
                proof {
                    lemma_first_bad_descriptor(all, i + 1);
                }
                return Err(RequestError::InvalidDescriptor);
            },
        }
        i += 1;
    }
    assert(all.take(i as int) =~= all);
    if are_valid_targets(out.as_slice()) {
        Ok(out)
    } else {
        Err(RequestError::InvalidDescriptors)
    }
}

/// Reads how far a program is kept apart.
pub fn parse_jail_mode(value: &[u8]) -> (r: Result<JailMode, RequestError>)
    ensures
        r == mode_in(value@),
{
    match bytes_text(value) {
        Some(text) => if text_eq(&text, "direct") {
            Ok(JailMode::Direct)
        } else if text_eq(&text, "sandbox") {
            Ok(JailMode::Sandbox)
        } else if text_eq(&text, "no-network") {
            Ok(JailMode::NoNetwork)
        } else {
            Err(RequestError::InvalidMode)
        },
        None => Err(RequestError::InvalidMode),
    }
}

/// Whether an entry has a name before its first `=`.
pub fn validate_environment(entry: &[u8]) -> (r: bool)
    ensures
        r == valid_entry(entry@),
{
    contains_byte(entry, 0x3d) && entry[0] != 0x3d
}

/// The name and the value of an entry: what stands before and after its first `=`.
pub fn split_environment(entry: &[u8]) -> (r: Option<(Vec<u8>, Vec<u8>)>)
    ensures
        r is Some <==> entry@.contains(0x3d),
        r matches Some(pair) ==> pair.0@ == entry@.take(first_byte(entry@, 0x3d) as int) && pair.1@
            == entry@.skip(first_byte(entry@, 0x3d) as int + 1),
        r matches Some(pair) ==> pair.0@ + seq![0x3du8] + pair.1@ == entry@ && !pair.0@.contains(
            0x3d,
        ),
{
    let at: usize = find_byte(entry, 0x3d);
    proof {
        lemma_first_byte(entry@, 0x3d);
    }
    if at < entry.len() {
        let name = slice_bytes(entry, 0, at);
        let value = slice_bytes(entry, at + 1, entry.len());
        proof {
            assert(name@ =~= entry@.take(at as int));
            assert(value@ =~= entry@.skip(at + 1));
            assert(name@ + seq![0x3du8] + value@ =~= entry@);
            if name@.contains(0x3d) {
                let j = choose|j: int| 0 <= j < name@.len() && name@[j] == 0x3d;
                assert(entry@[j] == 0x3d);
            }
        }
        Some((name, value))
    } else {
        None
    }
}

fn take_environment(args: &[Vec<u8>], count: usize) -> (r: Result<Vec<Vec<u8>>, RequestError>)
    requires
        count <= MAX_ENVIRONMENT,
    ensures
        match entries_from(byte_views(args@), 12, count as int) {
            Ok(entries) => r matches Ok(got) && byte_views(got@) == entries,
            Err(e) => r == Err::<Vec<Vec<u8>>, RequestError>(e),
        },
{
    let ghost all = byte_views(args@);
    let mut out: Vec<Vec<u8>> = Vec::new();
    let mut i: usize = 0;
    assert(byte_views(out@) =~= Seq::<Seq<u8>>::empty());
    while i < count
        invariant
            i <= count <= MAX_ENVIRONMENT,
            all == byte_views(args@),
            entries_from(all, 12, i as int) == Ok::<Seq<Seq<u8>>, RequestError>(byte_views(out@)),
        decreases count - i,
    {
        let entry = match take_argument(args, 12 + i, Field::EnvironmentEntry) {
            Ok(entry) => entry,
            Err(e) => {
                proof {
                    lemma_first_bad_entry(all, i + 1, count as int);
                }
                return Err(e);
            },
        };
        if !validate_environment(entry.as_slice()) {
            proof {
                lemma_first_bad_entry(all, i + 1, count as int);
            }
            return Err(RequestError::InvalidEnvironment);
        }
        proof {
            lemma_byte_views_push(out@, entry);
        }
        out.push(entry);
        i += 1;
    }
    Ok(out)
}

proof fn lemma_first_bad_entry(args: Seq<Seq<u8>>, n: int, count: int)
    requires
        0 <= n <= count,
        entries_from(args, 12, n) is Err,
    ensures
        entries_from(args, 12, count) == entries_from(args, 12, n),
    decreases count - n,
{
    if n < count {
        lemma_first_bad_entry(args, n + 1, count);
    }
}

fn take_program(args: &[Vec<u8>], from: usize) -> (r: Result<Vec<Vec<u8>>, RequestError>)
    ensures
        match program_from(byte_views(args@), from as int) {
            Ok(argv) => r matches Ok(got) && byte_views(got@) == argv,
            Err(e) => r == Err::<Vec<Vec<u8>>, RequestError>(e),
        },
{
    let ghost all = byte_views(args@);
    let separator = text_bytes("--");
    if from >= args.len() || !bytes_eq(args[from].as_slice(), separator.as_slice()) {
        return Err(RequestError::MissingSeparator);
    }
    let first: usize = from + 1;
    let count: usize = args.len() - first;
    if count == 0 || count > MAX_ARGUMENTS {
        return Err(RequestError::InvalidArguments);
    }
    let mut out: Vec<Vec<u8>> = Vec::new();
    let mut i: usize = first;
    let ghost goal = all.skip(first as int);
    assert(byte_views(out@) =~= goal.take(0));
    while i < args.len()
        invariant
            first <= i <= args@.len(),
            all == byte_views(args@),
            goal == all.skip(first as int),
            byte_views(out@) == goal.take(i - first),
        decreases args@.len() - i,
    {
        let arg = copy_bytes(args[i].as_slice());
        proof {
            lemma_byte_views_push(out@, arg);
            assert(goal.take(i - first + 1) =~= goal.take(i - first).push(arg@));
        }
        out.push(arg);
        i += 1;
    }
    assert(goal.take(i - first) =~= goal);
    Ok(out)
}

impl Request {
    /// Reads the arguments of the helper; the first is its own name.
    pub fn parse(args: &[Vec<u8>]) -> (r: Result<Request, RequestError>)
        ensures
            match request_in(byte_views(args@)) {
                Ok(view) => r matches Ok(got) && got@ == view,
                Err(e) => r matches Err(got) && got == e,
            },
    {
        let root = match take_argument(args, 1, Field::Root) {
            Ok(v) => v,
            Err(e) => {
                return Err(e);
            },
        };
        let runtime_root = match take_argument(args, 2, Field::RuntimeRoot) {
            Ok(v) => v,
            Err(e) => {
                return Err(e);
            },
        };
        let root_device: u64 = match take_number(args, 3, Field::RootDevice, u64::MAX) {
            Ok(v) => v,
            Err(e) => {
                return Err(e);
            },
        };
        let root_inode: u64 = match take_number(args, 4, Field::RootInode, u64::MAX) {
            Ok(v) => v,
            Err(e) => {
                return Err(e);
            },
        };
        let uid: u64 = match take_number(args, 5, Field::Uid, u32::MAX as u64) {
            Ok(v) => v,
            Err(e) => {
                return Err(e);
            },
        };
        let gid: u64 = match take_number(args, 6, Field::Gid, u32::MAX as u64) {
            Ok(v) => v,
            Err(e) => {
                return Err(e);
            },
        };
        assert(identity_in(byte_views(args@)) == Ok::<
            (Seq<u8>, Seq<u8>, nat, nat, nat, nat),
            RequestError,
        >(
            (
                root@,
                runtime_root@,
                root_device as nat,
                root_inode as nat,
                uid as nat,
                gid as nat,
            ),
        ));
        let (groups, cwd, jail_mode, mapped_fds) = match Self::parse_manner(args) {
            Ok(v) => v,
            Err(e) => {
                return Err(e);
            },
        };
        let count: u64 = match take_number(args, 11, Field::EnvironmentCount, u64::MAX) {
            Ok(v) => v,
            Err(e) => {
                return Err(e);
            },
        };
        if count > MAX_ENVIRONMENT as u64 {
            return Err(RequestError::TooMuchEnvironment);
        }
        let environment = match take_environment(args, count as usize) {
            Ok(v) => v,
            Err(e) => {
                return Err(e);
            },
        };
        let argv = match take_program(args, 12 + count as usize) {
            Ok(v) => v,
            Err(e) => {
                return Err(e);
            },
        };
        Ok(
            Request {
                root,
                runtime_root,
                root_device,
                root_inode,
                uid: uid as u32,
                gid: gid as u32,
                groups,
                cwd,
                jail_mode,
                mapped_fds,
                environment,
                argv,
            },
        )
    }

    fn parse_manner(args: &[Vec<u8>]) -> (r: Result<
        (Vec<u32>, Option<Vec<u8>>, JailMode, Vec<i32>),
        RequestError,
    >)
        ensures
            match manner_in(byte_views(args@)) {
                Ok(m) => r matches Ok(got) && (got.0@, bytes_view(got.1), got.2, got.3@) == m,
                Err(e) => r matches Err(got) && got == e,
            },
    {
        let groups_bytes = match take_argument(args, 7, Field::Groups) {
            Ok(v) => v,
            Err(e) => {
                return Err(e);
            },
        };
        let groups = match parse_groups(groups_bytes.as_slice()) {
            Ok(v) => v,
            Err(e) => {
                return Err(e);
            },
        };
        let cwd_bytes = match take_argument(args, 8, Field::WorkingDirectory) {
            Ok(v) => v,
            Err(e) => {
                return Err(e);
            },
        };
        let dash = text_bytes("-");
        let cwd = if bytes_eq(cwd_bytes.as_slice(), dash.as_slice()) {
            None
        } else {
            Some(cwd_bytes)
        };
        let mode_bytes = match take_argument(args, 9, Field::IsolationMode) {
            Ok(v) => v,
            Err(e) => {
                return Err(e);
            },
        };
        let jail_mode = match parse_jail_mode(mode_bytes.as_slice()) {
            Ok(v) => v,
            Err(e) => {
                return Err(e);
            },
        };
        let fds_bytes = match take_argument(args, 10, Field::MappedDescriptors) {
            Ok(v) => v,
            Err(e) => {
                return Err(e);
            },
        };
        let mapped_fds = match parse_mapped_fds(fds_bytes.as_slice()) {
            Ok(v) => v,
            Err(e) => {
                return Err(e);
            },
        };
        Ok((groups, cwd, jail_mode, mapped_fds))
    }
}

/// The groups in decimal.
pub open spec fn group_texts(groups: Seq<u32>) -> Seq<Seq<char>> {
    Seq::new(groups.len(), |i: int| decimal(groups[i] as nat))
}

/// The descriptors in decimal.
pub open spec fn descriptor_texts(fds: Seq<i32>) -> Seq<Seq<char>> {
    Seq::new(fds.len(), |i: int| signed_decimal(fds[i] as int))
}

/// What stands before the environment in the arguments of the helper.
pub open spec fn wire_head(request: RequestView) -> Seq<Seq<u8>> {
    seq![
        encode_utf8("secure-launch"@),
        request.root,
        request.runtime_root,
        encode_utf8(decimal(request.root_device as nat)),
        encode_utf8(decimal(request.root_inode as nat)),
        encode_utf8(decimal(request.uid as nat)),
        encode_utf8(decimal(request.gid as nat)),
        encode_utf8(join(group_texts(request.groups), ","@)),
        match request.cwd {
            Some(cwd) => cwd,
            None => encode_utf8("-"@),
        },
        encode_utf8(mode_name(request.jail_mode)),
        encode_utf8(join(descriptor_texts(request.mapped_fds), ","@)),
        encode_utf8(decimal(request.environment.len())),
    ]
}

/// The arguments of the helper that make the request.
pub open spec fn wire_args(request: RequestView) -> Seq<Seq<u8>> {
    wire_head(request) + request.environment + seq![encode_utf8("--"@)] + request.argv
}

fn render_groups(groups: &[u32]) -> (r: String)
    ensures
        r@ == join(group_texts(groups@), ","@),
{
    let ghost goal = group_texts(groups@);
    let mut out: Vec<String> = Vec::new();
    let mut i: usize = 0;
    assert(texts(out@) =~= goal.take(0));
    while i < groups.len()
        invariant
            i <= groups@.len(),
            goal == group_texts(groups@),
            texts(out@) == goal.take(i as int),
        decreases groups@.len() - i,
    {
        let text = render_u64(groups[i] as u64);
        proof {
            lemma_texts_push(out@, text);
            assert(goal.take(i + 1) =~= goal.take(i as int).push(text@));
        }
        out.push(text);
        i += 1;
    }
    assert(goal.take(i as int) =~= goal);
    join_texts(out.as_slice(), ",")
}

fn render_descriptors(fds: &[i32]) -> (r: String)
    ensures
        r@ == join(descriptor_texts(fds@), ","@),
{
    let ghost goal = descriptor_texts(fds@);
    let mut out: Vec<String> = Vec::new();
    let mut i: usize = 0;
    assert(texts(out@) =~= goal.take(0));
    while i < fds.len()
        invariant
            i <= fds@.len(),
            goal == descriptor_texts(fds@),
            texts(out@) == goal.take(i as int),
        decreases fds@.len() - i,
    {
        let text = render_i32(fds[i]);
        proof {
            lemma_texts_push(out@, text);
            assert(goal.take(i + 1) =~= goal.take(i as int).push(text@));
        }
        out.push(text);
        i += 1;
    }
    assert(goal.take(i as int) =~= goal);
    join_texts(out.as_slice(), ",")
}

/// Appends copies of the byte strings.
pub fn push_all(out: &mut Vec<Vec<u8>>, items: &[Vec<u8>])
    ensures
        byte_views(final(out)@) == byte_views(old(out)@) + byte_views(items@),
{
    let ghost start = byte_views(out@);
    let ghost all = byte_views(items@);
    let mut i: usize = 0;
    assert(start + all.take(0) =~= start);
    while i < items.len()
        invariant
            i <= items@.len(),
            all == byte_views(items@),
            byte_views(out@) == start + all.take(i as int),
        decreases items@.len() - i,
    {
        let item = copy_bytes(items[i].as_slice());
        proof {
            lemma_byte_views_push(out@, item);
            assert((start + all.take(i as int)).push(item@) =~= start + all.take(i + 1));
        }
        out.push(item);
        i += 1;
    }
    assert(all.take(i as int) =~= all);
}

impl Request {
    /// The arguments of the helper that make this request.
    pub fn wire_arguments(&self) -> (r: Vec<Vec<u8>>)
        ensures
            byte_views(r@) == wire_args(self@),
    {
        let mut out: Vec<Vec<u8>> = Vec::new();
        out.push(text_bytes("secure-launch"));
        out.push(copy_bytes(self.root.as_slice()));
        out.push(copy_bytes(self.runtime_root.as_slice()));
        out.push(text_bytes(&render_u64(self.root_device)));
        out.push(text_bytes(&render_u64(self.root_inode)));
        out.push(text_bytes(&render_u64(self.uid as u64)));
        out.push(text_bytes(&render_u64(self.gid as u64)));
        out.push(text_bytes(&render_groups(self.groups.as_slice())));
        let cwd = match &self.cwd {
            Some(cwd) => copy_bytes(cwd.as_slice()),
            None => text_bytes("-"),
        };
        out.push(cwd);
        let mode = match self.jail_mode {
            JailMode::Direct => "direct",
            JailMode::Sandbox => "sandbox",
            JailMode::NoNetwork => "no-network",
        };
        out.push(text_bytes(mode));
        out.push(text_bytes(&render_descriptors(self.mapped_fds.as_slice())));
        out.push(text_bytes(&render_u64(self.environment.len() as u64)));
        assert(byte_views(out@) =~= wire_head(self@));
        push_all(&mut out, self.environment.as_slice());
        let ghost before = out@;
        let separator = text_bytes("--");
        proof {
            lemma_byte_views_push(before, separator);
        }
        out.push(separator);
        push_all(&mut out, self.argv.as_slice());
        assert(byte_views(out@) =~= wire_args(self@));
        out
    }
}

/// Whether the helper accepts the request as it is written.
pub open spec fn is_sound(request: RequestView) -> bool {
    &&& request.groups.no_duplicates()
    &&& valid_targets(request.mapped_fds)
    &&& request.cwd != Some(encode_utf8("-"@))
    &&& request.environment.len() <= MAX_ENVIRONMENT
    &&& forall|i: int|
        0 <= i < request.environment.len() ==> valid_entry(#[trigger] request.environment[i])
    &&& 0 < request.argv.len() <= MAX_ARGUMENTS
}

proof fn lemma_group_list_distinct(pieces: Seq<Seq<char>>)
    ensures
        group_list(pieces) matches Ok(groups) ==> groups.no_duplicates(),
    decreases pieces.len(),
{
    if pieces.len() > 0 {
        lemma_group_list_distinct(pieces.drop_last());
        if let Ok(groups) = group_list(pieces) {
            let before = group_list(pieces.drop_last())->Ok_0;
            let last = groups.last();
            assert(groups =~= before.push(last));
            assert forall|i: int, j: int|
                0 <= i < groups.len() && 0 <= j < groups.len() && i != j implies groups[i]
                != groups[j] by {
                if i == before.len() {
                    assert(before.contains(before[j]));
                } else if j == before.len() {
                    assert(before.contains(before[i]));
                }
            }
        }
    }
}

proof fn lemma_entries_valid(args: Seq<Seq<u8>>, from: int, count: int)
    requires
        0 <= count,
    ensures
        entries_from(args, from, count) matches Ok(entries) ==> entries.len() == count && forall|
            i: int,
        |
            0 <= i < entries.len() ==> valid_entry(#[trigger] entries[i]),
    decreases count,
{
    if count > 0 {
        lemma_entries_valid(args, from, count - 1);
    }
}

/// Every request that is read is sound: it names no group and no descriptor twice, and has a
/// program.
pub proof fn lemma_read_request_sound(args: Seq<Seq<u8>>)
    ensures
        request_in(args) matches Ok(request) ==> is_sound(request),
{
    if let Ok(request) = request_in(args) {
        let text = text_in(args[7])->0;
        lemma_group_list_distinct(split(text, ','));
        let count = number_argument(args, 11, Field::EnvironmentCount, u64::MAX as nat)->Ok_0;
        lemma_entries_valid(args, 12, count as int);
    }
}

proof fn lemma_group_text(x: u32)
    ensures
        bounded_value(decimal(x as nat), u32::MAX as nat) == Some(x as nat),
        !decimal(x as nat).contains(','),
        decimal(x as nat).len() > 0,
        (x as nat) as u32 == x,
{
    lemma_decimal(x as nat);
    let d = decimal(x as nat);
    if d.contains(',') {
        let i = choose|i: int| 0 <= i < d.len() && d[i] == ',';
        assert(crate::numbers::is_digit(d[i]));
    }
}

proof fn lemma_descriptor_text(x: i32)
    ensures
        i32_value(signed_decimal(x as int)) == Some(x as int),
        !signed_decimal(x as int).contains(','),
        signed_decimal(x as int).len() > 0,
        (x as int) as i32 == x,
{
    lemma_signed_decimal(x as int);
    let d = signed_decimal(x as int);
    if d.contains(',') {
        let i = choose|i: int| 0 <= i < d.len() && d[i] == ',';
        assert(crate::numbers::is_digit(d[i]) || d[i] == '-');
    }
}

proof fn lemma_group_list(groups: Seq<u32>)
    requires
        groups.no_duplicates(),
    ensures
        group_list(group_texts(groups)) == Ok::<Seq<u32>, RequestError>(groups),
    decreases groups.len(),
{
    if groups.len() > 0 {
        let head = groups.drop_last();
        assert(head.no_duplicates()) by {
            assert forall|i: int, j: int|
                0 <= i < head.len() && 0 <= j < head.len() && i != j implies head[i]
                != head[j] by {
                assert(groups[i] != groups[j]);
            }
        }
        lemma_group_list(head);
        assert(group_texts(groups).drop_last() =~= group_texts(head));
        lemma_group_text(groups.last());
        assert(!head.contains(groups.last())) by {
            if head.contains(groups.last()) {
                let i = choose|i: int| 0 <= i < head.len() && head[i] == groups.last();
                assert(groups[i] != groups[groups.len() - 1]);
            }
        }
        assert(groups =~= head.push(groups.last()));
    } else {
        assert(groups =~= Seq::empty());
    }
}

proof fn lemma_descriptor_list(fds: Seq<i32>)
    ensures
        descriptor_list(descriptor_texts(fds)) == Ok::<Seq<i32>, RequestError>(fds),
    decreases fds.len(),
{
    if fds.len() > 0 {
        let head = fds.drop_last();
        lemma_descriptor_list(head);
        assert(descriptor_texts(fds).drop_last() =~= descriptor_texts(head));
        lemma_descriptor_text(fds.last());
        assert(fds =~= head.push(fds.last()));
    } else {
        assert(fds =~= Seq::empty());
    }
}

proof fn lemma_groups_in(groups: Seq<u32>)
    requires
        groups.no_duplicates(),
    ensures
        groups_in(encode_utf8(join(group_texts(groups), ","@))) == Ok::<Seq<u32>, RequestError>(
            groups,
        ),
{
    reveal_strlit(",");
    assert(","@ =~= seq![',']);
    let parts = group_texts(groups);
    let text = join(parts, ","@);
    lemma_text_in(text);
    if groups.len() == 0 {
        assert(text.len() == 0);
        assert(groups =~= Seq::empty());
    } else {
        assert forall|i: int| 0 <= i < parts.len() implies !(#[trigger] parts[i]).contains(',') by {
            lemma_group_text(groups[i]);
        }
        lemma_join_split(parts, ',');
        lemma_group_list(groups);
        if text.len() == 0 {
            lemma_group_text(groups[0]);
            assert(split(text, ',') =~= seq![text]);
            assert(parts[0].len() > 0);
        }
    }
}

proof fn lemma_descriptors_in(fds: Seq<i32>)
    requires
        valid_targets(fds),
    ensures
        descriptors_in(encode_utf8(join(descriptor_texts(fds), ","@))) == Ok::<
            Seq<i32>,
            RequestError,
        >(fds),
{
    reveal_strlit(",");
    assert(","@ =~= seq![',']);
    let parts = descriptor_texts(fds);
    let text = join(parts, ","@);
    lemma_text_in(text);
    if fds.len() == 0 {
        assert(text.len() == 0);
        assert(fds =~= Seq::empty());
    } else {
        assert forall|i: int| 0 <= i < parts.len() implies !(#[trigger] parts[i]).contains(',') by {
            lemma_descriptor_text(fds[i]);
        }
        lemma_join_split(parts, ',');
        lemma_descriptor_list(fds);
        if text.len() == 0 {
            lemma_descriptor_text(fds[0]);
            assert(split(text, ',') =~= seq![text]);
            assert(parts[0].len() > 0);
        }
    }
}

proof fn lemma_entries_from(args: Seq<Seq<u8>>, entries: Seq<Seq<u8>>, n: int)
    requires
        0 <= n <= entries.len(),
        12 + entries.len() <= args.len(),
        forall|i: int| 0 <= i < entries.len() ==> args[12 + i] == #[trigger] entries[i],
        forall|i: int| 0 <= i < entries.len() ==> valid_entry(#[trigger] entries[i]),
    ensures
        entries_from(args, 12, n) == Ok::<Seq<Seq<u8>>, RequestError>(entries.take(n)),
    decreases n,
{
    if n > 0 {
        lemma_entries_from(args, entries, n - 1);
        assert(args[12 + (n - 1)] == entries[n - 1]);
        assert(valid_entry(entries[n - 1]));
        assert(entries.take(n) =~= entries.take(n - 1).push(entries[n - 1]));
    } else {
        assert(entries.take(0) =~= Seq::<Seq<u8>>::empty());
    }
}

proof fn lemma_mode_in(mode: JailMode)
    ensures
        mode_in(encode_utf8(mode_name(mode))) == Ok::<JailMode, RequestError>(mode),
{
    reveal_strlit("direct");
    reveal_strlit("sandbox");
    reveal_strlit("no-network");
    lemma_text_in(mode_name(mode));
    assert("direct"@.len() == 6 && "sandbox"@.len() == 7 && "no-network"@.len() == 10);
}

/// The helper reads the request that was written.
pub proof fn lemma_request_round_trip(request: RequestView)
    requires
        is_sound(request),
    ensures
        request_in(wire_args(request)) == Ok::<RequestView, RequestError>(request),
{
    let args = wire_args(request);
    let head = wire_head(request);
    assert(forall|i: int| 0 <= i < 12 ==> args[i] == #[trigger] head[i]);
    lemma_decimal(request.root_device as nat);
    lemma_decimal(request.root_inode as nat);
    lemma_decimal(request.uid as nat);
    lemma_decimal(request.gid as nat);
    lemma_decimal(request.environment.len());
    lemma_text_in(decimal(request.root_device as nat));
    lemma_text_in(decimal(request.root_inode as nat));
    lemma_text_in(decimal(request.uid as nat));
    lemma_text_in(decimal(request.gid as nat));
    lemma_text_in(decimal(request.environment.len()));
    lemma_groups_in(request.groups);
    lemma_descriptors_in(request.mapped_fds);
    lemma_mode_in(request.jail_mode);
    assert(head[1] == request.root && head[2] == request.runtime_root);
    assert(head[3] == encode_utf8(decimal(request.root_device as nat)));
    assert(head[4] == encode_utf8(decimal(request.root_inode as nat)));
    assert(head[5] == encode_utf8(decimal(request.uid as nat)));
    assert(head[6] == encode_utf8(decimal(request.gid as nat)));
    assert(head[7] == encode_utf8(join(group_texts(request.groups), ","@)));
    assert(head[9] == encode_utf8(mode_name(request.jail_mode)));
    assert(head[10] == encode_utf8(join(descriptor_texts(request.mapped_fds), ","@)));
    assert(head[11] == encode_utf8(decimal(request.environment.len())));
    assert(cwd_in(head[8]) == request.cwd);
    assert(identity_in(args) is Ok);
    assert(manner_in(args) is Ok);
    let count = request.environment.len() as int;
    assert forall|i: int| 0 <= i < count implies args[12 + i]
        == #[trigger] request.environment[i] by {}
    lemma_entries_from(args, request.environment, count);
    assert(request.environment.take(count) =~= request.environment);
    assert(args[12 + count] == encode_utf8("--"@));
    assert(args.skip(12 + count + 1) =~= request.argv);
}

/// What a program is started with in a sandbox.
#[derive(Debug)]
pub struct LaunchRequest {
    /// The root directory of the sandbox, without symbolic links.
    pub root: Vec<u8>,
    /// The directory of this program's run state, without symbolic links.
    pub runtime_root: Vec<u8>,
    pub root_device: u64,
    pub root_inode: u64,
    pub uid: u32,
    pub gid: u32,
    pub supplementary_gids: Vec<u32>,
    pub mapped_fds: Vec<i32>,
    pub cwd: Option<Vec<u8>>,
    pub nested_sandbox: bool,
    pub no_network: bool,
    pub environment: Vec<(String, String)>,
    pub argv: Vec<Vec<u8>>,
}

/// Why a program cannot be started.
#[derive(Debug, Clone, Copy, PartialEq, Eq, Structural)]
pub enum LaunchError {
    InvalidSize,
    InvalidEnvironment,
}

impl LaunchError {
    pub fn message(self) -> (r: String)
        ensures
            r@ == (match self {
                LaunchError::InvalidSize => "invalid secure launch request size"@,
                LaunchError::InvalidEnvironment => "invalid launch environment entry"@,
            }),
    {
        match self {
            LaunchError::InvalidSize => "invalid secure launch request size".to_owned(),
            LaunchError::InvalidEnvironment => "invalid launch environment entry".to_owned(),
        }
    }
}

/// A program of this project and its arguments.
#[derive(Debug)]
pub struct HelperCommand {
    pub program: String,
    pub args: Vec<Vec<u8>>,
}

/// Whether a variable can be written as an entry.
pub open spec fn valid_variable(key: Seq<char>, value: Seq<char>) -> bool {
    key.len() > 0 && !key.contains('=') && !key.contains('\0') && !value.contains('\0')
}

pub open spec fn entry_of(key: Seq<char>, value: Seq<char>) -> Seq<u8> {
    encode_utf8(key + "="@ + value)
}

pub open spec fn launch_mode(nested_sandbox: bool, no_network: bool) -> JailMode {
    if no_network {
        JailMode::NoNetwork
    } else if nested_sandbox {
        JailMode::Sandbox
    } else {
        JailMode::Direct
    }
}

impl LaunchRequest {
    /// The request that the helper is to be given.
    pub open spec fn request(&self) -> RequestView {
        RequestView {
            root: self.root@,
            runtime_root: self.runtime_root@,
            root_device: self.root_device,
            root_inode: self.root_inode,
            uid: self.uid,
            gid: self.gid,
            groups: self.supplementary_gids@,
            cwd: bytes_view(self.cwd),
            jail_mode: launch_mode(self.nested_sandbox, self.no_network),
            mapped_fds: self.mapped_fds@,
            environment: Seq::new(
                self.environment@.len(),
                |i: int| entry_of(self.environment@[i].0@, self.environment@[i].1@),
            ),
            argv: byte_views(self.argv@),
        }
    }

    pub open spec fn fits(&self) -> bool {
        0 < self.argv@.len() <= MAX_ARGUMENTS && self.environment@.len() <= MAX_ENVIRONMENT
            && self.mapped_fds@.len() <= MAX_MAPPED_FDS
    }

    pub open spec fn variables_valid(&self) -> bool {
        forall|i: int|
            0 <= i < self.environment@.len() ==> valid_variable(
                (#[trigger] self.environment@[i]).0@,
                self.environment@[i].1@,
            )
    }

    /// Whether the request is not too large.
    pub fn has_valid_size(&self) -> (r: bool)
        ensures
            r == self.fits(),
    {
        self.argv.len() > 0 && self.argv.len() <= MAX_ARGUMENTS && self.environment.len()
            <= MAX_ENVIRONMENT && self.mapped_fds.len() <= MAX_MAPPED_FDS
    }
}

fn is_valid_variable(key: &str, value: &str) -> (r: bool)
    ensures
        r == valid_variable(key@, value@),
{
    key.unicode_len() > 0 && !contains_char(key, '=') && !contains_char(key, '\0')
        && !contains_char(value, '\0')
}

/// The command that starts the program: the helper, or its client where the program gets a jail
/// of its own.
pub fn command(request: &LaunchRequest) -> (r: Result<HelperCommand, LaunchError>)
    ensures
        r is Ok <==> request.fits() && request.variables_valid(),
        r == Err::<HelperCommand, LaunchError>(LaunchError::InvalidSize) <==> !request.fits(),
        r == Err::<HelperCommand, LaunchError>(LaunchError::InvalidEnvironment)
            <==> request.fits() && !request.variables_valid(),
        r matches Ok(c) ==> {
            &&& c.program@ == (if request.nested_sandbox || request.no_network {
                "/usr/local/libexec/freebsd-flatpak/secure-launch-client"@
            } else {
                "/usr/local/libexec/freebsd-flatpak/secure-launch"@
            })
            &&& byte_views(c.args@) == wire_args(request.request()).skip(1)
        },
{
    if !request.has_valid_size() {
        return Err(LaunchError::InvalidSize);
    }
    let ghost goal = request.request().environment;
    let mut environment: Vec<Vec<u8>> = Vec::new();
    let mut i: usize = 0;
    assert(byte_views(environment@) =~= goal.take(0));
    while i < request.environment.len()
        invariant
            i <= request.environment@.len(),
            request.fits(),
            goal == request.request().environment,
            byte_views(environment@) == goal.take(i as int),
            forall|j: int|
                0 <= j < i ==> valid_variable(
                    (#[trigger] request.environment@[j]).0@,
                    request.environment@[j].1@,
                ),
        decreases request.environment@.len() - i,
    {
        let key = &request.environment[i].0;
        let value = &request.environment[i].1;
        if !is_valid_variable(key, value) {
            assert(!valid_variable(
                request.environment@[i as int].0@,
                request.environment@[i as int].1@,
            ));
            return Err(LaunchError::InvalidEnvironment);
        }
        let text = concat3(key, "=", value);
        let entry = text_bytes(&text);
        proof {
            lemma_byte_views_push(environment@, entry);
            assert(goal.take(i + 1) =~= goal.take(i as int).push(entry@));
        }
        environment.push(entry);
        i += 1;
    }
    assert(goal.take(i as int) =~= goal);
    let mut groups: Vec<u32> = Vec::new();
    groups.extend_from_slice(request.supplementary_gids.as_slice());
    assert(groups@ =~= request.supplementary_gids@);
    let mut mapped_fds: Vec<i32> = Vec::new();
    mapped_fds.extend_from_slice(request.mapped_fds.as_slice());
    assert(mapped_fds@ =~= request.mapped_fds@);
    let cwd = match &request.cwd {
        Some(cwd) => Some(copy_bytes(cwd.as_slice())),
        None => None,
    };
    let mut argv: Vec<Vec<u8>> = Vec::new();
    push_all(&mut argv, request.argv.as_slice());
    assert(byte_views(argv@) =~= byte_views(request.argv@));
    let wire = Request {
        root: copy_bytes(request.root.as_slice()),
        runtime_root: copy_bytes(request.runtime_root.as_slice()),
        root_device: request.root_device,
        root_inode: request.root_inode,
        uid: request.uid,
        gid: request.gid,
        groups,
        cwd,
        jail_mode: if request.no_network {
            JailMode::NoNetwork
        } else if request.nested_sandbox {
            JailMode::Sandbox
        } else {
            JailMode::Direct
        },
        mapped_fds,
        environment,
        argv,
    };
    assert(wire@ == request.request());
    let mut args = wire.wire_arguments();
    let ghost all = args@;
    assert(byte_views(all).len() == all.len());
    assert(wire_args(request.request()).len() >= 12);
    let _ = args.remove(0);
    assert(byte_views(args@) =~= byte_views(all).skip(1));
    let program = if request.nested_sandbox || request.no_network {
        "/usr/local/libexec/freebsd-flatpak/secure-launch-client"
    } else {
        "/usr/local/libexec/freebsd-flatpak/secure-launch"
    };
    Ok(HelperCommand { program: program.to_owned(), args })
}

/// A variable that can be written makes an entry that the helper accepts.
pub proof fn lemma_variable_entry(key: Seq<char>, value: Seq<char>)
    requires
        valid_variable(key, value),
    ensures
        valid_entry(entry_of(key, value)),
        !entry_of(key, value).contains(0),
{
    reveal_strlit("=");
    let text = key + "="@ + value;
    lemma_encode_contains(text, '=');
    lemma_encode_contains(text, '\0');
    assert(text[key.len() as int] == '=');
    assert(text[0] == key[0]);
    assert(key.contains(key[0]));
    if text.contains('\0') {
        let i = choose|i: int| 0 <= i < text.len() && text[i] == '\0';
        if i < key.len() {
            assert(key[i] == '\0');
        } else if i > key.len() {
            assert(value[i - key.len() - 1] == '\0');
        }
    }
}

/// The helper reads the request that a command makes, whatever the name it is called by.
pub proof fn lemma_command_round_trip(request: &LaunchRequest)
    requires
        request.fits(),
        request.variables_valid(),
        request.supplementary_gids@.no_duplicates(),
        valid_targets(request.mapped_fds@),
        bytes_view(request.cwd) != Some(encode_utf8("-"@)),
    ensures
        request_in(wire_args(request.request())) == Ok::<RequestView, RequestError>(
            request.request(),
        ),
{
    let view = request.request();
    assert forall|i: int| 0 <= i < view.environment.len() implies valid_entry(
        #[trigger] view.environment[i],
    ) by {
        assert(valid_variable(request.environment@[i].0@, request.environment@[i].1@));
        lemma_variable_entry(request.environment@[i].0@, request.environment@[i].1@);
    }
    lemma_request_round_trip(view);
}

} // verus!
