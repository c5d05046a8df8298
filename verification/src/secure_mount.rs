//! What the privileged mount helper is asked for, and what it decides.

use crate::bytes::{byte_views, bytes_eq, bytes_text, copy_bytes, text_bytes, text_in};
use crate::numbers::{bounded_value, parse_u64};
use crate::path::{body, components, is_absolute, joined, lead, lemma_body_kept, within, FsPath};
use crate::text::{concat, text_eq, texts};
use vstd::prelude::*;
use vstd::utf8::encode_utf8;

verus! {

/// The arguments of the helper, one by one.
#[derive(Debug, Clone, Copy, PartialEq, Eq, Structural)]
pub enum MountField {
    Operation,
    Root,
    RootDevice,
    RootInode,
    Target,
    Source,
    SourceDevice,
    SourceInode,
    AccessMode,
    TmpfsOptions,
    SpecialType,
    SpecialSource,
    UnmountMode,
    Chroots,
    ChrootsDevice,
    ChrootsInode,
    Mountpoint,
}

pub open spec fn mount_field_label(field: MountField) -> Seq<char> {
    match field {
        MountField::Operation => "mount operation"@,
        MountField::Root => "sandbox root"@,
        MountField::RootDevice => "sandbox root device"@,
        MountField::RootInode => "sandbox root inode"@,
        MountField::Target => "sandbox-relative target"@,
        MountField::Source => "nullfs source"@,
        MountField::SourceDevice => "nullfs source device"@,
        MountField::SourceInode => "nullfs source inode"@,
        MountField::AccessMode => "nullfs access mode"@,
        MountField::TmpfsOptions => "tmpfs options"@,
        MountField::SpecialType => "special filesystem type"@,
        MountField::SpecialSource => "special filesystem source"@,
        MountField::UnmountMode => "unmount mode"@,
        MountField::Chroots => "chroots root"@,
        MountField::ChrootsDevice => "chroots root device"@,
        MountField::ChrootsInode => "chroots root inode"@,
        MountField::Mountpoint => "orphaned document mountpoint"@,
    }
}

impl MountField {
    pub fn label(self) -> (r: &'static str)
        ensures
            r@ == mount_field_label(self),
    {
        match self {
            MountField::Operation => "mount operation",
            MountField::Root => "sandbox root",
            MountField::RootDevice => "sandbox root device",
            MountField::RootInode => "sandbox root inode",
            MountField::Target => "sandbox-relative target",
            MountField::Source => "nullfs source",
            MountField::SourceDevice => "nullfs source device",
            MountField::SourceInode => "nullfs source inode",
            MountField::AccessMode => "nullfs access mode",
            MountField::TmpfsOptions => "tmpfs options",
            MountField::SpecialType => "special filesystem type",
            MountField::SpecialSource => "special filesystem source",
            MountField::UnmountMode => "unmount mode",
            MountField::Chroots => "chroots root",
            MountField::ChrootsDevice => "chroots root device",
            MountField::ChrootsInode => "chroots root inode",
            MountField::Mountpoint => "orphaned document mountpoint",
        }
    }
}

/// Why the helper does nothing.
#[derive(Debug, Clone, Copy, PartialEq, Eq, Structural)]
pub enum MountError {
    Missing(MountField),
    DeviceNotUtf8,
    InvalidDevice,
    InodeNotUtf8,
    InvalidInode,
    UnverifiedSource,
    InvalidAccessMode,
    InvalidUnmountMode,
    UnsupportedSpecial,
    UnsupportedOperation,
    UnexpectedArgument,
    TargetNotNormalized,
    RelativeMountpoint,
}

pub open spec fn mount_error_text(e: MountError) -> Seq<char> {
    match e {
        MountError::Missing(field) => "missing "@ + mount_field_label(field),
        MountError::DeviceNotUtf8 => "device is not UTF-8"@,
        MountError::InvalidDevice => "invalid device"@,
        MountError::InodeNotUtf8 => "inode is not UTF-8"@,
        MountError::InvalidInode => "invalid inode"@,
        MountError::UnverifiedSource =>
            "unverified nullfs source is outside private mount staging"@,
        MountError::InvalidAccessMode => "invalid nullfs access mode"@,
        MountError::InvalidUnmountMode => "invalid secure unmount mode"@,
        MountError::UnsupportedSpecial => "unsupported secure special mount"@,
        MountError::UnsupportedOperation => "unsupported secure mount operation"@,
        MountError::UnexpectedArgument => "unexpected secure mount helper argument"@,
        MountError::TargetNotNormalized =>
            "mount target must be a non-empty normalized relative path"@,
        MountError::RelativeMountpoint => "orphaned document mountpoint must be absolute"@,
    }
}

impl MountError {
    pub fn message(self) -> (r: String)
        ensures
            r@ == mount_error_text(self),
    {
        match self {
            MountError::Missing(field) => concat("missing ", field.label()),
            MountError::DeviceNotUtf8 => "device is not UTF-8".to_owned(),
            MountError::InvalidDevice => "invalid device".to_owned(),
            MountError::InodeNotUtf8 => "inode is not UTF-8".to_owned(),
            MountError::InvalidInode => "invalid inode".to_owned(),
            MountError::UnverifiedSource =>
                "unverified nullfs source is outside private mount staging".to_owned(),
            MountError::InvalidAccessMode => "invalid nullfs access mode".to_owned(),
            MountError::InvalidUnmountMode => "invalid secure unmount mode".to_owned(),
            MountError::UnsupportedSpecial => "unsupported secure special mount".to_owned(),
            MountError::UnsupportedOperation => "unsupported secure mount operation".to_owned(),
            MountError::UnexpectedArgument => "unexpected secure mount helper argument".to_owned(),
            MountError::TargetNotNormalized =>
                "mount target must be a non-empty normalized relative path".to_owned(),
            MountError::RelativeMountpoint =>
                "orphaned document mountpoint must be absolute".to_owned(),
        }
    }
}

/// A path of the system, read byte for byte: each byte is taken as one character.
pub open spec fn byte_path(bytes: Seq<u8>) -> Seq<char> {
    Seq::new(bytes.len(), |i: int| bytes[i] as char)
}

/// A path of the system, read byte for byte.
pub fn path_of_bytes(bytes: &[u8]) -> (r: FsPath)
    ensures
        r@ == byte_path(bytes@),
{
    let mut text = String::new();
    let mut i: usize = 0;
    while i < bytes.len()
        invariant
            i <= bytes@.len(),
            text@ =~= byte_path(bytes@.take(i as int)),
        decreases bytes@.len() - i,
    {
        text.push(bytes[i] as char);
        i += 1;
    }
    assert(bytes@.take(i as int) =~= bytes@);
    FsPath { text }
}

/// Whether a path names something below a directory, and by names alone.
pub open spec fn is_relative_target(p: Seq<char>) -> bool {
    p.len() > 0 && lead(p).len() == 0 && forall|i: int|
        0 <= i < body(p).len() ==> #[trigger] body(p)[i] != ".."@
}

/// Whether a path names something below a directory, and by names alone.
pub fn validate_relative(path: &FsPath) -> (r: bool)
    ensures
        r == is_relative_target(path@),
{
    if path.as_str().unicode_len() == 0 || path.is_absolute() {
        proof {
            assert(path@.len() > 0 ==> lead(path@).len() == 1);
        }
        return false;
    }
    let parts = path.components();
    let ghost all = components(path@);
    assert(texts(parts@) == all);
    assert(all.len() == parts@.len());
    assert(all.len() == lead(path@).len() + body(path@).len());
    if parts.len() > 0 && text_eq(&parts[0], ".") {
        proof {
            reveal_strlit(".");
            assert("."@ =~= seq!['.']);
            if lead(path@).len() == 0 {
                assert(body(path@)[0] == parts@[0]@);
                lemma_body_kept(path@);
            }
        }
        return false;
    }
    proof {
        reveal_strlit(".");
        assert("."@ =~= seq!['.']);
        if lead(path@).len() == 1 {
            assert(all[0] == seq!['.']);
            assert(parts@[0]@ == "."@);
        }
        assert(all =~= body(path@));
    }
    let mut i: usize = 0;
    while i < parts.len()
        invariant
            i <= parts@.len(),
            texts(parts@) == body(path@),
            lead(path@).len() == 0,
            path@.len() > 0,
            forall|j: int| 0 <= j < i ==> #[trigger] body(path@)[j] != ".."@,
        decreases parts@.len() - i,
    {
        assert(body(path@)[i as int] == parts@[i as int]@);
        if text_eq(&parts[i], "..") {
            return false;
        }
        i += 1;
    }
    assert(body(path@).len() == parts@.len());
    true
}

/// The argument at a place.
pub open spec fn mount_argument(args: Seq<Seq<u8>>, i: int, field: MountField) -> Result<
    Seq<u8>,
    MountError,
> {
    if i < args.len() {
        Ok(args[i])
    } else {
        Err(MountError::Missing(field))
    }
}

/// The device and the inode that two arguments name.
pub open spec fn identity_of(device: Seq<u8>, inode: Seq<u8>) -> Result<(u64, u64), MountError> {
    match text_in(device) {
        None => Err(MountError::DeviceNotUtf8),
        Some(text) => match bounded_value(text, u64::MAX as nat) {
            None => Err(MountError::InvalidDevice),
            Some(d) => match text_in(inode) {
                None => Err(MountError::InodeNotUtf8),
                Some(text) => match bounded_value(text, u64::MAX as nat) {
                    None => Err(MountError::InvalidInode),
                    Some(i) => Ok((d as u64, i as u64)),
                },
            },
        },
    }
}

/// The identity in two arguments at places one after another.
pub open spec fn identity_at(
    args: Seq<Seq<u8>>,
    i: int,
    device: MountField,
    inode: MountField,
) -> Result<(u64, u64), MountError> {
    match mount_argument(args, i, device) {
        Err(e) => Err(e),
        Ok(d) => match mount_argument(args, i + 1, inode) {
            Err(e) => Err(e),
            Ok(n) => identity_of(d, n),
        },
    }
}

fn take(args: &[Vec<u8>], i: usize, field: MountField) -> (r: Result<Vec<u8>, MountError>)
    ensures
        match mount_argument(byte_views(args@), i as int, field) {
            Ok(bytes) => r matches Ok(got) && got@ == bytes,
            Err(e) => r == Err::<Vec<u8>, MountError>(e),
        },
{
    if i < args.len() {
        Ok(copy_bytes(args[i].as_slice()))
    } else {
        Err(MountError::Missing(field))
    }
}

fn parse_identity(device: &[u8], inode: &[u8]) -> (r: Result<(u64, u64), MountError>)
    ensures
        r == identity_of(device@, inode@),
{
    let d: u64 = match bytes_text(device) {
        Some(text) => match parse_u64(&text) {
            Some(n) => n,
            None => {
                return Err(MountError::InvalidDevice);
            },
        },
        None => {
            return Err(MountError::DeviceNotUtf8);
        },
    };
    let i: u64 = match bytes_text(inode) {
        Some(text) => match parse_u64(&text) {
            Some(n) => n,
            None => {
                return Err(MountError::InvalidInode);
            },
        },
        None => {
            return Err(MountError::InodeNotUtf8);
        },
    };
    Ok((d, i))
}

fn take_identity(args: &[Vec<u8>], i: usize, device: MountField, inode: MountField) -> (r: Result<
    (u64, u64),
    MountError,
>)
    requires
        i < 1000,
    ensures
        r == identity_at(byte_views(args@), i as int, device, inode),
{
    let d = match take(args, i, device) {
        Ok(v) => v,
        Err(e) => {
            return Err(e);
        },
    };
    let n = match take(args, i + 1, inode) {
        Ok(v) => v,
        Err(e) => {
            return Err(e);
        },
    };
    parse_identity(d.as_slice(), n.as_slice())
}

/// What the helper is asked for, as far as it must be known before the sandbox's root directory
/// is looked at.
#[derive(Debug)]
pub enum MountHead {
    /// Take down the mount of a document that was left by a sandbox that is gone.
    Recover(RecoverRequest),
    /// Something at a place in a sandbox.
    InSandbox(TargetRequest),
}

#[derive(Debug)]
pub struct TargetRequest {
    pub operation: Vec<u8>,
    pub root: Vec<u8>,
    pub root_identity: (u64, u64),
    pub target: Vec<u8>,
}

#[derive(Debug)]
pub struct RecoverRequest {
    pub chroots: Vec<u8>,
    pub chroots_identity: (u64, u64),
    pub mountpoint: Vec<u8>,
    pub force: bool,
}

pub ghost enum MountHeadView {
    Recover(Seq<u8>, (u64, u64), Seq<u8>, bool),
    InSandbox(Seq<u8>, Seq<u8>, (u64, u64), Seq<u8>),
}

impl View for MountHead {
    type V = MountHeadView;

    open spec fn view(&self) -> MountHeadView {
        match self {
            MountHead::Recover(r) => MountHeadView::Recover(
                r.chroots@,
                r.chroots_identity,
                r.mountpoint@,
                r.force,
            ),
            MountHead::InSandbox(t) => MountHeadView::InSandbox(
                t.operation@,
                t.root@,
                t.root_identity,
                t.target@,
            ),
        }
    }
}

/// Whether a mount is to be taken down by force.
pub open spec fn force_in(bytes: Seq<u8>) -> Result<bool, MountError> {
    match text_in(bytes) {
        Some(text) => if text == "normal"@ {
            Ok(false)
        } else if text == "force"@ {
            Ok(true)
        } else {
            Err(MountError::InvalidUnmountMode)
        },
        None => Err(MountError::InvalidUnmountMode),
    }
}

fn parse_force(bytes: &[u8]) -> (r: Result<bool, MountError>)
    ensures
        r == force_in(bytes@),
{
    match bytes_text(bytes) {
        Some(text) => if text_eq(&text, "normal") {
            Ok(false)
        } else if text_eq(&text, "force") {
            Ok(true)
        } else {
            Err(MountError::InvalidUnmountMode)
        },
        None => Err(MountError::InvalidUnmountMode),
    }
}

/// The request to take down the mount of a document, in the arguments after the operation.
pub open spec fn recover_in(args: Seq<Seq<u8>>) -> Result<MountHeadView, MountError> {
    match mount_argument(args, 2, MountField::Chroots) {
        Err(e) => Err(e),
        Ok(chroots) => match identity_at(
            args,
            3,
            MountField::ChrootsDevice,
            MountField::ChrootsInode,
        ) {
            Err(e) => Err(e),
            Ok(identity) => match mount_argument(args, 5, MountField::Mountpoint) {
                Err(e) => Err(e),
                Ok(mountpoint) => match mount_argument(args, 6, MountField::UnmountMode) {
                    Err(e) => Err(e),
                    Ok(mode) => match force_in(mode) {
                        Err(e) => Err(e),
                        Ok(force) => if args.len() > 7 {
                            Err(MountError::UnexpectedArgument)
                        } else {
                            Ok(MountHeadView::Recover(chroots, identity, mountpoint, force))
                        },
                    },
                },
            },
        },
    }
}

/// What the arguments of the helper ask for, or the first thing that is wrong with them. The
/// first is the helper's own name.
pub open spec fn head_in(args: Seq<Seq<u8>>) -> Result<MountHeadView, MountError> {
    match mount_argument(args, 1, MountField::Operation) {
        Err(e) => Err(e),
        Ok(operation) => if operation == encode_utf8("recover-orphaned-document-unmount"@) {
            recover_in(args)
        } else {
            match mount_argument(args, 2, MountField::Root) {
                Err(e) => Err(e),
                Ok(root) => match identity_at(
                    args,
                    3,
                    MountField::RootDevice,
                    MountField::RootInode,
                ) {
                    Err(e) => Err(e),
                    Ok(identity) => match mount_argument(args, 5, MountField::Target) {
                        Err(e) => Err(e),
                        Ok(target) => Ok(
                            MountHeadView::InSandbox(operation, root, identity, target),
                        ),
                    },
                },
            }
        },
    }
}

fn parse_recover(args: &[Vec<u8>]) -> (r: Result<MountHead, MountError>)
    ensures
        match recover_in(byte_views(args@)) {
            Ok(view) => r matches Ok(got) && got@ == view,
            Err(e) => r matches Err(got) && got == e,
        },
{
    let chroots = match take(args, 2, MountField::Chroots) {
        Ok(v) => v,
        Err(e) => {
            return Err(e);
        },
    };
    let chroots_identity = match take_identity(
        args,
        3,
        MountField::ChrootsDevice,
        MountField::ChrootsInode,
    ) {
        Ok(v) => v,
        Err(e) => {
            return Err(e);
        },
    };
    let mountpoint = match take(args, 5, MountField::Mountpoint) {
        Ok(v) => v,
        Err(e) => {
            return Err(e);
        },
    };
    let mode = match take(args, 6, MountField::UnmountMode) {
        Ok(v) => v,
        Err(e) => {
            return Err(e);
        },
    };
    let force = match parse_force(mode.as_slice()) {
        Ok(v) => v,
        Err(e) => {
            return Err(e);
        },
    };
    if args.len() > 7 {
        return Err(MountError::UnexpectedArgument);
    }
    Ok(MountHead::Recover(RecoverRequest { chroots, chroots_identity, mountpoint, force }))
}

/// Reads what the helper is asked for, as far as it must be known before the sandbox's root
/// directory is looked at.
pub fn parse_head(args: &[Vec<u8>]) -> (r: Result<MountHead, MountError>)
    ensures
        match head_in(byte_views(args@)) {
            Ok(view) => r matches Ok(got) && got@ == view,
            Err(e) => r matches Err(got) && got == e,
        },
{
    let operation = match take(args, 1, MountField::Operation) {
        Ok(v) => v,
        Err(e) => {
            return Err(e);
        },
    };
    let recover = text_bytes("recover-orphaned-document-unmount");
    if bytes_eq(operation.as_slice(), recover.as_slice()) {
        return parse_recover(args);
    }
    let root = match take(args, 2, MountField::Root) {
        Ok(v) => v,
        Err(e) => {
            return Err(e);
        },
    };
    let root_identity = match take_identity(args, 3, MountField::RootDevice, MountField::RootInode) {
        Ok(v) => v,
        Err(e) => {
            return Err(e);
        },
    };
    let target = match take(args, 5, MountField::Target) {
        Ok(v) => v,
        Err(e) => {
            return Err(e);
        },
    };
    Ok(MountHead::InSandbox(TargetRequest { operation, root, root_identity, target }))
}

/// What is done at a place in a sandbox.
#[derive(Debug)]
pub enum MountOperation {
    /// Show a directory or a file there; its identity is known unless it is a private source.
    Nullfs { source: Vec<u8>, identity: Option<(u64, u64)>, read_only: bool },
    Tmpfs { options: Vec<u8> },
    Special { kind: SpecialKind },
    Unmount { force: bool },
}

/// The filesystems that show the system's own state.
#[derive(Debug, Clone, Copy, PartialEq, Eq, Structural)]
pub enum SpecialKind {
    Devfs,
    Fdescfs,
    Linprocfs,
    Linsysfs,
}

pub open spec fn special_name(kind: SpecialKind) -> Seq<char> {
    match kind {
        SpecialKind::Devfs => "devfs"@,
        SpecialKind::Fdescfs => "fdescfs"@,
        SpecialKind::Linprocfs => "linprocfs"@,
        SpecialKind::Linsysfs => "linsysfs"@,
    }
}

impl SpecialKind {
    pub fn name(self) -> (r: &'static str)
        ensures
            r@ == special_name(self),
    {
        match self {
            SpecialKind::Devfs => "devfs",
            SpecialKind::Fdescfs => "fdescfs",
            SpecialKind::Linprocfs => "linprocfs",
            SpecialKind::Linsysfs => "linsysfs",
        }
    }
}

pub ghost enum MountOperationView {
    Nullfs(Seq<u8>, Option<(u64, u64)>, bool),
    Tmpfs(Seq<u8>),
    Special(SpecialKind),
    Unmount(bool),
}

impl View for MountOperation {
    type V = MountOperationView;

    open spec fn view(&self) -> MountOperationView {
        match self {
            MountOperation::Nullfs { source, identity, read_only } => MountOperationView::Nullfs(
                source@,
                *identity,
                *read_only,
            ),
            MountOperation::Tmpfs { options } => MountOperationView::Tmpfs(options@),
            MountOperation::Special { kind } => MountOperationView::Special(*kind),
            MountOperation::Unmount { force } => MountOperationView::Unmount(*force),
        }
    }
}

/// Whether a source lies at one of the private places of the sandbox.
pub open spec fn is_private_source(root: Seq<u8>, source: Seq<u8>) -> bool {
    within(byte_path(source), joined(byte_path(root), ".freebsd-flatpak-mount-sources"@))
}

pub open spec fn read_only_in(bytes: Seq<u8>) -> Result<bool, MountError> {
    match text_in(bytes) {
        Some(text) => if text == "ro"@ {
            Ok(true)
        } else if text == "rw"@ {
            Ok(false)
        } else {
            Err(MountError::InvalidAccessMode)
        },
        None => Err(MountError::InvalidAccessMode),
    }
}

/// The identity that a source must have. A source without one must be private.
pub open spec fn source_identity_in(
    root: Seq<u8>,
    source: Seq<u8>,
    device: Seq<u8>,
    inode: Seq<u8>,
) -> Result<Option<(u64, u64)>, MountError> {
    if device == encode_utf8("-"@) && inode == encode_utf8("-"@) {
        if is_private_source(root, source) {
            Ok(None)
        } else {
            Err(MountError::UnverifiedSource)
        }
    } else {
        match identity_of(device, inode) {
            Ok(identity) => Ok(Some(identity)),
            Err(e) => Err(e),
        }
    }
}

pub open spec fn nullfs_in(args: Seq<Seq<u8>>, root: Seq<u8>) -> Result<
    MountOperationView,
    MountError,
> {
    match mount_argument(args, 6, MountField::Source) {
        Err(e) => Err(e),
        Ok(source) => match mount_argument(args, 7, MountField::SourceDevice) {
            Err(e) => Err(e),
            Ok(device) => match mount_argument(args, 8, MountField::SourceInode) {
                Err(e) => Err(e),
                Ok(inode) => match source_identity_in(root, source, device, inode) {
                    Err(e) => Err(e),
                    Ok(identity) => match mount_argument(args, 9, MountField::AccessMode) {
                        Err(e) => Err(e),
                        Ok(access) => match read_only_in(access) {
                            Err(e) => Err(e),
                            Ok(read_only) => if args.len() > 10 {
                                Err(MountError::UnexpectedArgument)
                            } else {
                                Ok(MountOperationView::Nullfs(source, identity, read_only))
                            },
                        },
                    },
                },
            },
        },
    }
}

/// The filesystem of the system's state that a name and a source name.
pub open spec fn special_of(kind: Seq<u8>, source: Seq<u8>) -> Option<SpecialKind> {
    if text_in(kind) != text_in(source) {
        None
    } else if text_in(kind) == Some("devfs"@) {
        Some(SpecialKind::Devfs)
    } else if text_in(kind) == Some("fdescfs"@) {
        Some(SpecialKind::Fdescfs)
    } else if text_in(kind) == Some("linprocfs"@) {
        Some(SpecialKind::Linprocfs)
    } else if text_in(kind) == Some("linsysfs"@) {
        Some(SpecialKind::Linsysfs)
    } else {
        None
    }
}

pub open spec fn special_in(args: Seq<Seq<u8>>) -> Result<MountOperationView, MountError> {
    match mount_argument(args, 6, MountField::SpecialType) {
        Err(e) => Err(e),
        Ok(kind) => match mount_argument(args, 7, MountField::SpecialSource) {
            Err(e) => Err(e),
            Ok(source) => if args.len() > 8 {
                Err(MountError::UnexpectedArgument)
            } else {
                match special_of(kind, source) {
                    Some(special) => Ok(MountOperationView::Special(special)),
                    None => Err(MountError::UnsupportedSpecial),
                }
            },
        },
    }
}

/// What is to be done at the place, or the first thing that is wrong with the arguments.
pub open spec fn operation_in(
    args: Seq<Seq<u8>>,
    operation: Seq<u8>,
    root: Seq<u8>,
) -> Result<MountOperationView, MountError> {
    if operation == encode_utf8("nullfs"@) {
        nullfs_in(args, root)
    } else if operation == encode_utf8("tmpfs"@) {
        match mount_argument(args, 6, MountField::TmpfsOptions) {
            Err(e) => Err(e),
            Ok(options) => if args.len() > 7 {
                Err(MountError::UnexpectedArgument)
            } else {
                Ok(MountOperationView::Tmpfs(options))
            },
        }
    } else if operation == encode_utf8("special"@) {
        special_in(args)
    } else if operation == encode_utf8("unmount"@) {
        match mount_argument(args, 6, MountField::UnmountMode) {
            Err(e) => Err(e),
            Ok(mode) => match force_in(mode) {
                Err(e) => Err(e),
                Ok(force) => if args.len() > 7 {
                    Err(MountError::UnexpectedArgument)
                } else {
                    Ok(MountOperationView::Unmount(force))
                },
            },
        }
    } else {
        Err(MountError::UnsupportedOperation)
    }
}

fn parse_read_only(bytes: &[u8]) -> (r: Result<bool, MountError>)
    ensures
        r == read_only_in(bytes@),
{
    match bytes_text(bytes) {
        Some(text) => if text_eq(&text, "ro") {
            Ok(true)
        } else if text_eq(&text, "rw") {
            Ok(false)
        } else {
            Err(MountError::InvalidAccessMode)
        },
        None => Err(MountError::InvalidAccessMode),
    }
}

fn parse_source_identity(root: &[u8], source: &[u8], device: &[u8], inode: &[u8]) -> (r: Result<
    Option<(u64, u64)>,
    MountError,
>)
    ensures
        r == source_identity_in(root@, source@, device@, inode@),
{
    let dash = text_bytes("-");
    if bytes_eq(device, dash.as_slice()) && bytes_eq(inode, dash.as_slice()) {
        let private = path_of_bytes(root).join(".freebsd-flatpak-mount-sources");
        if path_of_bytes(source).starts_with(&private) {
            Ok(None)
        } else {
            Err(MountError::UnverifiedSource)
        }
    } else {
        match parse_identity(device, inode) {
            Ok(identity) => Ok(Some(identity)),
            Err(e) => Err(e),
        }
    }
}

fn parse_nullfs(args: &[Vec<u8>], root: &[u8]) -> (r: Result<MountOperation, MountError>)
    ensures
        match nullfs_in(byte_views(args@), root@) {
            Ok(view) => r matches Ok(got) && got@ == view,
            Err(e) => r matches Err(got) && got == e,
        },
{
    let source = match take(args, 6, MountField::Source) {
        Ok(v) => v,
        Err(e) => {
            return Err(e);
        },
    };
    let device = match take(args, 7, MountField::SourceDevice) {
        Ok(v) => v,
        Err(e) => {
            return Err(e);
        },
    };
    let inode = match take(args, 8, MountField::SourceInode) {
        Ok(v) => v,
        Err(e) => {
            return Err(e);
        },
    };
    let identity = match parse_source_identity(
        root,
        source.as_slice(),
        device.as_slice(),
        inode.as_slice(),
    ) {
        Ok(v) => v,
        Err(e) => {
            return Err(e);
        },
    };
    let access = match take(args, 9, MountField::AccessMode) {
        Ok(v) => v,
        Err(e) => {
            return Err(e);
        },
    };
    let read_only = match parse_read_only(access.as_slice()) {
        Ok(v) => v,
        Err(e) => {
            return Err(e);
        },
    };
    if args.len() > 10 {
        return Err(MountError::UnexpectedArgument);
    }
    Ok(MountOperation::Nullfs { source, identity, read_only })
}

fn parse_special(args: &[Vec<u8>]) -> (r: Result<MountOperation, MountError>)
    ensures
        match special_in(byte_views(args@)) {
            Ok(view) => r matches Ok(got) && got@ == view,
            Err(e) => r matches Err(got) && got == e,
        },
{
    let kind = match take(args, 6, MountField::SpecialType) {
        Ok(v) => v,
        Err(e) => {
            return Err(e);
        },
    };
    let source = match take(args, 7, MountField::SpecialSource) {
        Ok(v) => v,
        Err(e) => {
            return Err(e);
        },
    };
    if args.len() > 8 {
        return Err(MountError::UnexpectedArgument);
    }
    let (a, b) = match (bytes_text(kind.as_slice()), bytes_text(source.as_slice())) {
        (Some(a), Some(b)) => (a, b),
        _ => {
            return Err(MountError::UnsupportedSpecial);
        },
    };
    if !text_eq(&a, &b) {
        return Err(MountError::UnsupportedSpecial);
    }
    if text_eq(&a, "devfs") {
        Ok(MountOperation::Special { kind: SpecialKind::Devfs })
    } else if text_eq(&a, "fdescfs") {
        Ok(MountOperation::Special { kind: SpecialKind::Fdescfs })
    } else if text_eq(&a, "linprocfs") {
        Ok(MountOperation::Special { kind: SpecialKind::Linprocfs })
    } else if text_eq(&a, "linsysfs") {
        Ok(MountOperation::Special { kind: SpecialKind::Linsysfs })
    } else {
        Err(MountError::UnsupportedSpecial)
    }
}

/// Reads what is to be done at the place that the request names.
pub fn run_helper(args: &[Vec<u8>], request: &TargetRequest) -> (r: Result<
    MountOperation,
    MountError,
>)
    ensures
        match operation_in(byte_views(args@), request.operation@, request.root@) {
            Ok(view) => r matches Ok(got) && got@ == view,
            Err(e) => r matches Err(got) && got == e,
        },
{
    let operation = request.operation.as_slice();
    let nullfs = text_bytes("nullfs");
    if bytes_eq(operation, nullfs.as_slice()) {
        return parse_nullfs(args, request.root.as_slice());
    }
    let tmpfs = text_bytes("tmpfs");
    if bytes_eq(operation, tmpfs.as_slice()) {
        let options = match take(args, 6, MountField::TmpfsOptions) {
            Ok(v) => v,
            Err(e) => {
                return Err(e);
            },
        };
        if args.len() > 7 {
            return Err(MountError::UnexpectedArgument);
        }
        return Ok(MountOperation::Tmpfs { options });
    }
    let special = text_bytes("special");
    if bytes_eq(operation, special.as_slice()) {
        return parse_special(args);
    }
    let unmount = text_bytes("unmount");
    if bytes_eq(operation, unmount.as_slice()) {
        let mode = match take(args, 6, MountField::UnmountMode) {
            Ok(v) => v,
            Err(e) => {
                return Err(e);
            },
        };
        let force = match parse_force(mode.as_slice()) {
            Ok(v) => v,
            Err(e) => {
                return Err(e);
            },
        };
        if args.len() > 7 {
            return Err(MountError::UnexpectedArgument);
        }
        return Ok(MountOperation::Unmount { force });
    }
    Err(MountError::UnsupportedOperation)
}

} // verus!
