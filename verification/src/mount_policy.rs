//! What the mount helper accepts, and how it carries a mount out.

use crate::bytes::{bytes_eq, bytes_text, copy_bytes, text_bytes, text_in};
use crate::flatpak_metadata::{lemma_pair_texts_push, pair_texts};
use crate::numbers::{bounded_value, parse_u32, render_i32, signed_decimal};
use crate::path::{
    all_names, components, file_name_of, is_name, joined, parent_of, within, FsPath,
};
use crate::secure_launch::is_private;
use crate::text::{
    chars_of, concat3, split, split_once, split_text, split_text_once, text_eq, texts,
};
use vstd::prelude::*;
use vstd::utf8::encode_utf8;

verus! {

/// Why a sandbox or a mount is not the caller's.
#[derive(Debug, Clone, Copy, PartialEq, Eq, Structural)]
pub enum MountRefusal {
    NoAppParent,
    NoChrootsParent,
    NoRuntimeParent,
    RootNotInstance,
    RootNotPrivate,
    InfoNotOwned,
    NotChroots,
    ChrootsWithoutParent,
    ChrootsNotPrivate,
    MountpointNotNormalized,
    MountpointOutside,
    NotDocumentGrant,
    NotCallersGrant,
    InstanceExists,
    NotNullfs,
    NotRoot,
    RootCaller,
}

pub open spec fn mount_refusal_text(refusal: MountRefusal) -> Seq<char> {
    match refusal {
        MountRefusal::NoAppParent => "sandbox root has no app parent"@,
        MountRefusal::NoChrootsParent => "sandbox root has no chroots parent"@,
        MountRefusal::NoRuntimeParent => "sandbox root has no runtime parent"@,
        MountRefusal::RootNotInstance => "sandbox root is not a freebsd-flatpak instance"@,
        MountRefusal::RootNotPrivate => "sandbox root is not private to caller"@,
        MountRefusal::InfoNotOwned =>
            "sandbox .flatpak-info is not a caller-owned regular file"@,
        MountRefusal::NotChroots =>
            "chroots root is not a freebsd-flatpak chroots directory"@,
        MountRefusal::ChrootsWithoutParent => "chroots root has no runtime parent"@,
        MountRefusal::ChrootsNotPrivate => "chroots root is not private to caller"@,
        MountRefusal::MountpointNotNormalized =>
            "orphaned document mountpoint is not an absolute normalized path"@,
        MountRefusal::MountpointOutside =>
            "orphaned document mountpoint is outside chroots root"@,
        MountRefusal::NotDocumentGrant =>
            "orphaned mountpoint is not a regular-file document grant"@,
        MountRefusal::NotCallersGrant => "orphaned mountpoint is not a caller document grant"@,
        MountRefusal::InstanceExists => "refusing recovery for an existing sandbox instance"@,
        MountRefusal::NotNullfs => "orphaned document mount is not nullfs"@,
        MountRefusal::NotRoot => "secure mount helper must run as root"@,
        MountRefusal::RootCaller => "secure mount helper does not accept root callers"@,
    }
}

impl MountRefusal {
    pub fn message(self) -> (r: &'static str)
        ensures
            r@ == mount_refusal_text(self),
    {
        match self {
            MountRefusal::NoAppParent => "sandbox root has no app parent",
            MountRefusal::NoChrootsParent => "sandbox root has no chroots parent",
            MountRefusal::NoRuntimeParent => "sandbox root has no runtime parent",
            MountRefusal::RootNotInstance => "sandbox root is not a freebsd-flatpak instance",
            MountRefusal::RootNotPrivate => "sandbox root is not private to caller",
            MountRefusal::InfoNotOwned =>
                "sandbox .flatpak-info is not a caller-owned regular file",
            MountRefusal::NotChroots => "chroots root is not a freebsd-flatpak chroots directory",
            MountRefusal::ChrootsWithoutParent => "chroots root has no runtime parent",
            MountRefusal::ChrootsNotPrivate => "chroots root is not private to caller",
            MountRefusal::MountpointNotNormalized =>
                "orphaned document mountpoint is not an absolute normalized path",
            MountRefusal::MountpointOutside =>
                "orphaned document mountpoint is outside chroots root",
            MountRefusal::NotDocumentGrant =>
                "orphaned mountpoint is not a regular-file document grant",
            MountRefusal::NotCallersGrant => "orphaned mountpoint is not a caller document grant",
            MountRefusal::InstanceExists => "refusing recovery for an existing sandbox instance",
            MountRefusal::NotNullfs => "orphaned document mount is not nullfs",
            MountRefusal::NotRoot => "secure mount helper must run as root",
            MountRefusal::RootCaller => "secure mount helper does not accept root callers",
        }
    }
}

/// Whether the helper serves its caller: it needs the rights of root, and does not lend them to
/// root.
pub fn admits_mount_caller(effective_uid: u32, real_uid: u32) -> (r: Result<(), MountRefusal>)
    ensures
        r == (if effective_uid != 0 {
            Err(MountRefusal::NotRoot)
        } else if real_uid == 0 {
            Err(MountRefusal::RootCaller)
        } else {
            Ok(())
        }),
{
    if effective_uid != 0 {
        Err(MountRefusal::NotRoot)
    } else if real_uid == 0 {
        Err(MountRefusal::RootCaller)
    } else {
        Ok(())
    }
}

/// Whether a mount may be taken down for an instance: only for one that is gone.
pub fn check_instance_gone(exists: bool) -> (r: Result<(), MountRefusal>)
    ensures
        r == (if exists {
            Err(MountRefusal::InstanceExists)
        } else {
            Ok(())
        }),
{
    if exists {
        Err(MountRefusal::InstanceExists)
    } else {
        Ok(())
    }
}

/// Whether a filesystem of the kind can be a document that was granted.
pub fn check_document_filesystem(kind: &[u8]) -> (r: Result<(), MountRefusal>)
    ensures
        r == (if kind@ == encode_utf8("nullfs"@) {
            Ok(())
        } else {
            Err(MountRefusal::NotNullfs)
        }),
{
    let nullfs = text_bytes("nullfs");
    if bytes_eq(kind, nullfs.as_slice()) {
        Ok(())
    } else {
        Err(MountRefusal::NotNullfs)
    }
}

/// What is wrong with the place of a sandbox's root directory: it must lie two levels below a
/// directory `chroots`.
pub open spec fn place_refusal(root: Seq<char>) -> Option<MountRefusal> {
    match parent_of(root) {
        None => Some(MountRefusal::NoAppParent),
        Some(app) => match parent_of(app) {
            None => Some(MountRefusal::NoChrootsParent),
            Some(chroots) => match parent_of(chroots) {
                None => Some(MountRefusal::NoRuntimeParent),
                Some(_) => if file_name_of(chroots) != Some("chroots"@) || file_name_of(
                    root,
                ) is None || file_name_of(app) is None {
                    Some(MountRefusal::RootNotInstance)
                } else {
                    None
                },
            },
        },
    }
}

/// The directory of run state that a sandbox's root directory lies in, or what is wrong with its
/// place.
pub fn sandbox_runtime_root(root: &FsPath) -> (r: Result<FsPath, MountRefusal>)
    ensures
        match place_refusal(root@) {
            Some(refusal) => r matches Err(e) && e == refusal,
            None => r matches Ok(runtime) && parent_of(
                parent_of(parent_of(root@)->0)->0,
            ) == Some(runtime@),
        },
{
    let app = match root.parent() {
        Some(p) => p,
        None => {
            return Err(MountRefusal::NoAppParent);
        },
    };
    let chroots = match app.parent() {
        Some(p) => p,
        None => {
            return Err(MountRefusal::NoChrootsParent);
        },
    };
    let runtime = match chroots.parent() {
        Some(p) => p,
        None => {
            return Err(MountRefusal::NoRuntimeParent);
        },
    };
    let named = match chroots.file_name() {
        Some(name) => text_eq(&name, "chroots"),
        None => false,
    };
    if !named || root.file_name().is_none() || app.file_name().is_none() {
        return Err(MountRefusal::RootNotInstance);
    }
    Ok(runtime)
}

/// What is wrong with the owners of a sandbox.
pub fn validate_sandbox_owner(
    runtime_uid: u32,
    runtime_mode: u32,
    root_uid: u32,
    info_is_regular: bool,
    info_uid: u32,
    caller_uid: u32,
) -> (r: Option<MountRefusal>)
    ensures
        r == (if runtime_uid != caller_uid || !is_private(runtime_mode) || root_uid != caller_uid {
            Some(MountRefusal::RootNotPrivate)
        } else if !info_is_regular || info_uid != caller_uid {
            Some(MountRefusal::InfoNotOwned)
        } else {
            None
        }),
{
    if runtime_uid != caller_uid || runtime_mode & 0o077 != 0 || root_uid != caller_uid {
        Some(MountRefusal::RootNotPrivate)
    } else if !info_is_regular || info_uid != caller_uid {
        Some(MountRefusal::InfoNotOwned)
    } else {
        None
    }
}

/// Whether the components are those of a document that is granted to a user in an instance:
/// application, instance, `run/user/<uid>/doc`, grant and file.
pub open spec fn is_document_place(parts: Seq<Seq<char>>) -> bool {
    parts.len() == 8 && forall|i: int| 0 <= i < 8 ==> is_name(#[trigger] parts[i])
}

pub open spec fn is_grant_of(parts: Seq<Seq<char>>, uid: u32) -> bool {
    parts[2] == "run"@ && parts[3] == "user"@ && parts[5] == "doc"@ && bounded_value(
        parts[4],
        u32::MAX as nat,
    ) == Some(uid as nat)
}

/// What the system says of the directory of chroots.
#[derive(Debug)]
pub struct ChrootsFacts {
    /// The directory, without symbolic links.
    pub chroots: FsPath,
    pub runtime_uid: u32,
    pub runtime_mode: u32,
    pub chroots_uid: u32,
}

/// What is wrong with a mount that is to be taken down for a sandbox that is gone.
pub open spec fn document_refusal(
    facts: ChrootsFacts,
    mountpoint: Seq<char>,
    uid: u32,
) -> Option<MountRefusal> {
    if file_name_of(facts.chroots@) != Some("chroots"@) {
        Some(MountRefusal::NotChroots)
    } else if parent_of(facts.chroots@) is None {
        Some(MountRefusal::ChrootsWithoutParent)
    } else if facts.runtime_uid != uid || !is_private(facts.runtime_mode) || facts.chroots_uid
        != uid {
        Some(MountRefusal::ChrootsNotPrivate)
    } else if !crate::filesystem_grants::is_clean_absolute(mountpoint) {
        Some(MountRefusal::MountpointNotNormalized)
    } else if !within(mountpoint, facts.chroots@) {
        Some(MountRefusal::MountpointOutside)
    } else {
        let parts = components(mountpoint).skip(components(facts.chroots@).len() as int);
        if !is_document_place(parts) {
            Some(MountRefusal::NotDocumentGrant)
        } else if !is_grant_of(parts, uid) {
            Some(MountRefusal::NotCallersGrant)
        } else {
            None
        }
    }
}

/// What is wrong with a mount that is to be taken down for a sandbox that is gone, or the path of
/// the instance, which must not exist any more.
pub fn validate_orphaned_document_mountpoint(
    facts: &ChrootsFacts,
    mountpoint: &FsPath,
    caller_uid: u32,
) -> (r: Result<FsPath, MountRefusal>)
    ensures
        match document_refusal(*facts, mountpoint@, caller_uid) {
            Some(refusal) => r matches Err(e) && e == refusal,
            None => r matches Ok(instance) && instance@ == joined(
                components(mountpoint@)[components(facts.chroots@).len() as int],
                components(mountpoint@)[components(facts.chroots@).len() as int + 1],
            ),
        },
{
    let named = match facts.chroots.file_name() {
        Some(name) => text_eq(&name, "chroots"),
        None => false,
    };
    if !named {
        return Err(MountRefusal::NotChroots);
    }
    if facts.chroots.parent().is_none() {
        return Err(MountRefusal::ChrootsWithoutParent);
    }
    if facts.runtime_uid != caller_uid || facts.runtime_mode & 0o077 != 0 || facts.chroots_uid
        != caller_uid {
        return Err(MountRefusal::ChrootsNotPrivate);
    }
    if !mountpoint.is_absolute() || crate::filesystem_permissions::has_parent_component(
        mountpoint,
    ) {
        return Err(MountRefusal::MountpointNotNormalized);
    }
    let relative = match mountpoint.strip_prefix(&facts.chroots) {
        Some(relative) => relative,
        None => {
            return Err(MountRefusal::MountpointOutside);
        },
    };
    let parts = relative.components();
    let ghost all = components(mountpoint@).skip(components(facts.chroots@).len() as int);
    assert(texts(parts@) == all);
    assert(all.len() == parts@.len());
    if parts.len() != 8 || !all_names(parts.as_slice()) {
        return Err(MountRefusal::NotDocumentGrant);
    }
    proof {
        assert(all[0] == parts@[0]@ && all[1] == parts@[1]@ && all[2] == parts@[2]@ && all[3]
            == parts@[3]@ && all[4] == parts@[4]@ && all[5] == parts@[5]@);
    }
    let callers = match parse_u32(&parts[4]) {
        Some(uid) => uid == caller_uid,
        None => false,
    };
    if !text_eq(&parts[2], "run") || !text_eq(&parts[3], "user") || !text_eq(&parts[5], "doc")
        || !callers {
        return Err(MountRefusal::NotCallersGrant);
    }
    Ok(FsPath { text: parts[0].clone() }.join(&parts[1]))
}

/// The number that a text of octal digits names.
pub open spec fn octal_digits(s: Seq<char>) -> Option<nat>
    decreases s.len(),
{
    if s.len() == 0 || !('0' <= s.last() <= '7') {
        None
    } else {
        let digit = (s.last() as u32 - 48) as nat;
        if s.len() == 1 {
            Some(digit)
        } else {
            match octal_digits(s.drop_last()) {
                Some(n) => Some(n * 8 + digit),
                None => None,
            }
        }
    }
}

/// The number that a text of octal digits names, after a plus sign or without one.
pub open spec fn octal_value(s: Seq<char>) -> Option<nat> {
    if s.len() > 0 && s[0] == '+' {
        octal_digits(s.skip(1))
    } else {
        octal_digits(s)
    }
}

proof fn lemma_octal_grows(s: Seq<char>, i: int)
    requires
        0 < i <= s.len(),
    ensures
        octal_digits(s) is Some ==> octal_digits(s.take(i)) is Some && octal_digits(s.take(i))->0
            <= octal_digits(s)->0,
    decreases s.len() - i,
{
    if i == s.len() {
        assert(s.take(i) =~= s);
    } else {
        lemma_octal_grows(s, i + 1);
        assert(s.take(i + 1).drop_last() =~= s.take(i));
    }
}

/// Reads an octal number of 32 bits.
pub fn parse_octal(text: &str) -> (r: Option<u32>)
    ensures
        r is Some <==> octal_value(text@) is Some && octal_value(text@)->0 <= u32::MAX,
        r matches Some(n) ==> octal_value(text@) == Some(n as nat),
{
    let chars = chars_of(text);
    let from: usize = if chars.len() > 0 && chars[0] == '+' {
        1
    } else {
        0
    };
    let ghost s = chars@.skip(from as int);
    assert(chars@.skip(0) =~= chars@);
    if chars.len() == from {
        return None;
    }
    let mut value: u64 = 0;
    let mut i: usize = from;
    while i < chars.len()
        invariant
            from <= i <= chars@.len(),
            s == chars@.skip(from as int),
            octal_value(text@) == octal_digits(s),
            i > from ==> octal_digits(s.take(i - from)) == Some(value as nat),
            i == from ==> value == 0,
            value <= u32::MAX,
        decreases chars@.len() - i,
    {
        let c: char = chars[i];
        proof {
            let next = s.take(i - from + 1);
            assert(next.drop_last() =~= s.take(i - from));
            assert(next.last() == c);
            lemma_octal_grows(s, i - from + 1);
        }
        if !('0' <= c && c <= '7') {
            return None;
        }
        let next: u64 = value * 8 + (c as u32 - 48) as u64;
        if next > u32::MAX as u64 {
            return None;
        }
        value = next;
        i += 1;
    }
    assert(s.take(i - from) =~= s);
    Some(value as u32)
}

/// What is wrong with the options of a mount of memory.
#[derive(Debug, Clone, Copy, PartialEq, Eq, Structural)]
pub enum TmpfsError {
    NotUtf8,
    NeedsValue,
    InvalidMode,
    ModeOutOfRange,
    InvalidOwner,
    Unsupported,
}

impl TmpfsError {
    pub fn message(self) -> (r: &'static str)
        ensures
            r@ == (match self {
                TmpfsError::NotUtf8 => "tmpfs options are not UTF-8"@,
                TmpfsError::NeedsValue => "tmpfs option requires a value"@,
                TmpfsError::InvalidMode => "invalid tmpfs mode"@,
                TmpfsError::ModeOutOfRange => "tmpfs mode is out of range"@,
                TmpfsError::InvalidOwner => "invalid tmpfs owner"@,
                TmpfsError::Unsupported => "unsupported tmpfs option"@,
            }),
    {
        match self {
            TmpfsError::NotUtf8 => "tmpfs options are not UTF-8",
            TmpfsError::NeedsValue => "tmpfs option requires a value",
            TmpfsError::InvalidMode => "invalid tmpfs mode",
            TmpfsError::ModeOutOfRange => "tmpfs mode is out of range",
            TmpfsError::InvalidOwner => "invalid tmpfs owner",
            TmpfsError::Unsupported => "unsupported tmpfs option",
        }
    }
}

/// What a mount of memory is to be like: the options for the mount, and the mode and the owner
/// that its root directory gets afterwards.
#[derive(Debug)]
pub struct TmpfsSettings {
    pub options: Vec<(String, String)>,
    pub mode: Option<u16>,
    pub uid: Option<u32>,
    pub gid: Option<u32>,
}

pub ghost struct TmpfsView {
    pub options: Seq<(Seq<char>, Seq<char>)>,
    pub mode: Option<u16>,
    pub uid: Option<u32>,
    pub gid: Option<u32>,
}

impl View for TmpfsSettings {
    type V = TmpfsView;

    open spec fn view(&self) -> TmpfsView {
        TmpfsView {
            options: pair_texts(self.options@),
            mode: self.mode,
            uid: self.uid,
            gid: self.gid,
        }
    }
}

/// The settings with one more option.
pub open spec fn with_tmpfs_option(before: TmpfsView, option: Seq<char>) -> Result<
    TmpfsView,
    TmpfsError,
> {
    match split_once(option, '=') {
        None => Err(TmpfsError::NeedsValue),
        Some((name, value)) => {
            let options = before.options.push((name, value));
            if name == "mode"@ {
                match octal_value(value) {
                    None => Err(TmpfsError::InvalidMode),
                    Some(n) => if n > u32::MAX {
                        Err(TmpfsError::InvalidMode)
                    } else if n > u16::MAX {
                        Err(TmpfsError::ModeOutOfRange)
                    } else {
                        Ok(TmpfsView { options, mode: Some(n as u16), ..before })
                    },
                }
            } else if name == "uid"@ {
                match bounded_value(value, u32::MAX as nat) {
                    None => Err(TmpfsError::InvalidOwner),
                    Some(n) => Ok(TmpfsView { options, uid: Some(n as u32), ..before }),
                }
            } else if name == "gid"@ {
                match bounded_value(value, u32::MAX as nat) {
                    None => Err(TmpfsError::InvalidOwner),
                    Some(n) => Ok(TmpfsView { options, gid: Some(n as u32), ..before }),
                }
            } else {
                Err(TmpfsError::Unsupported)
            }
        },
    }
}

/// The settings that the pieces make, or the first thing that is wrong with them; empty pieces say
/// nothing.
pub open spec fn tmpfs_settings(pieces: Seq<Seq<char>>) -> Result<TmpfsView, TmpfsError>
    decreases pieces.len(),
{
    if pieces.len() == 0 {
        Ok(TmpfsView { options: Seq::empty(), mode: None, uid: None, gid: None })
    } else {
        match tmpfs_settings(pieces.drop_last()) {
            Err(e) => Err(e),
            Ok(before) => if pieces.last().len() == 0 {
                Ok(before)
            } else {
                with_tmpfs_option(before, pieces.last())
            },
        }
    }
}

pub open spec fn tmpfs_in(bytes: Seq<u8>) -> Result<TmpfsView, TmpfsError> {
    match text_in(bytes) {
        None => Err(TmpfsError::NotUtf8),
        Some(text) => tmpfs_settings(split(text, ',')),
    }
}

proof fn lemma_first_bad_option(pieces: Seq<Seq<char>>, n: int)
    requires
        0 <= n <= pieces.len(),
        tmpfs_settings(pieces.take(n)) is Err,
    ensures
        tmpfs_settings(pieces) == tmpfs_settings(pieces.take(n)),
    decreases pieces.len() - n,
{
    if n == pieces.len() {
        assert(pieces.take(n) =~= pieces);
    } else {
        assert(pieces.take(n + 1).drop_last() =~= pieces.take(n));
        lemma_first_bad_option(pieces, n + 1);
    }
}

fn add_tmpfs_option(settings: &mut TmpfsSettings, option: &str) -> (r: Result<(), TmpfsError>)
    ensures
        match with_tmpfs_option(old(settings)@, option@) {
            Ok(view) => r is Ok && final(settings)@ == view,
            Err(e) => r == Err::<(), TmpfsError>(e),
        },
{
    let (name, value) = match split_text_once(option, '=') {
        Some(parts) => parts,
        None => {
            return Err(TmpfsError::NeedsValue);
        },
    };
    if text_eq(&name, "mode") {
        let mode: u32 = match parse_octal(&value) {
            Some(n) => n,
            None => {
                return Err(TmpfsError::InvalidMode);
            },
        };
        if mode > 0xffff {
            return Err(TmpfsError::ModeOutOfRange);
        }
        settings.mode = Some(mode as u16);
    } else if text_eq(&name, "uid") {
        match parse_u32(&value) {
            Some(n) => {
                settings.uid = Some(n);
            },
            None => {
                return Err(TmpfsError::InvalidOwner);
            },
        }
    } else if text_eq(&name, "gid") {
        match parse_u32(&value) {
            Some(n) => {
                settings.gid = Some(n);
            },
            None => {
                return Err(TmpfsError::InvalidOwner);
            },
        }
    } else {
        return Err(TmpfsError::Unsupported);
    }
    let pair = (name, value);
    proof {
        lemma_pair_texts_push(settings.options@, pair);
    }
    settings.options.push(pair);
    Ok(())
}

/// Reads the options of a mount of memory.
pub fn nmount_tmpfs(options: &[u8]) -> (r: Result<TmpfsSettings, TmpfsError>)
    ensures
        match tmpfs_in(options@) {
            Ok(view) => r matches Ok(settings) && settings@ == view,
            Err(e) => r matches Err(got) && got == e,
        },
{
    let text = match bytes_text(options) {
        Some(text) => text,
        None => {
            return Err(TmpfsError::NotUtf8);
        },
    };
    let pieces = split_text(&text, ',');
    let ghost all = texts(pieces@);
    let mut settings = TmpfsSettings { options: Vec::new(), mode: None, uid: None, gid: None };
    let mut i: usize = 0;
    assert(all.take(0) =~= Seq::<Seq<char>>::empty());
    assert(settings@.options =~= Seq::<(Seq<char>, Seq<char>)>::empty());
    while i < pieces.len()
        invariant
            i <= pieces@.len(),
            all == texts(pieces@),
            tmpfs_in(options@) == tmpfs_settings(all),
            tmpfs_settings(all.take(i as int)) == Ok::<TmpfsView, TmpfsError>(settings@),
        decreases pieces@.len() - i,
    {
        proof {
            let next = all.take(i + 1);
            assert(next.drop_last() =~= all.take(i as int));
            assert(next.last() == pieces@[i as int]@);
        }
        if pieces[i].as_str().unicode_len() > 0 {
            match add_tmpfs_option(&mut settings, &pieces[i]) {
                Ok(()) => {},
                Err(e) => {
                    proof {
                        lemma_first_bad_option(all, i + 1);
                    }
                    return Err(e);
                },
            }
        }
        i += 1;
    }
    assert(all.take(i as int) =~= all);
    Ok(settings)
}

/// How the mount of a single file is brought to an end: the protection of the directory that it
/// is in must be lifted again, and where that fails the mount is rolled back.
#[derive(Debug, Clone, Copy, PartialEq, Eq, Structural)]
pub enum FileMountState {
    LiftingProtection { mounted: bool },
    RollingBack,
    LiftingAgain { rolled_back: bool },
    Ended(FileMountOutcome),
}

#[derive(Debug, Clone, Copy, PartialEq, Eq, Structural)]
pub enum FileMountOutcome {
    Clean,
    MountFailed,
    MountAndRestorationFailed,
    RolledBack,
    RolledBackWithoutRestoration,
    /// The mount may still be there: it counts as made, so that it is taken down later.
    NeedsTrackedCleanup { restored: bool },
}

#[derive(Debug, Clone, Copy, PartialEq, Eq, Structural)]
pub enum FileMountAction {
    Restore,
    RollBack,
    Finish(FileMountOutcome),
}

/// What is done in a state.
pub fn file_mount_action(state: FileMountState) -> (r: FileMountAction)
    ensures
        r == (match state {
            FileMountState::LiftingProtection { .. } => FileMountAction::Restore,
            FileMountState::RollingBack => FileMountAction::RollBack,
            FileMountState::LiftingAgain { .. } => FileMountAction::Restore,
            FileMountState::Ended(outcome) => FileMountAction::Finish(outcome),
        }),
{
    match state {
        FileMountState::LiftingProtection { .. } => FileMountAction::Restore,
        FileMountState::RollingBack => FileMountAction::RollBack,
        FileMountState::LiftingAgain { .. } => FileMountAction::Restore,
        FileMountState::Ended(outcome) => FileMountAction::Finish(outcome),
    }
}

pub open spec fn file_mount_next(state: FileMountState, succeeded: bool) -> FileMountState {
    match state {
        FileMountState::LiftingProtection { mounted } => if mounted && !succeeded {
            FileMountState::RollingBack
        } else {
            FileMountState::Ended(
                if mounted {
                    FileMountOutcome::Clean
                } else if succeeded {
                    FileMountOutcome::MountFailed
                } else {
                    FileMountOutcome::MountAndRestorationFailed
                },
            )
        },
        FileMountState::RollingBack => FileMountState::LiftingAgain { rolled_back: succeeded },
        FileMountState::LiftingAgain { rolled_back } => FileMountState::Ended(
            if !rolled_back {
                FileMountOutcome::NeedsTrackedCleanup { restored: succeeded }
            } else if succeeded {
                FileMountOutcome::RolledBack
            } else {
                FileMountOutcome::RolledBackWithoutRestoration
            },
        ),
        FileMountState::Ended(outcome) => FileMountState::Ended(outcome),
    }
}

/// The state after what is done in a state has succeeded or failed.
pub fn finish_regular_file_mount(state: FileMountState, succeeded: bool) -> (r: FileMountState)
    ensures
        r == file_mount_next(state, succeeded),
{
    match state {
        FileMountState::LiftingProtection { mounted } => {
            if mounted {
                if succeeded {
                    FileMountState::Ended(FileMountOutcome::Clean)
                } else {
                    FileMountState::RollingBack
                }
            } else if succeeded {
                FileMountState::Ended(FileMountOutcome::MountFailed)
            } else {
                FileMountState::Ended(FileMountOutcome::MountAndRestorationFailed)
            }
        },
        FileMountState::RollingBack => FileMountState::LiftingAgain { rolled_back: succeeded },
        FileMountState::LiftingAgain { rolled_back } => {
            if !rolled_back {
                FileMountState::Ended(FileMountOutcome::NeedsTrackedCleanup { restored: succeeded })
            } else if succeeded {
                FileMountState::Ended(FileMountOutcome::RolledBack)
            } else {
                FileMountState::Ended(FileMountOutcome::RolledBackWithoutRestoration)
            }
        },
        FileMountState::Ended(outcome) => FileMountState::Ended(outcome),
    }
}

/// Whatever fails, a mount that was made is either reported as made or was rolled back; and
/// where the protection could not be lifted, that is tried once more.
pub proof fn lemma_file_mount_is_tracked(first: bool, second: bool, third: bool)
    ensures
        ({
            let start = FileMountState::LiftingProtection { mounted: true };
            let one = file_mount_next(start, first);
            let two = file_mount_next(one, second);
            let three = file_mount_next(two, third);
            &&& first ==> one == FileMountState::Ended(FileMountOutcome::Clean)
            &&& !first ==> one == FileMountState::RollingBack && two is LiftingAgain
                && three is Ended
            &&& !first && !second ==> three == FileMountState::Ended(
                FileMountOutcome::NeedsTrackedCleanup { restored: third },
            )
            &&& !first && second ==> three == FileMountState::Ended(FileMountOutcome::RolledBack)
                || three == FileMountState::Ended(
                FileMountOutcome::RolledBackWithoutRestoration,
            )
        }),
{
}

/// The mode of a directory that nobody may write to while a file in it is mounted over.
pub fn locked_mode(mode: u32) -> (r: u32)
    ensures
        r == mode & !0o222u32,
        r & 0o222 == 0,
{
    assert((mode & !0o222u32) & 0o222 == 0) by (bit_vector);
    mode & !0o222u32
}

/// The name by which a filesystem is taken down.
pub fn filesystem_name(first: i32, second: i32) -> (r: String)
    ensures
        r@ == "FSID:"@ + signed_decimal(first as int) + ":"@ + signed_decimal(second as int),
{
    let mut out = concat3("FSID:", &render_i32(first), ":");
    out.append(&render_i32(second));
    out
}

/// Whether the table of mounts that the system gave can be read; it is the number of entries.
pub fn getmntinfo_mounts(count: i32, has_table: bool) -> (r: Option<usize>)
    ensures
        r is Some <==> count > 0 && has_table,
        r matches Some(n) ==> n == count,
{
    if count <= 0 || !has_table {
        None
    } else {
        Some(count as usize)
    }
}

/// The first entry of the table of mounts with the place.
pub fn mounted_filesystem_named(places: &[Vec<u8>], expected: &[u8]) -> (r: Option<usize>)
    ensures
        r matches Some(i) ==> i < places@.len() && places@[i as int]@ == expected@ && forall|j: int|
            0 <= j < i ==> (#[trigger] places@[j])@ != expected@,
        r is None ==> forall|j: int| 0 <= j < places@.len() ==> (#[trigger] places@[j])@
            != expected@,
{
    let mut i: usize = 0;
    while i < places.len()
        invariant
            i <= places@.len(),
            forall|j: int| 0 <= j < i ==> (#[trigger] places@[j])@ != expected@,
        decreases places@.len() - i,
    {
        if bytes_eq(places[i].as_slice(), expected) {
            return Some(i);
        }
        i += 1;
    }
    None
}

/// An option of a mount.
#[derive(Debug)]
pub enum MountOption {
    Value(String, Vec<u8>),
    Flag(String),
}

pub ghost enum MountOptionView {
    Value(Seq<char>, Seq<u8>),
    Flag(Seq<char>),
}

impl View for MountOption {
    type V = MountOptionView;

    open spec fn view(&self) -> MountOptionView {
        match self {
            MountOption::Value(name, value) => MountOptionView::Value(name@, value@),
            MountOption::Flag(name) => MountOptionView::Flag(name@),
        }
    }
}

/// The options of a mount that shows a source under a name in the current directory; it must not
/// cover another mount.
pub fn nmount_nullfs(source: &[u8], name: &[u8]) -> (r: Vec<MountOption>)
    ensures
        crate::text::views(r@) == seq![
            MountOptionView::Value("fstype"@, encode_utf8("nullfs"@)),
            MountOptionView::Value("fspath"@, name@),
            MountOptionView::Value("target"@, source@),
            MountOptionView::Flag("nocover"@),
        ],
{
    let mut out: Vec<MountOption> = Vec::new();
    out.push(MountOption::Value("fstype".to_owned(), text_bytes("nullfs")));
    out.push(MountOption::Value("fspath".to_owned(), copy_bytes(name)));
    out.push(MountOption::Value("target".to_owned(), copy_bytes(source)));
    out.push(MountOption::Flag("nocover".to_owned()));
    assert(crate::text::views(out@) =~= seq![
        MountOptionView::Value("fstype"@, encode_utf8("nullfs"@)),
        MountOptionView::Value("fspath"@, name@),
        MountOptionView::Value("target"@, source@),
        MountOptionView::Flag("nocover"@),
    ]);
    out
}

/// The options of a mount that shows a part of the system's own state in the current directory.
pub fn nmount_special(kind: crate::secure_mount::SpecialKind) -> (r: Vec<MountOption>)
    ensures
        crate::text::views(r@) == seq![
            MountOptionView::Value(
                "fstype"@,
                encode_utf8(crate::secure_mount::special_name(kind)),
            ),
            MountOptionView::Value("fspath"@, encode_utf8("."@)),
            MountOptionView::Value("from"@, encode_utf8(crate::secure_mount::special_name(kind))),
        ],
{
    let mut out: Vec<MountOption> = Vec::new();
    out.push(MountOption::Value("fstype".to_owned(), text_bytes(kind.name())));
    out.push(MountOption::Value("fspath".to_owned(), text_bytes(".")));
    out.push(MountOption::Value("from".to_owned(), text_bytes(kind.name())));
    assert(crate::text::views(out@) =~= seq![
        MountOptionView::Value("fstype"@, encode_utf8(crate::secure_mount::special_name(kind))),
        MountOptionView::Value("fspath"@, encode_utf8("."@)),
        MountOptionView::Value("from"@, encode_utf8(crate::secure_mount::special_name(kind))),
    ]);
    out
}

/// The options of a mount of memory in the current directory, before those that were asked for.
pub fn tmpfs_base_options() -> (r: Vec<MountOption>)
    ensures
        crate::text::views(r@) == seq![
            MountOptionView::Value("fstype"@, encode_utf8("tmpfs"@)),
            MountOptionView::Value("fspath"@, encode_utf8("."@)),
            MountOptionView::Value("from"@, encode_utf8("tmpfs"@)),
            MountOptionView::Flag("nocover"@),
        ],
{
    let mut out: Vec<MountOption> = Vec::new();
    out.push(MountOption::Value("fstype".to_owned(), text_bytes("tmpfs")));
    out.push(MountOption::Value("fspath".to_owned(), text_bytes(".")));
    out.push(MountOption::Value("from".to_owned(), text_bytes("tmpfs")));
    out.push(MountOption::Flag("nocover".to_owned()));
    assert(crate::text::views(out@) =~= seq![
        MountOptionView::Value("fstype"@, encode_utf8("tmpfs"@)),
        MountOptionView::Value("fspath"@, encode_utf8("."@)),
        MountOptionView::Value("from"@, encode_utf8("tmpfs"@)),
        MountOptionView::Flag("nocover"@),
    ]);
    out
}

} // verus!
