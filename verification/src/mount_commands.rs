//! The commands that ask the mount helper for something, and the options of its mounts.

use crate::bytes::{byte_views, copy_bytes, lemma_text_in, text_bytes, text_in};
use crate::launch_request::HelperCommand;
use crate::numbers::{bounded_value, decimal, is_digit, lemma_decimal, render_u64};
use crate::path::is_absolute;
use crate::secure_mount::{
    byte_path, head_in, identity_of, is_private_source, is_relative_target, operation_in,
    path_of_bytes, validate_relative, MountError, MountHeadView, MountOperationView,
};
use vstd::prelude::*;
use vstd::utf8::encode_utf8;

verus! {

/// The arguments for something at a place in a sandbox, after the helper's name.
pub open spec fn target_args(
    operation: Seq<char>,
    root: Seq<u8>,
    identity: (u64, u64),
    target: Seq<u8>,
) -> Seq<Seq<u8>> {
    seq![
        encode_utf8(operation),
        root,
        encode_utf8(decimal(identity.0 as nat)),
        encode_utf8(decimal(identity.1 as nat)),
        target,
    ]
}

/// The arguments of the helper that show a source at a place.
pub open spec fn nullfs_args(
    root: Seq<u8>,
    identity: (u64, u64),
    source: Seq<u8>,
    source_identity: Option<(u64, u64)>,
    target: Seq<u8>,
    read_only: bool,
) -> Seq<Seq<u8>> {
    target_args("nullfs"@, root, identity, target) + seq![
        source,
        match source_identity {
            Some(i) => encode_utf8(decimal(i.0 as nat)),
            None => encode_utf8("-"@),
        },
        match source_identity {
            Some(i) => encode_utf8(decimal(i.1 as nat)),
            None => encode_utf8("-"@),
        },
        encode_utf8(
            if read_only {
                "ro"@
            } else {
                "rw"@
            },
        ),
    ]
}

fn helper(args: Vec<Vec<u8>>) -> (r: HelperCommand)
    ensures
        r.program@ == "/usr/local/libexec/freebsd-flatpak/secure-mount"@,
        r.args@ == args@,
{
    HelperCommand {
        program: "/usr/local/libexec/freebsd-flatpak/secure-mount".to_owned(),
        args,
    }
}

fn target_arguments(
    operation: &str,
    root: &[u8],
    identity: (u64, u64),
    target: &[u8],
) -> (r: Vec<Vec<u8>>)
    ensures
        byte_views(r@) == target_args(operation@, root@, identity, target@),
{
    let mut out: Vec<Vec<u8>> = Vec::new();
    out.push(text_bytes(operation));
    out.push(copy_bytes(root));
    out.push(text_bytes(&render_u64(identity.0)));
    out.push(text_bytes(&render_u64(identity.1)));
    out.push(copy_bytes(target));
    assert(byte_views(out@) =~= target_args(operation@, root@, identity, target@));
    out
}

/// The command that shows a source at a place in a sandbox. A source whose identity is not given
/// must be private.
pub fn nullfs_command(
    root: &[u8],
    root_identity: (u64, u64),
    source: &[u8],
    source_identity: Option<(u64, u64)>,
    target: &[u8],
    read_only: bool,
) -> (r: Result<HelperCommand, MountError>)
    ensures
        r is Ok <==> is_relative_target(byte_path(target@)),
        r matches Err(e) ==> e == MountError::TargetNotNormalized,
        r matches Ok(c) ==> c.program@ == "/usr/local/libexec/freebsd-flatpak/secure-mount"@
            && byte_views(c.args@) == nullfs_args(
            root@,
            root_identity,
            source@,
            source_identity,
            target@,
            read_only,
        ),
{
    if !validate_relative(&path_of_bytes(target)) {
        return Err(MountError::TargetNotNormalized);
    }
    let mut out = target_arguments("nullfs", root, root_identity, target);
    let ghost start = byte_views(out@);
    out.push(copy_bytes(source));
    match source_identity {
        Some(identity) => {
            out.push(text_bytes(&render_u64(identity.0)));
            out.push(text_bytes(&render_u64(identity.1)));
        },
        None => {
            out.push(text_bytes("-"));
            out.push(text_bytes("-"));
        },
    }
    let access = if read_only {
        "ro"
    } else {
        "rw"
    };
    out.push(text_bytes(access));
    assert(byte_views(out@) =~= nullfs_args(
        root@,
        root_identity,
        source@,
        source_identity,
        target@,
        read_only,
    ));
    Ok(helper(out))
}

/// The command that mounts memory at a place in a sandbox.
pub fn tmpfs_command(
    root: &[u8],
    root_identity: (u64, u64),
    target: &[u8],
    options: &str,
) -> (r: Result<HelperCommand, MountError>)
    ensures
        r is Ok <==> is_relative_target(byte_path(target@)),
        r matches Err(e) ==> e == MountError::TargetNotNormalized,
        r matches Ok(c) ==> c.program@ == "/usr/local/libexec/freebsd-flatpak/secure-mount"@
            && byte_views(c.args@) == target_args(
            "tmpfs"@,
            root@,
            root_identity,
            target@,
        ) + seq![encode_utf8(options@)],
{
    if !validate_relative(&path_of_bytes(target)) {
        return Err(MountError::TargetNotNormalized);
    }
    let mut out = target_arguments("tmpfs", root, root_identity, target);
    let ghost start = byte_views(out@);
    out.push(text_bytes(options));
    assert(byte_views(out@) =~= start + seq![encode_utf8(options@)]);
    Ok(helper(out))
}

/// The command that shows a part of the system's own state at a place in a sandbox.
pub fn special_command(
    root: &[u8],
    root_identity: (u64, u64),
    target: &[u8],
    fs_type: &str,
    source: &str,
) -> (r: Result<HelperCommand, MountError>)
    ensures
        r is Ok <==> is_relative_target(byte_path(target@)),
        r matches Err(e) ==> e == MountError::TargetNotNormalized,
        r matches Ok(c) ==> c.program@ == "/usr/local/libexec/freebsd-flatpak/secure-mount"@
            && byte_views(c.args@) == target_args(
            "special"@,
            root@,
            root_identity,
            target@,
        ) + seq![encode_utf8(fs_type@), encode_utf8(source@)],
{
    if !validate_relative(&path_of_bytes(target)) {
        return Err(MountError::TargetNotNormalized);
    }
    let mut out = target_arguments("special", root, root_identity, target);
    let ghost start = byte_views(out@);
    out.push(text_bytes(fs_type));
    out.push(text_bytes(source));
    assert(byte_views(out@) =~= start + seq![encode_utf8(fs_type@), encode_utf8(source@)]);
    Ok(helper(out))
}

pub open spec fn mode_word(force: bool) -> Seq<char> {
    if force {
        "force"@
    } else {
        "normal"@
    }
}

fn force_word(force: bool) -> (r: &'static str)
    ensures
        r@ == mode_word(force),
{
    if force {
        "force"
    } else {
        "normal"
    }
}

/// The command that takes a mount in a sandbox down.
pub fn unmount_command(
    root: &[u8],
    root_identity: (u64, u64),
    target: &[u8],
    force: bool,
) -> (r: Result<HelperCommand, MountError>)
    ensures
        r is Ok <==> is_relative_target(byte_path(target@)),
        r matches Err(e) ==> e == MountError::TargetNotNormalized,
        r matches Ok(c) ==> c.program@ == "/usr/local/libexec/freebsd-flatpak/secure-mount"@
            && byte_views(c.args@) == target_args(
            "unmount"@,
            root@,
            root_identity,
            target@,
        ) + seq![encode_utf8(mode_word(force))],
{
    if !validate_relative(&path_of_bytes(target)) {
        return Err(MountError::TargetNotNormalized);
    }
    let mut out = target_arguments("unmount", root, root_identity, target);
    let ghost start = byte_views(out@);
    out.push(text_bytes(force_word(force)));
    assert(byte_views(out@) =~= start + seq![encode_utf8(mode_word(force))]);
    Ok(helper(out))
}

/// The command that takes down the mount of a document that was left by a sandbox that is gone.
pub fn recover_orphaned_document_unmount_command(
    chroots: &[u8],
    chroots_identity: (u64, u64),
    mountpoint: &[u8],
    force: bool,
) -> (r: Result<HelperCommand, MountError>)
    ensures
        r is Ok <==> is_absolute(byte_path(mountpoint@)),
        r matches Err(e) ==> e == MountError::RelativeMountpoint,
        r matches Ok(c) ==> c.program@ == "/usr/local/libexec/freebsd-flatpak/secure-mount"@
            && byte_views(c.args@) == target_args(
            "recover-orphaned-document-unmount"@,
            chroots@,
            chroots_identity,
            mountpoint@,
        ) + seq![encode_utf8(mode_word(force))],
{
    if !path_of_bytes(mountpoint).is_absolute() {
        return Err(MountError::RelativeMountpoint);
    }
    let mut out = target_arguments(
        "recover-orphaned-document-unmount",
        chroots,
        chroots_identity,
        mountpoint,
    );
    let ghost start = byte_views(out@);
    out.push(text_bytes(force_word(force)));
    assert(byte_views(out@) =~= start + seq![encode_utf8(mode_word(force))]);
    Ok(helper(out))
}

proof fn lemma_identity_of(identity: (u64, u64))
    ensures
        identity_of(
            encode_utf8(decimal(identity.0 as nat)),
            encode_utf8(decimal(identity.1 as nat)),
        ) == Ok::<(u64, u64), MountError>(identity),
        encode_utf8(decimal(identity.0 as nat)) != encode_utf8("-"@),
{
    lemma_u64_text(identity.0);
    lemma_u64_text(identity.1);
}

proof fn lemma_u64_text(n: u64)
    ensures
        text_in(encode_utf8(decimal(n as nat))) == Some(decimal(n as nat)),
        bounded_value(decimal(n as nat), u64::MAX as nat) == Some(n as nat),
        (n as nat) as u64 == n,
        encode_utf8(decimal(n as nat)) != encode_utf8("-"@),
{
    reveal_strlit("-");
    lemma_decimal(n as nat);
    lemma_text_in(decimal(n as nat));
    lemma_text_in("-"@);
    if encode_utf8(decimal(n as nat)) == encode_utf8("-"@) {
        assert(decimal(n as nat) == "-"@);
        assert(is_digit(decimal(n as nat)[0]));
    }
}

/// The names of the operations are all different.
proof fn lemma_operation_names()
    ensures
        text_in(encode_utf8("nullfs"@)) == Some("nullfs"@),
        encode_utf8("nullfs"@) != encode_utf8("recover-orphaned-document-unmount"@),
        encode_utf8("tmpfs"@) != encode_utf8("recover-orphaned-document-unmount"@),
        encode_utf8("tmpfs"@) != encode_utf8("nullfs"@),
        encode_utf8("unmount"@) != encode_utf8("recover-orphaned-document-unmount"@),
        encode_utf8("unmount"@) != encode_utf8("nullfs"@),
        encode_utf8("unmount"@) != encode_utf8("tmpfs"@),
        encode_utf8("unmount"@) != encode_utf8("special"@),
{
    reveal_strlit("nullfs");
    reveal_strlit("tmpfs");
    reveal_strlit("unmount");
    reveal_strlit("special");
    reveal_strlit("recover-orphaned-document-unmount");
    lemma_text_in("nullfs"@);
    lemma_text_in("tmpfs"@);
    lemma_text_in("unmount"@);
    lemma_text_in("special"@);
    lemma_text_in("recover-orphaned-document-unmount"@);
    assert("unmount"@[0] == 'u' && "special"@[0] == 's');
}

/// The helper reads the request for a mount that the command makes, whatever the name it is
/// called by: the place, the source, its identity and the access. A source without identity is
/// accepted only where it is private.
pub proof fn lemma_nullfs_round_trip(
    name: Seq<u8>,
    root: Seq<u8>,
    identity: (u64, u64),
    source: Seq<u8>,
    source_identity: Option<(u64, u64)>,
    target: Seq<u8>,
    read_only: bool,
)
    ensures
        head_in(
            seq![name] + nullfs_args(root, identity, source, source_identity, target, read_only),
        ) == Ok::<MountHeadView, MountError>(
            MountHeadView::InSandbox(encode_utf8("nullfs"@), root, identity, target),
        ),
        operation_in(
            seq![name] + nullfs_args(root, identity, source, source_identity, target, read_only),
            encode_utf8("nullfs"@),
            root,
        ) == (if source_identity is None && !is_private_source(root, source) {
            Err::<MountOperationView, MountError>(MountError::UnverifiedSource)
        } else {
            Ok(MountOperationView::Nullfs(source, source_identity, read_only))
        }),
{
    let args = seq![name] + nullfs_args(
        root,
        identity,
        source,
        source_identity,
        target,
        read_only,
    );
    lemma_identity_of(identity);
    lemma_operation_names();
    reveal_strlit("ro");
    reveal_strlit("rw");
    lemma_text_in("ro"@);
    lemma_text_in("rw"@);
    assert("ro"@[1] == 'o' && "rw"@[1] == 'w');
    if let Some(i) = source_identity {
        lemma_identity_of(i);
        assert(args[7] == encode_utf8(decimal(i.0 as nat)));
        assert(args[8] == encode_utf8(decimal(i.1 as nat)));
    } else {
        assert(args[7] == encode_utf8("-"@));
        assert(args[8] == encode_utf8("-"@));
    }
    assert(args.len() == 10);
    assert(args[1] == encode_utf8("nullfs"@));
    assert(args[2] == root);
    assert(args[3] == encode_utf8(decimal(identity.0 as nat)));
    assert(args[4] == encode_utf8(decimal(identity.1 as nat)));
    assert(args[5] == target);
    assert(args[6] == source);
    assert(args[9] == encode_utf8(if read_only { "ro"@ } else { "rw"@ }));
}

/// The helper reads the request to take a mount down that the command makes.
pub proof fn lemma_unmount_round_trip(
    name: Seq<u8>,
    root: Seq<u8>,
    identity: (u64, u64),
    target: Seq<u8>,
    force: bool,
)
    ensures
        head_in(
            seq![name] + (target_args("unmount"@, root, identity, target) + seq![
                encode_utf8(mode_word(force)),
            ]),
        ) == Ok::<MountHeadView, MountError>(
            MountHeadView::InSandbox(encode_utf8("unmount"@), root, identity, target),
        ),
        operation_in(
            seq![name] + (target_args("unmount"@, root, identity, target) + seq![
                encode_utf8(mode_word(force)),
            ]),
            encode_utf8("unmount"@),
            root,
        ) == Ok::<MountOperationView, MountError>(MountOperationView::Unmount(force)),
{
    let args = seq![name] + (target_args("unmount"@, root, identity, target) + seq![
        encode_utf8(mode_word(force)),
    ]);
    lemma_identity_of(identity);
    lemma_operation_names();
    reveal_strlit("normal");
    reveal_strlit("force");
    lemma_text_in("normal"@);
    lemma_text_in("force"@);
    assert(args.len() == 7);
    assert(args[1] == encode_utf8("unmount"@));
    assert(args[2] == root);
    assert(args[3] == encode_utf8(decimal(identity.0 as nat)));
    assert(args[4] == encode_utf8(decimal(identity.1 as nat)));
    assert(args[5] == target);
    assert(args[6] == encode_utf8(mode_word(force)));
}

} // verus!
