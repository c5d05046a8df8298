//! What the privileged mount helper accepts, and what it takes it for.

use crate::bytes::text_in;
use crate::numbers::bounded_value;
use crate::path::{body, components, is_absolute, joined, lead, within};
use crate::secure_mount::{
    byte_path, head_in, identity_of, is_relative_target, operation_in, MountError, MountHeadView,
    MountOperationView, SpecialKind,
};
use vstd::prelude::*;
use vstd::utf8::encode_utf8;

verus! {

/// Whether two arguments hold the numbers of a device and an inode.
pub open spec fn is_identity(device: Seq<u8>, inode: Seq<u8>, identity: (u64, u64)) -> bool {
    &&& text_in(device) is Some && bounded_value(text_in(device)->0, u64::MAX as nat) == Some(
        identity.0 as nat,
    )
    &&& text_in(inode) is Some && bounded_value(text_in(inode)->0, u64::MAX as nat) == Some(
        identity.1 as nat,
    )
}

/// Whether the arguments ask that a source is shown: the source stands there with its identity, or
/// with none if it is one of the private sources of the sandbox itself; and how it may be used.
pub open spec fn asks_to_show(
    args: Seq<Seq<u8>>,
    root: Seq<u8>,
    source: Seq<u8>,
    identity: Option<(u64, u64)>,
    read_only: bool,
) -> bool {
    &&& args.len() == 10
    &&& args[6] == source
    &&& match identity {
        None => args[7] == encode_utf8("-"@) && args[8] == encode_utf8("-"@) && within(
            byte_path(source),
            joined(byte_path(root), ".freebsd-flatpak-mount-sources"@),
        ),
        Some(numbers) => !(args[7] == encode_utf8("-"@) && args[8] == encode_utf8("-"@))
            && is_identity(args[7], args[8], numbers),
    }
    &&& text_in(args[9]) == Some(if read_only {
        "ro"@
    } else {
        "rw"@
    })
}

proof fn lemma_identity_exactly(device: Seq<u8>, inode: Seq<u8>, identity: (u64, u64))
    ensures
        identity_of(device, inode) == Ok::<(u64, u64), MountError>(identity) <==> is_identity(
            device,
            inode,
            identity,
        ),
{
    if let Some(text) = text_in(device) {
        if let Some(d) = bounded_value(text, u64::MAX as nat) {
            lemma_bounded(text);
        }
    }
    if let Some(text) = text_in(inode) {
        if let Some(d) = bounded_value(text, u64::MAX as nat) {
            lemma_bounded(text);
        }
    }
}

proof fn lemma_bounded(text: Seq<char>)
    ensures
        bounded_value(text, u64::MAX as nat) matches Some(n) ==> n <= u64::MAX,
{
}

/// The helper shows a source if and only if it is asked to in full: with a source that it can tell
/// from any other or that is private to the sandbox, and with an access that is spelled out.
pub proof fn lemma_shown_exactly_as_asked(
    args: Seq<Seq<u8>>,
    root: Seq<u8>,
    source: Seq<u8>,
    identity: Option<(u64, u64)>,
    read_only: bool,
)
    ensures
        operation_in(args, encode_utf8("nullfs"@), root) == Ok::<MountOperationView, MountError>(
            MountOperationView::Nullfs(source, identity, read_only),
        ) <==> asks_to_show(args, root, source, identity, read_only),
{
    if args.len() >= 9 {
        if let Some(numbers) = identity {
            lemma_identity_exactly(args[7], args[8], numbers);
        }
        if let Ok(numbers) = identity_of(args[7], args[8]) {
            lemma_identity_exactly(args[7], args[8], numbers);
        }
    }
    lemma_access_words();
}

proof fn lemma_access_words()
    ensures
        "ro"@ != "rw"@,
        "normal"@ != "force"@,
        "devfs"@ != "fdescfs"@,
        "devfs"@ != "linprocfs"@,
        "devfs"@ != "linsysfs"@,
        "fdescfs"@ != "linprocfs"@,
        "fdescfs"@ != "linsysfs"@,
        "linprocfs"@ != "linsysfs"@,
{
    reveal_strlit("ro");
    reveal_strlit("rw");
    reveal_strlit("normal");
    reveal_strlit("force");
    reveal_strlit("devfs");
    reveal_strlit("fdescfs");
    reveal_strlit("linprocfs");
    reveal_strlit("linsysfs");
    assert("ro"@[1] == 'o');
    assert("rw"@[1] == 'w');
    assert("normal"@.len() == 6);
    assert("force"@.len() == 5);
    assert("devfs"@.len() == 5);
    assert("fdescfs"@.len() == 7);
    assert("linprocfs"@.len() == 9);
    assert("linsysfs"@.len() == 8);
}

/// Of the filesystems that show the system's own state the helper mounts four, each under its own
/// name: `devfs`, `fdescfs`, `linprocfs` and `linsysfs`.
pub proof fn lemma_four_special_filesystems(args: Seq<Seq<u8>>, root: Seq<u8>, kind: SpecialKind)
    ensures
        operation_in(args, encode_utf8("special"@), root) == Ok::<MountOperationView, MountError>(
            MountOperationView::Special(kind),
        ) <==> args.len() == 8 && text_in(args[6]) == text_in(args[7]) && text_in(args[6])
            == Some(match kind {
            SpecialKind::Devfs => "devfs"@,
            SpecialKind::Fdescfs => "fdescfs"@,
            SpecialKind::Linprocfs => "linprocfs"@,
            SpecialKind::Linsysfs => "linsysfs"@,
        }),
{
    lemma_access_words();
    lemma_operation_words();
}

proof fn lemma_operation_words()
    ensures
        encode_utf8("special"@) != encode_utf8("nullfs"@),
        encode_utf8("special"@) != encode_utf8("tmpfs"@),
        encode_utf8("unmount"@) != encode_utf8("nullfs"@),
        encode_utf8("unmount"@) != encode_utf8("tmpfs"@),
        encode_utf8("unmount"@) != encode_utf8("special"@),
        encode_utf8("tmpfs"@) != encode_utf8("nullfs"@),
{
    reveal_strlit("special");
    reveal_strlit("nullfs");
    reveal_strlit("tmpfs");
    reveal_strlit("unmount");
    vstd::utf8::encode_utf8_decode_utf8("special"@);
    vstd::utf8::encode_utf8_decode_utf8("nullfs"@);
    vstd::utf8::encode_utf8_decode_utf8("tmpfs"@);
    vstd::utf8::encode_utf8_decode_utf8("unmount"@);
    assert("special"@[0] == 's');
    assert("unmount"@[0] == 'u');
    assert("nullfs"@[0] == 'n');
    assert("tmpfs"@[0] == 't');
}

/// A mount is taken down, by force or not, if and only if that is what is asked for.
pub proof fn lemma_taken_down_exactly_as_asked(args: Seq<Seq<u8>>, root: Seq<u8>, force: bool)
    ensures
        operation_in(args, encode_utf8("unmount"@), root) == Ok::<MountOperationView, MountError>(
            MountOperationView::Unmount(force),
        ) <==> args.len() == 7 && text_in(args[6]) == Some(if force {
            "force"@
        } else {
            "normal"@
        }),
        operation_in(args, encode_utf8("tmpfs"@), root) is Ok <==> args.len() == 7,
        operation_in(args, encode_utf8("tmpfs"@), root) matches Ok(operation) ==> operation
            == MountOperationView::Tmpfs(args[6]),
{
    lemma_access_words();
    lemma_operation_words();
}

/// The helper does four things at a place in a sandbox, and nothing else.
pub proof fn lemma_four_operations(args: Seq<Seq<u8>>, operation: Seq<u8>, root: Seq<u8>)
    requires
        operation != encode_utf8("nullfs"@),
        operation != encode_utf8("tmpfs"@),
        operation != encode_utf8("special"@),
        operation != encode_utf8("unmount"@),
    ensures
        operation_in(args, operation, root) == Err::<MountOperationView, MountError>(
            MountError::UnsupportedOperation,
        ),
{
}

/// Whether what the helper is asked for stands in its arguments in this order: the operation, a
/// directory, its device and inode, and a place.
pub open spec fn stands_in(
    args: Seq<Seq<u8>>,
    directory: Seq<u8>,
    identity: (u64, u64),
    place: Seq<u8>,
) -> bool {
    args.len() > 5 && args[2] == directory && is_identity(args[3], args[4], identity) && args[5]
        == place
}

/// What the helper does is done in the directory that its arguments name and identify, at the place
/// that they name there. Only the mount of a document that was left behind is named otherwise: by
/// the directory of all sandboxes, and with the way in which it is taken down.
pub proof fn lemma_requests_name_their_place(
    args: Seq<Seq<u8>>,
    directory: Seq<u8>,
    identity: (u64, u64),
    place: Seq<u8>,
    force: bool,
)
    ensures
        args.len() > 1 && args[1] != encode_utf8("recover-orphaned-document-unmount"@) ==> (head_in(
            args,
        ) == Ok::<MountHeadView, MountError>(
            MountHeadView::InSandbox(args[1], directory, identity, place),
        ) <==> stands_in(args, directory, identity, place)),
        args.len() > 1 && args[1] == encode_utf8("recover-orphaned-document-unmount"@) ==> (head_in(
            args,
        ) == Ok::<MountHeadView, MountError>(
            MountHeadView::Recover(directory, identity, place, force),
        ) <==> stands_in(args, directory, identity, place) && args.len() == 7 && text_in(args[6])
            == Some(if force {
            "force"@
        } else {
            "normal"@
        })),
{
    lemma_access_words();
    if args.len() > 4 {
        lemma_identity_exactly(args[3], args[4], identity);
        if let Ok(numbers) = identity_of(args[3], args[4]) {
            lemma_identity_exactly(args[3], args[4], numbers);
        }
    }
}

/// A place in a sandbox is reached by names alone: it is neither absolute nor empty, does not begin
/// with `.` and never goes up.
pub proof fn lemma_places_are_reached_by_names(place: Seq<char>)
    ensures
        is_relative_target(place) <==> place.len() > 0 && !is_absolute(place) && !(exists|i: int|
            0 <= i < components(place).len() && (#[trigger] components(place)[i] == ".."@
                || components(place)[i] == "."@)),
{
    reveal_strlit(".");
    reveal_strlit("..");
    assert("."@ =~= seq!['.']);
    let l = lead(place).len() as int;
    crate::path::lemma_body_kept(place);
    if is_relative_target(place) {
        assert(components(place) =~= body(place));
    }
    if place.len() > 0 && !is_absolute(place) && !(exists|i: int|
        0 <= i < components(place).len() && (#[trigger] components(place)[i] == ".."@
            || components(place)[i] == "."@)) {
        if l == 1 {
            assert(components(place)[0] == "."@);
        }
        assert(components(place) =~= body(place));
        assert forall|i: int| 0 <= i < body(place).len() implies #[trigger] body(place)[i]
            != ".."@ by {
            assert(components(place)[i] == body(place)[i]);
        }
    }
}

} // verus!
