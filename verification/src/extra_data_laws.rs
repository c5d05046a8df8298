//! How extra data is made an application's own: in a sandbox that shows little, and as the user.

use crate::apply_extra::{
    checkout_name, extra_command_args, extra_root_steps, mount_args, reversed,
};
use crate::flatpak_metadata::value_of;
use crate::mount_operations::MountView;
use crate::numbers::decimal;
use crate::path::joined;
use crate::sandbox_root::RootStepView;
use vstd::prelude::*;

verus! {

/// The program runs below the root of the sandbox and with the rights of the user. It gets no
/// variable of its caller, only the home and the search path that are named here; and it begins in
/// the directory of the extra data.
pub proof fn lemma_extra_data_is_made_by_the_user(
    root: Seq<char>,
    uid: u32,
    gid: u32,
    user: Seq<char>,
)
    ensures
        ({
            let args = extra_command_args(root, uid, gid, user);
            &&& args.len() == 14
            &&& args[0] == "chroot"@
            &&& args[1] == "-n"@
            &&& args[2] == "-u"@ && args[3] == decimal(uid as nat)
            &&& args[4] == "-g"@ && args[5] == decimal(gid as nat)
            &&& args[6] == root
            &&& args[7] == "/usr/bin/env"@ && args[8] == "-i"@
            &&& args[9] == "HOME=/home/"@ + user
            &&& args[10] == "PATH=/app/bin:/usr/bin"@
            &&& args[11] == "/usr/bin/sh"@ && args[12] == "-c"@
            &&& args[13] == "cd /app/extra && exec /app/bin/apply_extra"@
        }),
{
}

/// Something is mounted from its source at its place, and only so that it can be read where that is
/// asked for.
pub proof fn lemma_extra_mounts_as_asked(source: Seq<char>, target: Seq<char>, read_only: bool)
    ensures
        ({
            let args = mount_args(source, target, read_only);
            let n = args.len() as int;
            &&& args[0] == "mount_nullfs"@
            &&& args[n - 2] == source
            &&& args[n - 1] == target
            &&& n == (if read_only {
                5int
            } else {
                3int
            })
            &&& read_only ==> args[1] == "-o"@ && args[2] == "ro"@
        }),
{
}

/// The sandbox has the places of the application and of the runtime, finds the programs and the
/// libraries of the runtime under their usual names, and says that it is one.
pub proof fn lemma_where_extra_data_is_made(root: Seq<char>)
    ensures
        ({
            let steps = extra_root_steps(root);
            &&& steps.len() == 6
            &&& steps[0] == RootStepView::Directory(joined(root, "app"@))
            &&& steps[1] == RootStepView::Directory(joined(root, "usr"@))
            &&& steps[2] == (RootStepView::Symlink {
                target: "usr/bin"@,
                link: joined(root, "bin"@),
            })
            &&& steps[3] == (RootStepView::Symlink {
                target: "usr/lib"@,
                link: joined(root, "lib"@),
            })
            &&& steps[4] == (RootStepView::Symlink {
                target: "usr/lib64"@,
                link: joined(root, "lib64"@),
            })
            &&& steps[5] == (RootStepView::Write {
                path: joined(root, ".flatpak-info"@),
                contents: "[Instance]\n"@,
            })
        }),
{
}

/// What was mounted is taken down, each mount once, and the last that was made first.
pub proof fn lemma_taken_down_backwards(mounts: Seq<MountView>, i: int)
    requires
        0 <= i < mounts.len(),
    ensures
        reversed(mounts).len() == mounts.len(),
        reversed(mounts)[0] == mounts.last(),
        reversed(mounts)[mounts.len() - 1 - i] == mounts[i],
        reversed(reversed(mounts)) == mounts,
{
    assert(reversed(reversed(mounts)) =~= mounts);
}

/// What is processed goes by the name of the application, and by that of the runtime only where
/// there is no application.
pub proof fn lemma_names_of_checkouts(metadata: Seq<char>)
    ensures
        value_of(metadata, "Application"@, "name"@) is Some ==> checkout_name(metadata) == value_of(
            metadata,
            "Application"@,
            "name"@,
        ),
        value_of(metadata, "Application"@, "name"@) is None ==> checkout_name(metadata) == value_of(
            metadata,
            "Runtime"@,
            "name"@,
        ),
{
}

} // verus!
