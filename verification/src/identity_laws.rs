//! Which accounts and architectures there can be, where an installation keeps what it has, and how a
//! directory is locked while a file is mounted in it.

use crate::architecture::{machine_architecture, runtime_architecture, FlatpakArchitecture};
use crate::installation::{directory_or, is_directory_name, Installation};
use crate::mount_target::{protection_next, Protection};
use crate::path::{joined, FsPath};
use crate::sandbox_identity::{identity_refusal, named_group, IdentityError, IdentityField};
use crate::text::{lemma_first_index_unique, split};
use vstd::prelude::*;

verus! {

/// Whether a text holds a character that ends a field of an account file, or its line.
pub open spec fn ends_a_field(text: Seq<char>) -> bool {
    exists|i: int|
        0 <= i < text.len() && (#[trigger] text[i] == ':' || text[i] == '\n' || text[i] == '\r')
}

proof fn lemma_ends(text: Seq<char>)
    ensures
        ends_a_field(text) <==> text.contains(':') || text.contains('\n') || text.contains('\r'),
{
    if ends_a_field(text) {
        let i = choose|i: int|
            0 <= i < text.len() && (#[trigger] text[i] == ':' || text[i] == '\n' || text[i]
                == '\r');
        assert(text.contains(text[i]));
    }
    if text.contains(':') {
        let i = choose|i: int| 0 <= i < text.len() && text[i] == ':';
        assert(text[i] == ':');
    }
    if text.contains('\n') {
        let i = choose|i: int| 0 <= i < text.len() && text[i] == '\n';
        assert(text[i] == '\n');
    }
    if text.contains('\r') {
        let i = choose|i: int| 0 <= i < text.len() && text[i] == '\r';
        assert(text[i] == '\r');
    }
}

/// An account can be made if and only if nothing that is said of it ends a field or a line, and its
/// home is absolute. Where it cannot, the first thing that is wrong is named.
pub proof fn lemma_accounts_that_can_be_made(
    user: Seq<char>,
    group: Option<Seq<char>>,
    full: Seq<char>,
    home: FsPath,
)
    ensures
        ({
            let wrong = identity_refusal(user, group, full, home);
            let bad_group = group is Some && ends_a_field(group->0);
            &&& wrong is None <==> !ends_a_field(user) && !bad_group && !ends_a_field(full)
                && !ends_a_field(home@) && home@.len() > 0 && home@[0] == '/'
            &&& ends_a_field(user) <==> wrong == Some(
                IdentityError::Unrepresentable(IdentityField::UserName),
            )
            &&& !ends_a_field(user) && bad_group <==> wrong == Some(
                IdentityError::Unrepresentable(IdentityField::GroupName),
            )
            &&& !ends_a_field(user) && !bad_group && ends_a_field(full) <==> wrong == Some(
                IdentityError::Unrepresentable(IdentityField::RealName),
            )
            &&& !ends_a_field(user) && !bad_group && !ends_a_field(full) && ends_a_field(home@)
                <==> wrong == Some(IdentityError::Unrepresentable(IdentityField::HomeDirectory))
            &&& wrong is Some && !(wrong->0 is Unrepresentable) ==> wrong == Some(
                IdentityError::RelativeHome(home),
            )
        }),
{
    lemma_ends(user);
    lemma_ends(full);
    lemma_ends(home@);
    if group is Some {
        lemma_ends(group->0);
    }
}

/// A group without a name is none.
pub proof fn lemma_groups_have_names(name: Option<String>)
    ensures
        named_group(name) matches Some(text) ==> text.len() > 0 && (name matches Some(own)
            && own@ == text),
        name matches Some(own) ==> own@.len() > 0 ==> named_group(name) == Some(own@),
{
}

proof fn lemma_two_slashes(a: Seq<char>, b: Seq<char>, c: Seq<char>)
    requires
        !a.contains('/'),
        !b.contains('/'),
        !c.contains('/'),
    ensures
        split(a + seq!['/'] + b + seq!['/'] + c, '/') == seq![a, b, c],
{
    let s = a + seq!['/'] + b + seq!['/'] + c;
    let t = b + seq!['/'] + c;
    let n = a.len() as int;
    let m = b.len() as int;
    assert forall|k: int| 0 <= k < n implies s[k] != '/' by {
        assert(s[k] == a[k]);
    }
    assert(s[n] == '/');
    lemma_first_index_unique(s, '/', n);
    assert(s.take(n) =~= a);
    assert(s.skip(n + 1) =~= t);
    assert forall|k: int| 0 <= k < m implies t[k] != '/' by {
        assert(t[k] == b[k]);
    }
    assert(t[m] == '/');
    lemma_first_index_unique(t, '/', m);
    assert(t.take(m) =~= b);
    assert(t.skip(m + 1) =~= c);
    crate::text::lemma_first_index(c, '/');
    let k = crate::text::first_index(c, '/') as int;
    if k < c.len() {
        assert(c.contains('/'));
    }
    assert(split(c, '/') == seq![c]);
    assert(split(t, '/') =~= seq![b, c]);
    assert(split(s, '/') =~= seq![a, b, c]);
}

proof fn lemma_names_differ()
    ensures
        "x86_64"@ != "aarch64"@,
        "amd64"@ != "arm64"@,
        "amd64"@ != "aarch64"@,
        "x86_64"@ != "arm64"@,
        "amd64"@ != "x86_64"@,
        "arm64"@ != "aarch64"@,
{
    reveal_strlit("x86_64");
    reveal_strlit("aarch64");
    reveal_strlit("amd64");
    reveal_strlit("arm64");
    assert("x86_64"@.len() == 6 && "aarch64"@.len() == 7 && "amd64"@.len() == 5 && "arm64"@.len()
        == 5);
    assert("amd64"@[1] == 'm' && "arm64"@[1] == 'r');
}

/// A runtime is for the machine that its reference names between its name and its branch. There are
/// two architectures, each with one name in references; machines have another name for each too.
pub proof fn lemma_two_architectures(
    name: Seq<char>,
    machine: Seq<char>,
    branch: Seq<char>,
)
    requires
        !name.contains('/'),
        !machine.contains('/'),
        !branch.contains('/'),
    ensures
        runtime_architecture(name + seq!['/'] + machine + seq!['/'] + branch) == (if machine
            == "x86_64"@ {
            Some(FlatpakArchitecture::X86_64)
        } else if machine == "aarch64"@ {
            Some(FlatpakArchitecture::Aarch64)
        } else {
            None
        }),
        machine_architecture(machine) == Some(FlatpakArchitecture::X86_64) <==> machine
            == "x86_64"@ || machine == "amd64"@,
        machine_architecture(machine) == Some(FlatpakArchitecture::Aarch64) <==> machine
            == "aarch64"@ || machine == "arm64"@,
{
    lemma_two_slashes(name, machine, branch);
    lemma_names_differ();
}

/// A reference that does not have three parts names no architecture.
pub proof fn lemma_references_have_three_parts(reference: Seq<char>)
    ensures
        runtime_architecture(reference) is Some ==> split(reference, '/').len() == 3 && (split(
            reference,
            '/',
        )[1] == "x86_64"@ || split(reference, '/')[1] == "aarch64"@),
{
}

/// The libraries of a runtime lie in a directory that its architecture names.
pub proof fn lemma_where_runtimes_have_libraries()
    ensures
        FlatpakArchitecture::X86_64.spec_runtime_libdir() == "lib/x86_64-linux-gnu"@,
        FlatpakArchitecture::Aarch64.spec_runtime_libdir() == "lib/aarch64-linux-gnu"@,
{
    reveal_strlit("lib/");
    reveal_strlit("x86_64");
    reveal_strlit("aarch64");
    reveal_strlit("-linux-gnu");
    reveal_strlit("lib/x86_64-linux-gnu");
    reveal_strlit("lib/aarch64-linux-gnu");
    assert("lib/"@ + "x86_64"@ + "-linux-gnu"@ =~= "lib/x86_64-linux-gnu"@);
    assert("lib/"@ + "aarch64"@ + "-linux-gnu"@ =~= "lib/aarch64-linux-gnu"@);
}

/// A variable that is set, and not empty, tells where data is kept; otherwise it is kept below the
/// home.
pub proof fn lemma_where_data_is_kept(variable: Option<FsPath>, home: Seq<char>, default: Seq<char>)
    ensures
        variable matches Some(path) ==> path@.len() > 0 ==> directory_or(variable, home, default)
            == path@,
        variable is None ==> directory_or(variable, home, default) == joined(home, default),
        variable matches Some(path) ==> path@.len() == 0 ==> directory_or(variable, home, default)
            == joined(home, default),
{
}

/// What lasts is kept with the data of an installation: the records, the applications, the runtimes
/// and the extensions. What ends with a session is kept apart: the sandboxes, the records of what
/// runs, and the sockets of brokers.
pub proof fn lemma_directories_of_an_installation(paths: Installation)
    ensures
        paths.spec_refs() == joined(paths.data_root@, "refs"@),
        paths.spec_apps() == joined(paths.data_root@, "apps"@),
        paths.spec_runtimes() == joined(paths.data_root@, "runtimes"@),
        paths.spec_extensions() == joined(paths.data_root@, "extensions"@),
        paths.spec_chroots() == joined(paths.runtime_root@, "chroots"@),
        paths.spec_runs() == joined(paths.runtime_root@, "runs"@),
        paths.spec_spawn_brokers() == joined(paths.runtime_root@, "spawn-brokers"@),
{
}

/// An application has a directory of its own unless its name is empty or leads elsewhere.
pub proof fn lemma_names_of_directories(app_id: Seq<char>)
    ensures
        is_directory_name(app_id) <==> app_id.len() > 0 && forall|i: int|
            0 <= i < app_id.len() ==> #[trigger] app_id[i] != '/',
{
}

/// A directory counts as locked only after it was handed to root and then lost every permission to
/// write; as one that nobody can write only after the system said so both times that it was asked.
/// Whatever fails after it was handed over, what was there before is put back.
pub proof fn lemma_locked_or_put_back(
    now: Protection,
    mode: u32,
    succeeded: bool,
    read_only_system: bool,
)
    ensures
        ({
            let next = protection_next(now, mode, succeeded, read_only_system);
            &&& next is Locking && !(now is Locking) ==> now is TakingOver && succeeded && (
            next->mode) & 0o222u32 == 0 && (next->mode) | (mode & 0o222u32) == mode
            &&& next is Locked && !(now is Locked) <==> now is Locking && succeeded
            &&& next is Restoring && !(now is Restoring) <==> now is Locking && !succeeded
            &&& next is ReadOnly && !(now is ReadOnly) <==> now is AskingReadOnly && succeeded
            &&& next is AskingReadOnly && !(now is AskingReadOnly) <==> now is TakingOver
                && !succeeded && read_only_system
            &&& next is FailedUnrestored && !(now is FailedUnrestored) <==> now is Restoring
                && !succeeded
            &&& next is Failed && !(now is Failed) <==> (now is TakingOver && !succeeded
                && !read_only_system) || (now is AskingReadOnly && !succeeded) || (now is Restoring
                && succeeded)
        }),
{
    crate::mount_target::lemma_locked_mode(mode);
}

} // verus!
