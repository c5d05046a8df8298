//! Whom the privileged launch helper serves, and what it does for them.

use crate::launch_request::{JailMode, RequestView};
use crate::path::{components, joined, within};
use crate::secure_launch::{
    entering_steps, holds_all, holds_group, jail_parameters, launch_steps, request_refusal,
    root_refusal, segment_end, stays_down, valid_cwd, JailParameterView, LaunchStep, RootFacts,
};
use vstd::prelude::*;

verus! {

/// Whether a segment of a path that goes up begins at the place: it is made of two dots.
pub open spec fn goes_up_at(path: Seq<u8>, i: int) -> bool {
    &&& 0 <= i
    &&& i + 2 <= path.len()
    &&& i == 0 || path[i - 1] as char == '/'
    &&& path[i] as char == '.'
    &&& path[i + 1] as char == '.'
    &&& i + 2 == path.len() || path[i + 2] as char == '/'
}

proof fn lemma_segment(path: Seq<u8>, from: int)
    requires
        0 <= from <= path.len(),
    ensures
        from <= segment_end(path, from) <= path.len(),
        segment_end(path, from) < path.len() ==> path[segment_end(path, from)] == 0x2f,
        forall|j: int| from <= j < segment_end(path, from) ==> #[trigger] path[j] != 0x2f,
    decreases path.len() - from,
{
    if from < path.len() && path[from] != 0x2f {
        lemma_segment(path, from + 1);
    }
}

proof fn lemma_stays_down(path: Seq<u8>, from: int)
    requires
        0 <= from <= path.len(),
        from == 0 || path[from - 1] == 0x2f,
    ensures
        stays_down(path, from) <==> !(exists|i: int| from <= i && #[trigger] goes_up_at(path, i)),
    decreases path.len() - from,
{
    let to = segment_end(path, from);
    lemma_segment(path, from);
    if to - from == 2 && path[from] == 0x2e && path[from + 1] == 0x2e {
        assert(goes_up_at(path, from));
    }
    if to < path.len() {
        lemma_stays_down(path, to + 1);
    }
    if exists|i: int| from <= i && #[trigger] goes_up_at(path, i) {
        let i = choose|i: int| from <= i && #[trigger] goes_up_at(path, i);
        if i == from {
            assert(path[from] == 0x2e);
            assert(path[from + 1] == 0x2e);
            assert(to == from + 2) by {
                if to < from + 2 {
                    assert(path[to] == 0x2f);
                }
                if to > from + 2 {
                    assert(path[from + 2] != 0x2f);
                }
            }
        } else if i <= to {
            assert(path[i - 1] == 0x2f);
            assert(false);
        } else {
            assert(goes_up_at(path, i));
        }
    }
    if to < path.len() && (exists|i: int| to + 1 <= i && #[trigger] goes_up_at(path, i)) {
        let i = choose|i: int| to + 1 <= i && #[trigger] goes_up_at(path, i);
        assert(from <= i);
    }
}

/// A working directory is a path from the root of the sandbox that goes up nowhere.
pub proof fn lemma_working_directories(path: Seq<u8>)
    ensures
        valid_cwd(path) <==> path.len() > 0 && path[0] as char == '/' && forall|i: int|
            !#[trigger] goes_up_at(path, i),
{
    lemma_stays_down(path, 0);
    if forall|i: int| !#[trigger] goes_up_at(path, i) {
    }
    if !(exists|i: int| 0 <= i && #[trigger] goes_up_at(path, i)) {
        assert forall|i: int| !#[trigger] goes_up_at(path, i) by {}
    }
}

/// Whether a directory is a sandbox of the user who asks: it lies two names below the directory of
/// all sandboxes, which nobody else can look into; it is the one that was asked for; and it belongs
/// to the user, like the file in it that describes it.
pub open spec fn is_own_sandbox(facts: RootFacts, device: u64, inode: u64, uid: u32) -> bool {
    let chroots = joined(facts.runtime_root@, "chroots"@);
    let n = components(chroots).len() as int;
    &&& facts.runtime_uid == uid
    &&& facts.runtime_mode % 0o100 == 0
    &&& within(facts.root@, chroots)
    &&& components(facts.root@).len() == n + 2
    &&& components(facts.root@)[n] != ".."@
    &&& components(facts.root@)[n] != "."@
    &&& components(facts.root@)[n] != "/"@
    &&& components(facts.root@)[n + 1] != ".."@
    &&& components(facts.root@)[n + 1] != "."@
    &&& components(facts.root@)[n + 1] != "/"@
    &&& facts.root_device == device
    &&& facts.root_inode == inode
    &&& facts.root_uid == uid
    &&& facts.info_uid == uid
    &&& facts.info_is_regular
}

proof fn lemma_own_sandbox(facts: RootFacts, device: u64, inode: u64, uid: u32)
    ensures
        root_refusal(facts, device, inode, uid) is None <==> is_own_sandbox(
            facts,
            device,
            inode,
            uid,
        ),
{
    let mode = facts.runtime_mode;
    assert(mode & 0o077 == 0 <==> mode % 0o100 == 0) by (bit_vector);
    let chroots = joined(facts.runtime_root@, "chroots"@);
    let n = components(chroots).len() as int;
    if within(facts.root@, chroots) {
        let parts = components(facts.root@).skip(n);
        if parts.len() == 2 {
            assert(parts[0] == components(facts.root@)[n]);
            assert(parts[1] == components(facts.root@)[n + 1]);
        }
    }
}

/// The helper starts a program if and only if it is one that the caller could start: it runs as the
/// caller, with groups that the caller holds, in a sandbox of the caller, and, where a directory is
/// named for it to start in, in one that is inside the sandbox.
pub proof fn lemma_served_exactly(
    request: RequestView,
    uid: u32,
    gid: u32,
    groups: Seq<u32>,
    facts: RootFacts,
)
    ensures
        request_refusal(request, uid, gid, groups, facts) is None <==> {
            &&& request.uid == uid
            &&& request.gid == gid
            &&& forall|i: int|
                0 <= i < request.groups.len() ==> groups.contains(#[trigger] request.groups[i])
                    || request.groups[i] == gid
            &&& is_own_sandbox(facts, request.root_device, request.root_inode, uid)
            &&& request.cwd matches Some(cwd) ==> cwd.len() > 0 && cwd[0] as char == '/' && forall|
                i: int,
            |
                !#[trigger] goes_up_at(cwd, i)
        },
{
    lemma_own_sandbox(facts, request.root_device, request.root_inode, uid);
    if let Some(cwd) = request.cwd {
        lemma_working_directories(cwd);
    }
    if holds_all(groups, gid, request.groups) {
        assert forall|i: int| 0 <= i < request.groups.len() implies groups.contains(
            #[trigger] request.groups[i],
        ) || request.groups[i] == gid by {
            assert(holds_group(groups, gid, request.groups[i]));
        }
    }
}

/// A nested sandbox has a jail of its own, made in its root directory and entered before the program
/// runs; it has no network if and only if that was asked for. Without a jail the process only moves
/// its root there. A jail is never made where nobody supervises it, and then nothing is run.
pub proof fn lemma_jails(mode: JailMode, has_cwd: bool, supervised: bool)
    ensures
        ({
            let steps = launch_steps(mode, has_cwd, supervised);
            let create = LaunchStep::CreateJail { no_network: mode == JailMode::NoNetwork };
            &&& mode == JailMode::Direct ==> steps.contains(LaunchStep::EnterChroot)
                && !steps.contains(create)
            &&& mode != JailMode::Direct && supervised ==> {
                &&& steps[4] == create
                &&& steps[3] == LaunchStep::AnchorRoot
                &&& steps[6] == LaunchStep::AttachJail
                &&& steps[7] == LaunchStep::SynchronizeJail
            }
            &&& mode != JailMode::Direct && !supervised ==> !steps.contains(LaunchStep::Execute)
                && !steps.contains(create)
            &&& mode == JailMode::Direct || supervised ==> {
                &&& steps.last() == LaunchStep::Execute
                &&& steps[steps.len() - 2] == LaunchStep::CheckCredentials
                &&& steps[steps.len() - 3] == LaunchStep::DropCredentials
                &&& has_cwd ==> steps[steps.len() - 5] == LaunchStep::ChangeDirectory
            }
        }),
{
    let steps = launch_steps(mode, has_cwd, supervised);
    let entering = entering_steps(mode, supervised);
    if mode == JailMode::Direct {
        assert(steps[3] == LaunchStep::EnterChroot);
    }
}

/// The jail of a nested sandbox has the addresses of the host or none at all, and stands in the
/// directory that was made the current one.
pub proof fn lemma_jail_networks(no_network: bool)
    ensures
        ({
            let parameters = jail_parameters(no_network);
            let network = if no_network {
                "disable"@
            } else {
                "inherit"@
            };
            &&& parameters.contains(JailParameterView { name: "path"@, value: "."@ })
            &&& parameters.contains(JailParameterView { name: "ip4"@, value: network })
            &&& parameters.contains(JailParameterView { name: "ip6"@, value: network })
            &&& parameters.contains(JailParameterView { name: "persist"@, value: "true"@ })
        }),
{
    let parameters = jail_parameters(no_network);
    assert(parameters[0].name == "path"@);
    assert(parameters[2].name == "ip4"@);
    assert(parameters[3].name == "ip6"@);
    assert(parameters[4].name == "persist"@);
}

} // verus!
