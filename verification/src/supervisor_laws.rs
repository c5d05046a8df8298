//! What a supervisor does with a jail whose program cannot be started, and which requests are refused
//! for what reason.

use crate::launch_request::{JailMode, RequestView};
use crate::secure_launch::{
    launch_steps, request_refusal, supervised, LaunchRefusal, LaunchStep, RootFacts, Supervision,
    SupervisionAction, SupervisionEvent,
};
use vstd::prelude::*;

verus! {

/// Each step of a supervisor follows what it waited for, and nothing else. Whatever else happens, it
/// gives up; before the child was told to go on the child is killed, and the jail is given up where it
/// is held.
pub proof fn lemma_jails_that_are_given_up(state: Supervision, event: SupervisionEvent, jail: i32)
    ensures
        ({
            let (next, action) = supervised(state, event);
            &&& action is Abandon <==> next is Failed
            &&& action matches SupervisionAction::Abandon { held, kill } ==> {
                &&& kill <==> state is AwaitingJail || state is ClearingPersistence
                    || state is Approving
                &&& held is Some <==> state is ClearingPersistence || state is Approving
                &&& state matches Supervision::ClearingPersistence { jail: own } ==> held == Some(own)
                &&& state matches Supervision::Approving { jail: own } ==> held == Some(own)
            }
            &&& action == (SupervisionAction::ClearPersistence { jail }) <==> state
                == Supervision::AwaitingJail && event == SupervisionEvent::Jail(jail)
            &&& action == SupervisionAction::Approve <==> state is ClearingPersistence && event
                == SupervisionEvent::Done
            &&& action == SupervisionAction::WaitForChild <==> state is Approving && event
                == SupervisionEvent::Done
            &&& action is Report ==> state == Supervision::Waiting && (
            event matches SupervisionEvent::Exited(status) && action
                == (SupervisionAction::Report { status }))
            &&& state == Supervision::Waiting && event is Exited ==> action is Report
            &&& action == SupervisionAction::Finish <==> state is Reporting && event
                == SupervisionEvent::Done
        }),
{
}

/// The root of a sandbox is opened and known to be the one that was asked for before anything else is
/// done. A process that moves its root there also goes there; one that enters a jail does not keep the
/// root open.
pub proof fn lemma_roots_are_entered(mode: JailMode, has_cwd: bool, supervised: bool)
    ensures
        ({
            let steps = launch_steps(mode, has_cwd, supervised);
            &&& steps[0] == LaunchStep::OpenRoot
            &&& steps[1] == LaunchStep::CheckIdentity
            &&& mode == JailMode::Direct ==> steps[2] == LaunchStep::AnchorRoot && steps[3]
                == LaunchStep::EnterChroot && steps[4] == LaunchStep::EnterRootDirectory
            &&& mode != JailMode::Direct && supervised ==> steps[2] == LaunchStep::AdoptRoot
                && steps[5] == LaunchStep::CloseRoot
            &&& mode != JailMode::Direct && !supervised ==> steps.len() == 3 && steps[2]
                == LaunchStep::RefuseUnsupervised
        }),
{
}

/// A request in another's name is refused as such before anything else is looked at, then one that
/// asks for a group that its caller does not hold; only then what it names is looked at, first the
/// directory of the run state, and of the root itself first which it is and then whose.
pub proof fn lemma_why_requests_are_refused(
    request: RequestView,
    uid: u32,
    gid: u32,
    groups: Seq<u32>,
    facts: RootFacts,
)
    ensures
        ({
            let wrong = request_refusal(request, uid, gid, groups, facts);
            let other = request.uid != uid || request.gid != gid;
            let group = exists|i: int|
                0 <= i < request.groups.len() && !groups.contains(#[trigger] request.groups[i])
                    && request.groups[i] != gid;
            let shared = facts.runtime_uid != uid || facts.runtime_mode & 0o077 != 0;
            &&& other <==> wrong == Some(LaunchRefusal::CredentialsMismatch)
            &&& !other && group <==> wrong == Some(LaunchRefusal::GroupNotHeld)
            &&& !other && !group && shared <==> wrong == Some(LaunchRefusal::RuntimeRootNotPrivate)
            &&& wrong == Some(LaunchRefusal::RootIdentityMismatch) ==> facts.root_device
                != request.root_device || facts.root_inode != request.root_inode
            &&& wrong == Some(LaunchRefusal::RootNotOwned) ==> facts.root_device
                == request.root_device && facts.root_inode == request.root_inode && (facts.root_uid
                != uid || facts.info_uid != uid || !facts.info_is_regular)
            &&& wrong == Some(LaunchRefusal::WorkingDirectory) ==> request.cwd is Some
        }),
{
    let group = exists|i: int|
        0 <= i < request.groups.len() && !groups.contains(#[trigger] request.groups[i])
            && request.groups[i] != gid;
    if crate::secure_launch::holds_all(groups, gid, request.groups) {
        assert forall|i: int| 0 <= i < request.groups.len() implies groups.contains(
            #[trigger] request.groups[i],
        ) || request.groups[i] == gid by {
            assert(crate::secure_launch::holds_group(groups, gid, request.groups[i]));
        }
        assert(!group);
    } else {
        let i = choose|i: int|
            0 <= i < request.groups.len() && !crate::secure_launch::holds_group(
                groups,
                gid,
                #[trigger] request.groups[i],
            );
        assert(!groups.contains(request.groups[i]) && request.groups[i] != gid);
        assert(group);
    }
}

} // verus!
