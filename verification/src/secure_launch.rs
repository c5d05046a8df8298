//! What the privileged launch helper and its daemon decide.

use crate::launch_request::{JailMode, Request, RequestView, MAX_MAPPED_FDS, MAX_TARGET_FD};
use crate::numbers::{render_i32, signed_decimal};
use crate::path::{all_names, components, is_name, joined, within, FsPath};
use vstd::prelude::*;

verus! {

/// Why a launch is refused.
#[derive(Debug, Clone, Copy, PartialEq, Eq, Structural)]
pub enum LaunchRefusal {
    CredentialsMismatch,
    GroupNotHeld,
    RuntimeRootNotPrivate,
    RootOutsideChroots,
    RootNotInstance,
    RootIdentityMismatch,
    RootNotOwned,
    WorkingDirectory,
    DirectNotNested,
    DescriptorCount,
    NotSetUserId,
    RootCaller,
    RootChanged,
    PrivilegeKept,
}

/// What the helper answers where it refuses a launch.
pub open spec fn refusal_text(refusal: LaunchRefusal) -> Seq<char> {
    match refusal {
        LaunchRefusal::CredentialsMismatch =>
            "secure launch credentials do not match caller"@,
        LaunchRefusal::GroupNotHeld =>
            "secure launch requested a group not held by caller"@,
        LaunchRefusal::RuntimeRootNotPrivate =>
            "sandbox runtime root is not private to caller"@,
        LaunchRefusal::RootOutsideChroots =>
            "sandbox root is outside freebsd-flatpak chroots"@,
        LaunchRefusal::RootNotInstance =>
            "sandbox root is not a freebsd-flatpak instance"@,
        LaunchRefusal::RootIdentityMismatch =>
            "sandbox root identity does not match request"@,
        LaunchRefusal::RootNotOwned =>
            "sandbox root or .flatpak-info is not caller-owned and regular"@,
        LaunchRefusal::WorkingDirectory =>
            "secure launch working directory must be an absolute normalized sandbox path"@,
        LaunchRefusal::DirectNotNested => "nested daemon refused direct launch request"@,
        LaunchRefusal::DescriptorCount =>
            "nested request descriptor count does not match mappings"@,
        LaunchRefusal::NotSetUserId =>
            "secure launch helper must run set-user-ID root"@,
        LaunchRefusal::RootCaller =>
            "secure launch helper does not accept root callers"@,
        LaunchRefusal::RootChanged =>
            "sandbox root changed while preparing secure launch"@,
        LaunchRefusal::PrivilegeKept => "secure launch could not drop privilege"@,
    }
}

impl LaunchRefusal {
    pub fn message(self) -> (r: &'static str)
        ensures
            r@ == refusal_text(self),
    {
        match self {
            LaunchRefusal::CredentialsMismatch => "secure launch credentials do not match caller",
            LaunchRefusal::GroupNotHeld => "secure launch requested a group not held by caller",
            LaunchRefusal::RuntimeRootNotPrivate => "sandbox runtime root is not private to caller",
            LaunchRefusal::RootOutsideChroots => "sandbox root is outside freebsd-flatpak chroots",
            LaunchRefusal::RootNotInstance => "sandbox root is not a freebsd-flatpak instance",
            LaunchRefusal::RootIdentityMismatch => "sandbox root identity does not match request",
            LaunchRefusal::RootNotOwned =>
                "sandbox root or .flatpak-info is not caller-owned and regular",
            LaunchRefusal::WorkingDirectory =>
                "secure launch working directory must be an absolute normalized sandbox path",
            LaunchRefusal::DirectNotNested => "nested daemon refused direct launch request",
            LaunchRefusal::DescriptorCount =>
                "nested request descriptor count does not match mappings",
            LaunchRefusal::NotSetUserId => "secure launch helper must run set-user-ID root",
            LaunchRefusal::RootCaller => "secure launch helper does not accept root callers",
            LaunchRefusal::RootChanged => "sandbox root changed while preparing secure launch",
            LaunchRefusal::PrivilegeKept => "secure launch could not drop privilege",
        }
    }
}

/// Whether the helper serves its caller: it needs the rights of root, and does not lend them to
/// root.
pub fn admits_caller(effective_uid: u32, real_uid: u32) -> (r: Result<(), LaunchRefusal>)
    ensures
        r == (if effective_uid != 0 {
            Err(LaunchRefusal::NotSetUserId)
        } else if real_uid == 0 {
            Err(LaunchRefusal::RootCaller)
        } else {
            Ok(())
        }),
{
    if effective_uid != 0 {
        Err(LaunchRefusal::NotSetUserId)
    } else if real_uid == 0 {
        Err(LaunchRefusal::RootCaller)
    } else {
        Ok(())
    }
}

/// Whether the directory that was opened is the one that was asked for.
pub fn check_root_identity(opened: (u64, u64), device: u64, inode: u64) -> (r: Result<
    (),
    LaunchRefusal,
>)
    ensures
        r == (if opened == (device, inode) {
            Ok(())
        } else {
            Err(LaunchRefusal::RootChanged)
        }),
{
    if opened.0 == device && opened.1 == inode {
        Ok(())
    } else {
        Err(LaunchRefusal::RootChanged)
    }
}

/// Whether the process has become its caller.
pub fn check_credentials(effective_uid: u32, effective_gid: u32, uid: u32, gid: u32) -> (r: Result<
    (),
    LaunchRefusal,
>)
    ensures
        r == (if effective_uid == uid && effective_gid == gid {
            Ok(())
        } else {
            Err(LaunchRefusal::PrivilegeKept)
        }),
{
    if effective_uid == uid && effective_gid == gid {
        Ok(())
    } else {
        Err(LaunchRefusal::PrivilegeKept)
    }
}

/// What the daemon answers where it refuses a launch.
pub fn peer_message(refusal: LaunchRefusal) -> (r: &'static str)
    ensures
        refusal == LaunchRefusal::CredentialsMismatch ==> r@
            == "nested request credentials do not match socket peer"@,
        refusal == LaunchRefusal::GroupNotHeld ==> r@
            == "nested request includes a group not held by socket peer"@,
        refusal == LaunchRefusal::WorkingDirectory ==> r@
            == "nested working directory must be an absolute normalized sandbox path"@,
        refusal != LaunchRefusal::CredentialsMismatch && refusal != LaunchRefusal::GroupNotHeld
            && refusal != LaunchRefusal::WorkingDirectory ==> r@ == refusal_text(refusal),
{
    match refusal {
        LaunchRefusal::CredentialsMismatch =>
            "nested request credentials do not match socket peer",
        LaunchRefusal::GroupNotHeld =>
            "nested request includes a group not held by socket peer",
        LaunchRefusal::WorkingDirectory =>
            "nested working directory must be an absolute normalized sandbox path",
        _ => refusal.message(),
    }
}

/// What the system says of a sandbox's root directory.
#[derive(Debug)]
pub struct RootFacts {
    /// The root directory, without symbolic links.
    pub root: FsPath,
    /// The directory of this program's run state, without symbolic links.
    pub runtime_root: FsPath,
    pub runtime_uid: u32,
    pub runtime_mode: u32,
    pub root_device: u64,
    pub root_inode: u64,
    pub root_uid: u32,
    pub info_uid: u32,
    pub info_is_regular: bool,
}

/// Whether the path is the root directory of an instance: one application and one instance below
/// the directory of chroots.
pub open spec fn instance_parts(root: Seq<char>, runtime_root: Seq<char>) -> Option<
    Seq<Seq<char>>,
> {
    let chroots = joined(runtime_root, "chroots"@);
    if within(root, chroots) {
        Some(components(root).skip(components(chroots).len() as int))
    } else {
        None
    }
}

pub open spec fn is_instance(parts: Seq<Seq<char>>) -> bool {
    parts.len() == 2 && is_name(parts[0]) && is_name(parts[1])
}

/// Whether others than the owner have no access.
pub open spec fn is_private(mode: u32) -> bool {
    mode & 0o077 == 0
}

/// What is wrong with the place of a sandbox's root directory.
pub open spec fn place_refusal(
    root: Seq<char>,
    runtime_root: Seq<char>,
    runtime_uid: u32,
    runtime_mode: u32,
    uid: u32,
) -> Option<LaunchRefusal> {
    if runtime_uid != uid || !is_private(runtime_mode) {
        Some(LaunchRefusal::RuntimeRootNotPrivate)
    } else {
        match instance_parts(root, runtime_root) {
            None => Some(LaunchRefusal::RootOutsideChroots),
            Some(parts) => if !is_instance(parts) {
                Some(LaunchRefusal::RootNotInstance)
            } else {
                None
            },
        }
    }
}

/// What is wrong with a sandbox's root directory.
pub open spec fn root_refusal(
    facts: RootFacts,
    device: u64,
    inode: u64,
    uid: u32,
) -> Option<LaunchRefusal> {
    match place_refusal(
        facts.root@,
        facts.runtime_root@,
        facts.runtime_uid,
        facts.runtime_mode,
        uid,
    ) {
        Some(refusal) => Some(refusal),
        None => if facts.root_device != device || facts.root_inode != inode {
            Some(LaunchRefusal::RootIdentityMismatch)
        } else if facts.root_uid != uid || facts.info_uid != uid || !facts.info_is_regular {
            Some(LaunchRefusal::RootNotOwned)
        } else {
            None
        },
    }
}

/// What is wrong with the place of a sandbox's root directory. This can be told before the
/// directory is opened.
pub fn validate_place(
    root: &FsPath,
    runtime_root: &FsPath,
    runtime_uid: u32,
    runtime_mode: u32,
    uid: u32,
) -> (r: Option<LaunchRefusal>)
    ensures
        r == place_refusal(root@, runtime_root@, runtime_uid, runtime_mode, uid),
{
    if runtime_uid != uid || runtime_mode & 0o077 != 0 {
        return Some(LaunchRefusal::RuntimeRootNotPrivate);
    }
    let chroots = runtime_root.join("chroots");
    let relative = match root.strip_prefix(&chroots) {
        Some(relative) => relative,
        None => {
            return Some(LaunchRefusal::RootOutsideChroots);
        },
    };
    let parts = relative.components();
    proof {
        let all = components(relative@);
        assert(crate::text::texts(parts@) == all);
        assert(all.len() == parts@.len());
        assert(instance_parts(root@, runtime_root@) == Some(all));
        if parts@.len() == 2 {
            assert(all[0] == parts@[0]@ && all[1] == parts@[1]@);
        }
    }
    if parts.len() != 2 || !all_names(parts.as_slice()) {
        return Some(LaunchRefusal::RootNotInstance);
    }
    None
}

/// What is wrong with a sandbox's root directory.
pub fn validate_sandbox_root(facts: &RootFacts, device: u64, inode: u64, uid: u32) -> (r: Option<
    LaunchRefusal,
>)
    ensures
        r == root_refusal(*facts, device, inode, uid),
{
    if let Some(refusal) = validate_place(
        &facts.root,
        &facts.runtime_root,
        facts.runtime_uid,
        facts.runtime_mode,
        uid,
    ) {
        return Some(refusal);
    }
    if facts.root_device != device || facts.root_inode != inode {
        return Some(LaunchRefusal::RootIdentityMismatch);
    }
    if facts.root_uid != uid || facts.info_uid != uid || !facts.info_is_regular {
        return Some(LaunchRefusal::RootNotOwned);
    }
    None
}

/// Where the segment of a path that begins at `from` ends.
pub open spec fn segment_end(path: Seq<u8>, from: int) -> int
    decreases path.len() - from,
{
    if from >= path.len() || path[from] == 0x2f {
        from
    } else {
        segment_end(path, from + 1)
    }
}

/// Whether the segment of a path at `from..to` goes up.
pub open spec fn goes_up(path: Seq<u8>, from: int, to: int) -> bool {
    to - from == 2 && path[from] == 0x2e && path[from + 1] == 0x2e
}

/// Whether no segment of the path from `from` on goes up.
pub open spec fn stays_down(path: Seq<u8>, from: int) -> bool
    decreases path.len() - from,
{
    let to = segment_end(path, from);
    if to < from || to >= path.len() {
        !goes_up(path, from, to)
    } else {
        !goes_up(path, from, to) && stays_down(path, to + 1)
    }
}

/// Whether a directory can be a working directory: absolute, and going up nowhere.
pub open spec fn valid_cwd(path: Seq<u8>) -> bool {
    path.len() > 0 && path[0] == 0x2f && stays_down(path, 0)
}

proof fn lemma_segment_end(path: Seq<u8>, from: int)
    requires
        0 <= from <= path.len(),
    ensures
        from <= segment_end(path, from) <= path.len(),
    decreases path.len() - from,
{
    if from < path.len() && path[from] != 0x2f {
        lemma_segment_end(path, from + 1);
    }
}

/// Whether a directory can be a working directory.
pub fn is_valid_cwd(path: &[u8]) -> (r: bool)
    ensures
        r == valid_cwd(path@),
{
    if path.len() == 0 || path[0] != 0x2f {
        return false;
    }
    let mut at: usize = 0;
    while at < path.len()
        invariant
            at <= path@.len(),
            path@.len() > 0,
            path@[0] == 0x2f,
            stays_down(path@, 0) == stays_down(path@, at as int),
        decreases path@.len() - at,
    {
        let mut end: usize = at;
        proof {
            lemma_segment_end(path@, at as int);
        }
        while end < path.len() && path[end] != 0x2f
            invariant
                at <= end <= path@.len(),
                segment_end(path@, at as int) == segment_end(path@, end as int),
            decreases path@.len() - end,
        {
            end += 1;
        }
        if end - at == 2 && path[at] == 0x2e && path[at + 1] == 0x2e {
            return false;
        }
        if end >= path.len() {
            return true;
        }
        at = end + 1;
    }
    true
}

/// Whether the group is one of the groups, or the primary one.
pub open spec fn holds_group(groups: Seq<u32>, primary: u32, group: u32) -> bool {
    groups.contains(group) || group == primary
}

pub open spec fn holds_all(groups: Seq<u32>, primary: u32, wanted: Seq<u32>) -> bool {
    forall|i: int| 0 <= i < wanted.len() ==> holds_group(groups, primary, #[trigger] wanted[i])
}

fn all_groups_held(groups: &[u32], primary: u32, wanted: &[u32]) -> (r: bool)
    ensures
        r == holds_all(groups@, primary, wanted@),
{
    let mut i: usize = 0;
    while i < wanted.len()
        invariant
            i <= wanted@.len(),
            forall|j: int| 0 <= j < i ==> holds_group(groups@, primary, #[trigger] wanted@[j]),
        decreases wanted@.len() - i,
    {
        let mut held = wanted[i] == primary;
        let mut k: usize = 0;
        while k < groups.len()
            invariant
                k <= groups@.len(),
                i < wanted@.len(),
                held <==> wanted@[i as int] == primary || exists|j: int|
                    0 <= j < k && groups@[j] == wanted@[i as int],
            decreases groups@.len() - k,
        {
            if groups[k] == wanted[i] {
                held = true;
            }
            k += 1;
        }
        if !held {
            assert(!holds_group(groups@, primary, wanted@[i as int]));
            return false;
        }
        i += 1;
    }
    true
}

/// Why a request is not one of its caller: the groups are those that the caller holds.
pub open spec fn caller_refusal(
    request: RequestView,
    uid: u32,
    gid: u32,
    groups: Seq<u32>,
) -> Option<LaunchRefusal> {
    if request.uid != uid || request.gid != gid {
        Some(LaunchRefusal::CredentialsMismatch)
    } else if !holds_all(groups, gid, request.groups) {
        Some(LaunchRefusal::GroupNotHeld)
    } else {
        None
    }
}

/// Why a request of a caller is refused: the groups are those that the caller holds.
pub open spec fn request_refusal(
    request: RequestView,
    uid: u32,
    gid: u32,
    groups: Seq<u32>,
    facts: RootFacts,
) -> Option<LaunchRefusal> {
    match caller_refusal(request, uid, gid, groups) {
        Some(refusal) => Some(refusal),
        None => match root_refusal(facts, request.root_device, request.root_inode, uid) {
            Some(refusal) => Some(refusal),
            None => match request.cwd {
                Some(cwd) => if valid_cwd(cwd) {
                    None
                } else {
                    Some(LaunchRefusal::WorkingDirectory)
                },
                None => None,
            },
        },
    }
}

impl Request {
    /// Why this request is not one of its caller, if it is not. This can be told before anything
    /// is looked at that the request names.
    pub fn validate_caller(&self, uid: u32, gid: u32, groups: &[u32]) -> (r: Result<
        (),
        LaunchRefusal,
    >)
        ensures
            match caller_refusal(self@, uid, gid, groups@) {
                Some(refusal) => r == Err::<(), LaunchRefusal>(refusal),
                None => r is Ok,
            },
    {
        if self.uid != uid || self.gid != gid {
            return Err(LaunchRefusal::CredentialsMismatch);
        }
        if !all_groups_held(groups, gid, self.groups.as_slice()) {
            return Err(LaunchRefusal::GroupNotHeld);
        }
        Ok(())
    }

    /// Why this request is not one that the peer of a socket can make, if it is not.
    pub fn validate_peer(&self, uid: u32, gid: u32, groups: &[u32]) -> (r: Result<
        (),
        LaunchRefusal,
    >)
        ensures
            if self@.jail_mode == JailMode::Direct {
                r == Err::<(), LaunchRefusal>(LaunchRefusal::DirectNotNested)
            } else {
                match caller_refusal(self@, uid, gid, groups@) {
                    Some(refusal) => r == Err::<(), LaunchRefusal>(refusal),
                    None => r is Ok,
                }
            },
    {
        if let JailMode::Direct = self.jail_mode {
            return Err(LaunchRefusal::DirectNotNested);
        }
        self.validate_caller(uid, gid, groups)
    }

    /// Why this request of a caller is refused, if it is.
    pub fn validate(&self, uid: u32, gid: u32, groups: &[u32], facts: &RootFacts) -> (r: Result<
        (),
        LaunchRefusal,
    >)
        ensures
            match request_refusal(self@, uid, gid, groups@, *facts) {
                Some(refusal) => r == Err::<(), LaunchRefusal>(refusal),
                None => r is Ok,
            },
    {
        match self.validate_caller(uid, gid, groups) {
            Ok(()) => {},
            Err(refusal) => {
                return Err(refusal);
            },
        }
        if let Some(refusal) = validate_sandbox_root(
            facts,
            self.root_device,
            self.root_inode,
            uid,
        ) {
            return Err(refusal);
        }
        if let Some(cwd) = &self.cwd {
            if !is_valid_cwd(cwd.as_slice()) {
                return Err(LaunchRefusal::WorkingDirectory);
            }
        }
        Ok(())
    }

    /// Why the daemon refuses this request of the peer of a socket, if it does. The peer has sent
    /// `descriptors` descriptors with it.
    pub fn validate_for_peer(
        &self,
        uid: u32,
        gid: u32,
        groups: &[u32],
        facts: &RootFacts,
        descriptors: usize,
    ) -> (r: Result<(), LaunchRefusal>)
        ensures
            if self@.jail_mode == JailMode::Direct {
                r == Err::<(), LaunchRefusal>(LaunchRefusal::DirectNotNested)
            } else {
                match request_refusal(self@, uid, gid, groups@, *facts) {
                    Some(refusal) => r == Err::<(), LaunchRefusal>(refusal),
                    None => if self@.mapped_fds.len() != descriptors {
                        r == Err::<(), LaunchRefusal>(LaunchRefusal::DescriptorCount)
                    } else {
                        r is Ok
                    },
                }
            },
    {
        if let JailMode::Direct = self.jail_mode {
            return Err(LaunchRefusal::DirectNotNested);
        }
        match self.validate(uid, gid, groups, facts) {
            Ok(()) => {},
            Err(refusal) => {
                return Err(refusal);
            },
        }
        if self.mapped_fds.len() != descriptors {
            return Err(LaunchRefusal::DescriptorCount);
        }
        Ok(())
    }
}

/// A request that is accepted runs as its caller, with groups that the caller holds, in an
/// instance that the caller owns.
pub proof fn lemma_accepted_request(
    request: RequestView,
    uid: u32,
    gid: u32,
    groups: Seq<u32>,
    facts: RootFacts,
)
    requires
        request_refusal(request, uid, gid, groups, facts) is None,
    ensures
        request.uid == uid,
        request.gid == gid,
        holds_all(groups, gid, request.groups),
        facts.root_uid == uid && facts.runtime_uid == uid && facts.info_uid == uid,
        facts.root_device == request.root_device && facts.root_inode == request.root_inode,
        is_private(facts.runtime_mode),
        within(facts.root@, joined(facts.runtime_root@, "chroots"@)),
        components(facts.root@).len() == components(
            joined(facts.runtime_root@, "chroots"@),
        ).len() + 2,
{
}

/// A step of starting a program; a step that fails ends the launch.
#[derive(Debug, Clone, Copy, PartialEq, Eq, Structural)]
pub enum LaunchStep {
    /// Open the sandbox's root directory.
    OpenRoot,
    /// Check that it is the directory that was asked for.
    CheckIdentity,
    /// Refuse to make a jail that nobody supervises.
    RefuseUnsupervised,
    /// Become root, with no supplementary groups.
    AdoptRoot,
    /// Make the open directory the current one.
    AnchorRoot,
    /// Make a jail in the current directory.
    CreateJail { no_network: bool },
    /// Close the open directory: a process with an open directory cannot enter a jail.
    CloseRoot,
    /// Enter the jail; remove it where that fails.
    AttachJail,
    /// Hand the jail to its supervisor and wait for its approval.
    SynchronizeJail,
    /// Make the open directory the root of the process.
    EnterChroot,
    /// Go to the root directory.
    EnterRootDirectory,
    /// Go to the working directory.
    ChangeDirectory,
    /// Put the caller's descriptors in their places.
    MapDescriptors,
    /// Become the caller.
    DropCredentials,
    /// Check that this is irrevocable.
    CheckCredentials,
    /// Run the program.
    Execute,
}

/// The steps up to where the process is inside the sandbox.
pub open spec fn entering_steps(mode: JailMode, supervised: bool) -> Seq<LaunchStep> {
    if mode == JailMode::Direct {
        seq![
            LaunchStep::OpenRoot,
            LaunchStep::CheckIdentity,
            LaunchStep::AnchorRoot,
            LaunchStep::EnterChroot,
            LaunchStep::EnterRootDirectory,
        ]
    } else if !supervised {
        seq![LaunchStep::OpenRoot, LaunchStep::CheckIdentity, LaunchStep::RefuseUnsupervised]
    } else {
        seq![
            LaunchStep::OpenRoot,
            LaunchStep::CheckIdentity,
            LaunchStep::AdoptRoot,
            LaunchStep::AnchorRoot,
            LaunchStep::CreateJail { no_network: mode == JailMode::NoNetwork },
            LaunchStep::CloseRoot,
            LaunchStep::AttachJail,
            LaunchStep::SynchronizeJail,
        ]
    }
}

/// The steps that start a program.
pub open spec fn launch_steps(mode: JailMode, has_cwd: bool, supervised: bool) -> Seq<LaunchStep> {
    let entering = entering_steps(mode, supervised);
    if mode != JailMode::Direct && !supervised {
        entering
    } else {
        entering + (if has_cwd {
            seq![LaunchStep::ChangeDirectory]
        } else {
            Seq::empty()
        }) + seq![
            LaunchStep::MapDescriptors,
            LaunchStep::DropCredentials,
            LaunchStep::CheckCredentials,
            LaunchStep::Execute,
        ]
    }
}

impl Request {
    /// The steps that carry out this request. Descriptors whose numbers the caller chose are put
    /// in place only when no privileged step depends on a descriptor any more.
    pub fn execute_with_mappings(&self, supervised: bool) -> (r: Vec<LaunchStep>)
        ensures
            r@ == launch_steps(self@.jail_mode, self@.cwd is Some, supervised),
    {
        let mut out: Vec<LaunchStep> = Vec::new();
        out.push(LaunchStep::OpenRoot);
        out.push(LaunchStep::CheckIdentity);
        match self.jail_mode {
            JailMode::Direct => {
                out.push(LaunchStep::AnchorRoot);
                out.push(LaunchStep::EnterChroot);
                out.push(LaunchStep::EnterRootDirectory);
            },
            mode => {
                if !supervised {
                    out.push(LaunchStep::RefuseUnsupervised);
                    assert(out@ =~= launch_steps(self@.jail_mode, self@.cwd is Some, supervised));
                    return out;
                }
                let no_network = match mode {
                    JailMode::NoNetwork => true,
                    _ => false,
                };
                out.push(LaunchStep::AdoptRoot);
                out.push(LaunchStep::AnchorRoot);
                out.push(LaunchStep::CreateJail { no_network });
                out.push(LaunchStep::CloseRoot);
                out.push(LaunchStep::AttachJail);
                out.push(LaunchStep::SynchronizeJail);
            },
        }
        assert(out@ =~= entering_steps(self@.jail_mode, supervised));
        if self.cwd.is_some() {
            out.push(LaunchStep::ChangeDirectory);
        }
        out.push(LaunchStep::MapDescriptors);
        out.push(LaunchStep::DropCredentials);
        out.push(LaunchStep::CheckCredentials);
        out.push(LaunchStep::Execute);
        assert(out@ =~= launch_steps(self@.jail_mode, self@.cwd is Some, supervised));
        out
    }
}

/// Whether a step needs privilege, or a descriptor that a mapping could replace.
pub open spec fn is_privileged(step: LaunchStep) -> bool {
    match step {
        LaunchStep::MapDescriptors => false,
        LaunchStep::DropCredentials => false,
        LaunchStep::CheckCredentials => false,
        LaunchStep::Execute => false,
        _ => true,
    }
}

/// No launch runs the program before privilege is dropped and that was checked, nor puts a
/// caller's descriptors in place before the last privileged step; and the program is run only
/// after the identity of the root directory was checked.
pub proof fn lemma_launch_order(mode: JailMode, has_cwd: bool, supervised: bool, i: int, j: int)
    requires
        0 <= i < launch_steps(mode, has_cwd, supervised).len(),
        0 <= j < launch_steps(mode, has_cwd, supervised).len(),
    ensures
        launch_steps(mode, has_cwd, supervised)[1] == LaunchStep::CheckIdentity,
        launch_steps(mode, has_cwd, supervised)[i] == LaunchStep::Execute ==> {
            &&& i == launch_steps(mode, has_cwd, supervised).len() - 1
            &&& i >= 3
            &&& launch_steps(mode, has_cwd, supervised)[i - 1] == LaunchStep::CheckCredentials
            &&& launch_steps(mode, has_cwd, supervised)[i - 2] == LaunchStep::DropCredentials
        },
        launch_steps(mode, has_cwd, supervised)[i] == LaunchStep::MapDescriptors && is_privileged(
            launch_steps(mode, has_cwd, supervised)[j],
        ) ==> j < i,
        launch_steps(mode, has_cwd, supervised)[i] == LaunchStep::AttachJail && launch_steps(
            mode,
            has_cwd,
            supervised,
        )[j] == LaunchStep::CloseRoot ==> j < i,
{
}

/// A parameter of a jail.
#[derive(Debug)]
pub struct JailParameter {
    pub name: String,
    pub value: String,
}

pub ghost struct JailParameterView {
    pub name: Seq<char>,
    pub value: Seq<char>,
}

impl View for JailParameter {
    type V = JailParameterView;

    open spec fn view(&self) -> JailParameterView {
        JailParameterView { name: self.name@, value: self.value@ }
    }
}

fn parameter(name: &str, value: &str) -> (r: JailParameter)
    ensures
        r@ == (JailParameterView { name: name@, value: value@ }),
{
    JailParameter { name: name.to_owned(), value: value.to_owned() }
}

/// The parameters of the jail of a nested sandbox. It is in the current directory, has the
/// network of the host unless it is to have none, and stays until it is handed over.
pub open spec fn jail_parameters(no_network: bool) -> Seq<JailParameterView> {
    let network = if no_network {
        "disable"@
    } else {
        "inherit"@
    };
    seq![
        JailParameterView { name: "path"@, value: "."@ },
        JailParameterView { name: "host.hostname"@, value: "freebsd-flatpak"@ },
        JailParameterView { name: "ip4"@, value: network },
        JailParameterView { name: "ip6"@, value: network },
        JailParameterView { name: "persist"@, value: "true"@ },
    ]
}

/// The parameters of the jail of a nested sandbox.
pub fn nested_jail_parameters(no_network: bool) -> (r: Vec<JailParameter>)
    ensures
        crate::text::views(r@) == jail_parameters(no_network),
{
    let network = if no_network {
        "disable"
    } else {
        "inherit"
    };
    let mut out: Vec<JailParameter> = Vec::new();
    out.push(parameter("path", "."));
    out.push(parameter("host.hostname", "freebsd-flatpak"));
    out.push(parameter("ip4", network));
    out.push(parameter("ip6", network));
    out.push(parameter("persist", "true"));
    assert(crate::text::views(out@) =~= jail_parameters(no_network));
    out
}

/// The parameters that let a jail end with its last process.
pub fn clear_nested_jail_persistence(jail: i32) -> (r: Vec<JailParameter>)
    ensures
        crate::text::views(r@) == seq![
            JailParameterView { name: "jid"@, value: signed_decimal(jail as int) },
            JailParameterView { name: "persist"@, value: "false"@ },
        ],
{
    let mut out: Vec<JailParameter> = Vec::new();
    let id = render_i32(jail);
    out.push(parameter("jid", &id));
    out.push(parameter("persist", "false"));
    assert(crate::text::views(out@) =~= seq![
        JailParameterView { name: "jid"@, value: signed_decimal(jail as int) },
        JailParameterView { name: "persist"@, value: "false"@ },
    ]);
    out
}

/// What came of making a jail.
#[derive(Debug, Clone, Copy, PartialEq, Eq, Structural)]
pub enum JailOutcome {
    Created { jail: i32, owner: i32 },
    Failed,
    NoOwner,
}

/// What came of making a jail, from the number that it was given and the descriptor that owns it.
pub fn create_nested_jail(jail: i32, owner: i32) -> (r: JailOutcome)
    ensures
        r == (if jail < 0 {
            JailOutcome::Failed
        } else if owner < 0 {
            JailOutcome::NoOwner
        } else {
            JailOutcome::Created { jail, owner }
        }),
{
    if jail < 0 {
        JailOutcome::Failed
    } else if owner < 0 {
        JailOutcome::NoOwner
    } else {
        JailOutcome::Created { jail, owner }
    }
}

/// Where the supervision of a nested program stands.
#[derive(Debug, Clone, Copy, PartialEq, Eq, Structural)]
pub enum Supervision {
    /// The child has not handed its jail over.
    AwaitingJail,
    /// The jail is not yet set to end with its last process.
    ClearingPersistence { jail: i32 },
    /// The child has not been told to go on.
    Approving { jail: i32 },
    /// The program runs.
    Waiting,
    /// The program has ended.
    Reporting { status: i32 },
    Done,
    Failed,
}

/// What the supervisor does next.
#[derive(Debug, Clone, Copy, PartialEq, Eq, Structural)]
pub enum SupervisionAction {
    ReceiveJail,
    ClearPersistence { jail: i32 },
    Approve,
    WaitForChild,
    /// Give the jail up and tell the client how the program ended.
    Report { status: i32 },
    /// The client has been told.
    Finish,
    /// Remove the jail where there is one; kill the child and wait for it where it has not been
    /// told to go on.
    Abandon { held: Option<i32>, kill: bool },
}

/// What the supervisor learns.
#[derive(Debug, Clone, Copy, PartialEq, Eq, Structural)]
pub enum SupervisionEvent {
    Jail(i32),
    Done,
    Exited(i32),
    Failed,
}

pub open spec fn first_action(state: Supervision) -> SupervisionAction {
    match state {
        Supervision::AwaitingJail => SupervisionAction::ReceiveJail,
        Supervision::ClearingPersistence { jail } => SupervisionAction::ClearPersistence { jail },
        Supervision::Approving { .. } => SupervisionAction::Approve,
        Supervision::Waiting => SupervisionAction::WaitForChild,
        Supervision::Reporting { status } => SupervisionAction::Report { status },
        Supervision::Done => SupervisionAction::Finish,
        Supervision::Failed => SupervisionAction::Finish,
    }
}

/// Where the supervision stands after an event, and what is done next. An event that the state
/// does not wait for ends the supervision.
pub open spec fn supervised(
    state: Supervision,
    event: SupervisionEvent,
) -> (Supervision, SupervisionAction) {
    match (state, event) {
        (Supervision::AwaitingJail, SupervisionEvent::Jail(jail)) => {
            let next = Supervision::ClearingPersistence { jail };
            (next, first_action(next))
        },
        (Supervision::ClearingPersistence { jail }, SupervisionEvent::Done) => {
            let next = Supervision::Approving { jail };
            (next, first_action(next))
        },
        (Supervision::Approving { .. }, SupervisionEvent::Done) => (
            Supervision::Waiting,
            first_action(Supervision::Waiting),
        ),
        (Supervision::Waiting, SupervisionEvent::Exited(status)) => {
            let next = Supervision::Reporting { status };
            (next, first_action(next))
        },
        (Supervision::Reporting { .. }, SupervisionEvent::Done) => (
            Supervision::Done,
            SupervisionAction::Finish,
        ),
        (Supervision::AwaitingJail, _) => (
            Supervision::Failed,
            SupervisionAction::Abandon { held: None, kill: true },
        ),
        (Supervision::ClearingPersistence { jail }, _) => (
            Supervision::Failed,
            SupervisionAction::Abandon { held: Some(jail), kill: true },
        ),
        (Supervision::Approving { jail }, _) => (
            Supervision::Failed,
            SupervisionAction::Abandon { held: Some(jail), kill: true },
        ),
        (_, _) => (Supervision::Failed, SupervisionAction::Abandon { held: None, kill: false }),
    }
}

/// One step of supervising a nested program.
pub fn serve_nested_request(state: Supervision, event: SupervisionEvent) -> (r: (
    Supervision,
    SupervisionAction,
))
    ensures
        r == supervised(state, event),
{
    match (state, event) {
        (Supervision::AwaitingJail, SupervisionEvent::Jail(jail)) => (
            Supervision::ClearingPersistence { jail },
            SupervisionAction::ClearPersistence { jail },
        ),
        (Supervision::ClearingPersistence { jail }, SupervisionEvent::Done) => (
            Supervision::Approving { jail },
            SupervisionAction::Approve,
        ),
        (Supervision::Approving { .. }, SupervisionEvent::Done) => (
            Supervision::Waiting,
            SupervisionAction::WaitForChild,
        ),
        (Supervision::Waiting, SupervisionEvent::Exited(status)) => (
            Supervision::Reporting { status },
            SupervisionAction::Report { status },
        ),
        (Supervision::Reporting { .. }, SupervisionEvent::Done) => (
            Supervision::Done,
            SupervisionAction::Finish,
        ),
        (Supervision::AwaitingJail, _) => (
            Supervision::Failed,
            SupervisionAction::Abandon { held: None, kill: true },
        ),
        (Supervision::ClearingPersistence { jail }, _) => (
            Supervision::Failed,
            SupervisionAction::Abandon { held: Some(jail), kill: true },
        ),
        (Supervision::Approving { jail }, _) => (
            Supervision::Failed,
            SupervisionAction::Abandon { held: Some(jail), kill: true },
        ),
        _ => (Supervision::Failed, SupervisionAction::Abandon { held: None, kill: false }),
    }
}

/// The states that the events lead to from the first on.
pub open spec fn supervised_run(events: Seq<SupervisionEvent>) -> Supervision
    decreases events.len(),
{
    if events.len() == 0 {
        Supervision::AwaitingJail
    } else {
        supervised(supervised_run(events.drop_last()), events.last()).0
    }
}

/// The supervisor waits for a program only after the jail was received, set to end with its last
/// process, and the child was told to go on; and it reports the status with which the program
/// ended.
pub proof fn lemma_supervision_order(events: Seq<SupervisionEvent>)
    ensures
        supervised_run(events) == Supervision::Waiting ==> events.len() == 3 && events[0] is Jail
            && events[1] is Done && events[2] is Done,
        supervised_run(events) matches Supervision::Reporting { status } ==> events.len() == 4
            && events[3] == SupervisionEvent::Exited(status) && events[0] is Jail,
        supervised_run(events) matches Supervision::ClearingPersistence { jail } ==> events.len()
            == 1 && events[0] == SupervisionEvent::Jail(jail),
        supervised_run(events) matches Supervision::Approving { jail } ==> events.len() == 2
            && events[0] == SupervisionEvent::Jail(jail) && events[1] is Done,
        supervised_run(events) == Supervision::AwaitingJail ==> events.len() == 0,
    decreases events.len(),
{
    if events.len() > 0 {
        let head = events.drop_last();
        lemma_supervision_order(head);
        assert(forall|i: int| 0 <= i < head.len() ==> head[i] == events[i]);
        if head.len() > 0 {
            lemma_supervision_order(head.drop_last());
        }
    }
}

/// The number of descriptors in a control message of so many bytes.
pub fn received_descriptor_count(bytes: usize) -> (r: Option<usize>)
    ensures
        r is Some <==> bytes % 4 == 0 && bytes / 4 <= MAX_MAPPED_FDS,
        r matches Some(n) ==> n == bytes / 4,
{
    if bytes % 4 != 0 || bytes / 4 > MAX_MAPPED_FDS {
        None
    } else {
        Some(bytes / 4)
    }
}

/// The largest of the numbers, or -1.
pub open spec fn largest(targets: Seq<i32>) -> int
    decreases targets.len(),
{
    if targets.len() == 0 {
        -1
    } else if targets.last() as int > largest(targets.drop_last()) {
        targets.last() as int
    } else {
        largest(targets.drop_last())
    }
}

/// The first number from which on received descriptors are kept before they are put in their
/// places: one beyond all of those, and none of the standard ones.
pub fn map_nested_fds(targets: &[i32]) -> (r: i32)
    ensures
        r == (if largest(targets@) == i32::MAX || largest(targets@) < 2 {
            3int
        } else {
            largest(targets@) + 1
        }),
{
    let mut top: i32 = -1;
    let mut i: usize = 0;
    assert(targets@.take(0) =~= Seq::<i32>::empty());
    while i < targets.len()
        invariant
            i <= targets@.len(),
            top >= -1,
            top == largest(targets@.take(i as int)),
        decreases targets@.len() - i,
    {
        assert(targets@.take(i + 1).drop_last() =~= targets@.take(i as int));
        if targets[i] > top {
            top = targets[i];
        }
        i += 1;
    }
    assert(targets@.take(i as int) =~= targets@);
    if top == i32::MAX || top < 2 {
        3
    } else {
        top + 1
    }
}

/// No place that descriptors are put in is one in which they are kept before.
pub proof fn lemma_descriptors_kept_apart(targets: Seq<i32>, i: int)
    requires
        crate::launch_request::valid_targets(targets),
        0 <= i < targets.len(),
    ensures
        targets[i] <= largest(targets) <= MAX_TARGET_FD,
    decreases targets.len(),
{
    assert(0 <= targets[targets.len() - 1] <= MAX_TARGET_FD);
    let head = targets.drop_last();
    assert(crate::launch_request::valid_targets(head)) by {
        assert forall|k: int| 0 <= k < head.len() implies 0 <= #[trigger] head[k]
            <= MAX_TARGET_FD by {
            assert(head[k] == targets[k]);
        }
    }
    if i < head.len() {
        lemma_descriptors_kept_apart(head, i);
        assert(head[i] == targets[i]);
    } else if head.len() > 0 {
        lemma_descriptors_kept_apart(head, 0);
    }
}

} // verus!
