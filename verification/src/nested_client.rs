//! Who may ask for a nested sandbox.

use crate::launch_request::JailMode;
use vstd::prelude::*;

verus! {

/// Why a request for a nested sandbox is not sent.
#[derive(Debug, Clone, Copy, PartialEq, Eq, Structural)]
pub enum ClientRefusal {
    RootCaller,
    NotNested,
}

impl ClientRefusal {
    pub fn message(self) -> (r: &'static str)
        ensures
            r@ == (match self {
                ClientRefusal::RootCaller =>
                    "nested secure-launch client does not accept root callers"@,
                ClientRefusal::NotNested =>
                    "nested secure-launch client requires nested isolation"@,
            }),
    {
        match self {
            ClientRefusal::RootCaller => "nested secure-launch client does not accept root callers",
            ClientRefusal::NotNested => "nested secure-launch client requires nested isolation",
        }
    }
}

/// Whether a caller may ask for a sandbox of a mode. The caller is looked at before the request is
/// read.
pub fn run_nested_client(uid: u32, mode: Option<JailMode>) -> (r: Option<ClientRefusal>)
    ensures
        r == (if uid == 0 {
            Some(ClientRefusal::RootCaller)
        } else if mode == Some(JailMode::Direct) {
            Some(ClientRefusal::NotNested)
        } else {
            None
        }),
{
    if uid == 0 {
        return Some(ClientRefusal::RootCaller);
    }
    match mode {
        Some(JailMode::Direct) => Some(ClientRefusal::NotNested),
        _ => None,
    }
}

/// Whether the supervisor of nested sandboxes may run: only root can make a jail.
pub fn run_nested_daemon(uid: u32, effective_uid: u32) -> (r: bool)
    ensures
        r == (uid == 0 && effective_uid == 0),
{
    uid == 0 && effective_uid == 0
}

/// Whether the supervisor may make its socket in a directory: nobody but root can put another
/// one in its place.
pub fn is_safe_daemon_directory(uid: u32, mode: u32) -> (r: bool)
    ensures
        r == (uid == 0 && mode & 0o022 == 0),
{
    uid == 0 && mode & 0o022 == 0
}

/// What is done about the list of a user's groups.
#[derive(Debug, Clone, Copy, PartialEq, Eq, Structural)]
pub enum GroupList {
    /// The list is complete.
    Complete,
    /// Asks again with room for so many.
    Grow(usize),
    Invalid,
}

/// What follows an attempt to read the groups of a user: it fails where there was not room for
/// all, and tells then how many there are.
pub fn group_list_step(result: i32, count: i32) -> (r: GroupList)
    ensures
        r == (if result >= 0 {
            GroupList::Complete
        } else if count <= 0 || count > 1024 {
            GroupList::Invalid
        } else {
            GroupList::Grow(count as usize)
        }),
{
    if result >= 0 {
        GroupList::Complete
    } else if count <= 0 || count > 1024 {
        GroupList::Invalid
    } else {
        GroupList::Grow(count as usize)
    }
}

/// The groups that a peer may name: those of its user, and its own.
pub fn account_groups(listed: &[u32], primary_gid: u32) -> (r: Vec<u32>)
    ensures
        r@ == listed@.push(primary_gid),
{
    let mut out: Vec<u32> = Vec::new();
    let mut i: usize = 0;
    while i < listed.len()
        invariant
            i <= listed@.len(),
            out@ == listed@.take(i as int),
        decreases listed@.len() - i,
    {
        out.push(listed[i]);
        assert(out@ =~= listed@.take(i + 1));
        i += 1;
    }
    assert(listed@.take(i as int) =~= listed@);
    out.push(primary_gid);
    out
}

} // verus!
