//! What an application finds in `/etc`: the runtime's files, but its own account, and names resolved
//! as the host does or not at all.

use crate::flatpak_metadata::{list_items, value_of};
use crate::numbers::decimal;
use crate::order::lemma_concat_contains;
use crate::path::joined;
use crate::sandbox_identity::{
    group_lines, lemma_group_entries, lemma_passwd_entries, passwd_lines, SandboxIdentity,
};
use crate::sandbox_root::{
    etc_links, identity_steps, network_allowed, os_release_steps, overlay_refused, overlay_start,
    overlay_steps, removal, resolver_steps, EtcFacts, FileKind, ResolverFacts, RootStepView,
};
use crate::static_overrides::ended_lines;
use crate::text::{lines, split, views};
use vstd::prelude::*;

verus! {

/// Whether the link shows the entry of the runtime's `etc` in the sandbox's own.
pub open spec fn links_entry(
    etc: Seq<char>,
    entry: (Seq<char>, bool),
    step: RootStepView,
) -> bool {
    &&& !entry.1
    &&& entry.0 != "passwd"@
    &&& entry.0 != "group"@
    &&& entry.0 != "resolv.conf"@
    &&& entry.0 != "hosts"@
    &&& entry.0 != "os-release"@
    &&& step == (RootStepView::Symlink {
        target: "/usr/etc/"@ + entry.0,
        link: joined(etc, entry.0),
    })
}

proof fn lemma_links(etc: Seq<char>, entries: Seq<(Seq<char>, bool)>, step: RootStepView)
    ensures
        etc_links(etc, entries).contains(step) <==> exists|i: int|
            0 <= i < entries.len() && links_entry(etc, #[trigger] entries[i], step),
    decreases entries.len(),
{
    let all = etc_links(etc, entries);
    if entries.len() > 0 {
        let head = entries.drop_last();
        let last = entries[entries.len() - 1];
        let before = etc_links(etc, head);
        lemma_links(etc, head, step);
        if before.contains(step) {
            let i = choose|i: int|
                0 <= i < head.len() && links_entry(etc, #[trigger] head[i], step);
            assert(entries[i] == head[i]);
            let k = choose|k: int| 0 <= k < before.len() && before[k] == step;
            assert(all[k] == step);
        }
        if links_entry(etc, last, step) {
            assert(all[before.len() as int] == step);
        }
        if all.contains(step) && !before.contains(step) {
            let k = choose|k: int| 0 <= k < all.len() && all[k] == step;
            if k < before.len() {
                assert(before[k] == step);
            }
            assert(links_entry(etc, entries[entries.len() - 1], step));
        }
        if exists|i: int| 0 <= i < entries.len() && links_entry(etc, #[trigger] entries[i], step) {
            let i = choose|i: int|
                0 <= i < entries.len() && links_entry(etc, #[trigger] entries[i], step);
            if i < head.len() {
                assert(head[i] == entries[i]);
            }
        }
    }
}

/// Whether a file of the host that tells how names are resolved comes into the sandbox.
pub open spec fn is_copied(network_enabled: bool, facts: ResolverFacts) -> bool {
    network_enabled && facts.host_has && facts.target != FileKind::Directory && facts.target
        != FileKind::Other
}

proof fn lemma_resolver(
    etc: Seq<char>,
    name: Seq<char>,
    host_path: Seq<char>,
    network_enabled: bool,
    facts: ResolverFacts,
    step: RootStepView,
)
    ensures
        step is Copy ==> (resolver_steps(etc, name, host_path, network_enabled, facts).contains(
            step,
        ) <==> is_copied(network_enabled, facts) && step == (RootStepView::Copy {
            from: host_path,
            to: joined(etc, name),
        })),
        step is Symlink ==> !resolver_steps(etc, name, host_path, network_enabled, facts).contains(
            step,
        ),
        step == RootStepView::Remove(joined(etc, name)) && (facts.target == FileKind::File
            || facts.target == FileKind::Symlink) ==> resolver_steps(
            etc,
            name,
            host_path,
            network_enabled,
            facts,
        ).contains(step),
{
    let steps = resolver_steps(etc, name, host_path, network_enabled, facts);
    let gone = removal(joined(etc, name), facts.target);
    if is_copied(network_enabled, facts) {
        assert(steps[gone.len() as int] is Copy);
    }
    if gone.len() > 0 && steps.len() > 0 {
        assert(steps[0] == gone[0]);
    }
    if steps.contains(step) {
        let k = choose|k: int| 0 <= k < steps.len() && steps[k] == step;
        if k < gone.len() {
            assert(steps[k] == gone[k]);
        }
    }
}

/// What the sandbox's `etc` holds. An entry of the runtime's is linked to, unless something stands
/// in its place or it is one of `passwd`, `group`, `resolv.conf`, `hosts` and `os-release`;
/// `os-release` leads to that of the runtime. Of the host's files `/etc/resolv.conf` and `/etc/hosts`
/// are copied, where the host has them and the application may use the network, and no other;
/// without the network there is none of either.
pub proof fn lemma_what_etc_holds(
    etc: Seq<char>,
    network_enabled: bool,
    facts: EtcFacts,
    step: RootStepView,
)
    requires
        overlay_refused(etc, network_enabled, facts) is None,
    ensures
        ({
            let steps = overlay_steps(etc, network_enabled, facts);
            let entries = views(facts.entries@);
            &&& step is Symlink ==> (steps.contains(step) <==> (exists|i: int|
                0 <= i < entries.len() && links_entry(etc, #[trigger] entries[i], step)) || (
            facts.runtime_has_os_release && step == (RootStepView::Symlink {
                target: "../usr/lib/os-release"@,
                link: joined(etc, "os-release"@),
            })))
            &&& step is Copy ==> (steps.contains(step) <==> (network_enabled
                && facts.resolv_conf.host_has && step == (RootStepView::Copy {
                from: "/etc/resolv.conf"@,
                to: joined(etc, "resolv.conf"@),
            })) || (network_enabled && facts.hosts.host_has && step == (RootStepView::Copy {
                from: "/etc/hosts"@,
                to: joined(etc, "hosts"@),
            })))
            &&& step == RootStepView::Remove(joined(etc, "resolv.conf"@)) && (
            facts.resolv_conf.target == FileKind::File || facts.resolv_conf.target
                == FileKind::Symlink) ==> steps.contains(step)
            &&& step == RootStepView::Remove(joined(etc, "hosts"@)) && (facts.hosts.target
                == FileKind::File || facts.hosts.target == FileKind::Symlink) ==> steps.contains(
                step,
            )
        }),
{
    let entries = views(facts.entries@);
    let links = etc_links(etc, entries);
    let release = os_release_steps(etc, facts.os_release, facts.runtime_has_os_release);
    let start = overlay_start(etc, facts);
    let resolv = resolver_steps(
        etc,
        "resolv.conf"@,
        "/etc/resolv.conf"@,
        network_enabled,
        facts.resolv_conf,
    );
    let hosts = resolver_steps(etc, "hosts"@, "/etc/hosts"@, network_enabled, facts.hosts);
    lemma_links(etc, entries, step);
    lemma_concat_contains(links, release);
    lemma_concat_contains(start, resolv);
    lemma_concat_contains(start + resolv, hosts);
    lemma_resolver(
        etc,
        "resolv.conf"@,
        "/etc/resolv.conf"@,
        network_enabled,
        facts.resolv_conf,
        step,
    );
    lemma_resolver(etc, "hosts"@, "/etc/hosts"@, network_enabled, facts.hosts, step);
    let target = joined(etc, "os-release"@);
    let gone = removal(target, facts.os_release);
    if facts.runtime_has_os_release {
        assert(release[gone.len() as int] == (RootStepView::Symlink {
            target: "../usr/lib/os-release"@,
            link: target,
        }));
    }
    if release.contains(step) {
        let k = choose|k: int| 0 <= k < release.len() && release[k] == step;
        if k < gone.len() {
            assert(release[k] == gone[k]);
        }
    }
    if links.contains(step) {
        let i = choose|i: int|
            0 <= i < entries.len() && links_entry(etc, #[trigger] entries[i], step);
        assert(step is Symlink);
    }
    assert(overlay_steps(etc, network_enabled, facts) == start + resolv + hosts);
}

/// The accounts that an application sees. The file `passwd` names the user with the name, the
/// numbers, the real name, the home and the shell that the account has, and `group` the group with
/// its number and the user in it; whatever stood in their place is gone first.
pub proof fn lemma_what_the_account_files_say(
    etc: Seq<char>,
    identity: SandboxIdentity,
    passwd: FileKind,
    group: FileKind,
)
    requires
        identity.wf(),
    ensures
        ({
            let steps = identity_steps(etc, identity, passwd, group);
            let users = ended_lines(passwd_lines(identity));
            let groups = ended_lines(group_lines(identity));
            &&& steps.contains(
                RootStepView::Write { path: joined(etc, "passwd"@), contents: users },
            )
            &&& steps.contains(
                RootStepView::Write { path: joined(etc, "group"@), contents: groups },
            )
            &&& passwd == FileKind::Symlink || passwd == FileKind::File ==> steps[0]
                == RootStepView::Remove(joined(etc, "passwd"@))
            &&& lines(users).len() == 2
            &&& split(lines(users)[0], ':') == seq![
                identity.user_name@,
                "x"@,
                decimal(identity.uid as nat),
                decimal(identity.gid as nat),
                identity.real_name@,
                identity.home_dir@,
                "/bin/sh"@,
            ]
            &&& lines(users)[1] == "nfsnobody:x:65534:65534:Unmapped user:/:/sbin/nologin"@
            &&& lines(groups).last() == "nfsnobody:x:65534:"@
            &&& identity.group_name matches Some(name) ==> lines(groups).len() == 2 && split(
                lines(groups)[0],
                ':',
            ) == seq![name@, "x"@, decimal(identity.gid as nat), identity.user_name@]
            &&& identity.group_name is None ==> lines(groups).len() == 1
        }),
{
    lemma_passwd_entries(identity);
    lemma_group_entries(identity);
    let a = removal(joined(etc, "passwd"@), passwd).push(
        RootStepView::Write {
            path: joined(etc, "passwd"@),
            contents: ended_lines(passwd_lines(identity)),
        },
    );
    let b = removal(joined(etc, "group"@), group).push(
        RootStepView::Write {
            path: joined(etc, "group"@),
            contents: ended_lines(group_lines(identity)),
        },
    );
    lemma_concat_contains(a, b);
    assert(a[a.len() - 1] == a.last());
    assert(b[b.len() - 1] == b.last());
    assert(a.contains(a.last()));
    assert(b.contains(b.last()));
    if passwd == FileKind::Symlink || passwd == FileKind::File {
        assert((a + b)[0] == a[0]);
    }
}

/// An application may use the network if and only if it asks to share it.
pub proof fn lemma_the_network_is_shared(metadata: Seq<char>)
    ensures
        network_allowed(metadata) <==> value_of(metadata, "Context"@, "shared"@) is Some
            && list_items(value_of(metadata, "Context"@, "shared"@)->0).contains("network"@),
{
}

} // verus!
