//! What the root directory of a sandbox holds before anything is mounted in it.

use crate::extensions::{extension_info, ExtensionMountPlan, ExtensionScope};
use crate::flatpak_metadata::{contains_text, list_items, split_list, value, value_of};
use crate::numbers::{decimal, render_u64};
use crate::path::{joined, parent_of, FsPath};
use crate::sandbox_identity::{group_lines, passwd_lines, SandboxIdentity};
use crate::static_overrides::ended_lines;
use crate::text::{concat, join, join_texts, lemma_views_push, text_eq, texts, views};
use vstd::prelude::*;

verus! {

/// What stands at a path, where links are not followed.
#[derive(Debug, Clone, Copy, PartialEq, Eq, Structural)]
pub enum FileKind {
    Missing,
    Symlink,
    File,
    Directory,
    Other,
}

/// One step of preparing a root directory.
#[derive(Debug)]
pub enum RootStep {
    /// Makes a directory and those above it.
    Directory(FsPath),
    Symlink { target: String, link: FsPath },
    Remove(FsPath),
    /// Copies a file of the host; the copy is readable by all.
    Copy { from: FsPath, to: FsPath },
    /// Writes a file that is readable by all.
    Write { path: FsPath, contents: String },
}

pub ghost enum RootStepView {
    Directory(Seq<char>),
    Symlink { target: Seq<char>, link: Seq<char> },
    Remove(Seq<char>),
    Copy { from: Seq<char>, to: Seq<char> },
    Write { path: Seq<char>, contents: Seq<char> },
}

impl View for RootStep {
    type V = RootStepView;

    open spec fn view(&self) -> RootStepView {
        match self {
            RootStep::Directory(path) => RootStepView::Directory(path@),
            RootStep::Symlink { target, link } => RootStepView::Symlink {
                target: target@,
                link: link@,
            },
            RootStep::Remove(path) => RootStepView::Remove(path@),
            RootStep::Copy { from, to } => RootStepView::Copy { from: from@, to: to@ },
            RootStep::Write { path, contents } => RootStepView::Write {
                path: path@,
                contents: contents@,
            },
        }
    }
}

/// The directories of every sandbox.
pub open spec fn layout_directories(root: Seq<char>, uid: u32) -> Seq<RootStepView> {
    seq![
        RootStepView::Directory(joined(root, "app"@)),
        RootStepView::Directory(joined(root, "usr"@)),
        RootStepView::Directory(joined(root, "dev"@)),
        RootStepView::Directory(joined(root, "proc"@)),
        RootStepView::Directory(joined(root, "sys"@)),
        RootStepView::Directory(joined(root, "tmp"@)),
        RootStepView::Directory(joined(root, "var/data"@)),
        RootStepView::Directory(joined(root, "var/cache"@)),
        RootStepView::Directory(joined(root, "var/config"@)),
        RootStepView::Directory(joined(joined(joined(root, "run"@), "user"@), decimal(uid as nat))),
    ]
}

/// A link, where nothing stands in its place.
pub open spec fn link_steps(target: Seq<char>, link: Seq<char>, taken: bool) -> Seq<RootStepView> {
    if taken {
        Seq::empty()
    } else {
        seq![RootStepView::Symlink { target, link }]
    }
}

fn make_link(steps: &mut Vec<RootStep>, target: &str, link: FsPath, taken: bool)
    ensures
        views(final(steps)@) == views(old(steps)@) + link_steps(target@, link@, taken),
{
    if !taken {
        let step = RootStep::Symlink { target: target.to_string(), link };
        proof {
            lemma_views_push(steps@, step);
        }
        steps.push(step);
    }
    assert(views(steps@) =~= views(old(steps)@) + link_steps(target@, link@, taken));
}

fn push_step(steps: &mut Vec<RootStep>, step: RootStep)
    ensures
        views(final(steps)@) == views(old(steps)@).push(step@),
{
    proof {
        lemma_views_push(steps@, step);
    }
    steps.push(step);
}

/// Which of the links to the runtime are already there.
#[derive(Debug, Clone, Copy)]
pub struct LinksTaken {
    pub bin: bool,
    pub lib: bool,
    pub lib64: bool,
}

/// The directories and the links of every sandbox.
pub fn prepare_root(root: &FsPath, identity: &SandboxIdentity, taken: LinksTaken) -> (r: Vec<
    RootStep,
>)
    ensures
        views(r@) == layout_directories(root@, identity.uid) + link_steps(
            "usr/bin"@,
            joined(root@, "bin"@),
            taken.bin,
        ) + link_steps("usr/lib"@, joined(root@, "lib"@), taken.lib) + link_steps(
            "usr/lib64"@,
            joined(root@, "lib64"@),
            taken.lib64,
        ),
{
    let mut steps: Vec<RootStep> = Vec::new();
    assert(views(steps@) =~= Seq::<RootStepView>::empty());
    push_step(&mut steps, RootStep::Directory(root.join("app")));
    push_step(&mut steps, RootStep::Directory(root.join("usr")));
    push_step(&mut steps, RootStep::Directory(root.join("dev")));
    push_step(&mut steps, RootStep::Directory(root.join("proc")));
    push_step(&mut steps, RootStep::Directory(root.join("sys")));
    push_step(&mut steps, RootStep::Directory(root.join("tmp")));
    push_step(&mut steps, RootStep::Directory(root.join("var/data")));
    push_step(&mut steps, RootStep::Directory(root.join("var/cache")));
    push_step(&mut steps, RootStep::Directory(root.join("var/config")));
    let id = render_u64(identity.uid() as u64);
    push_step(&mut steps, RootStep::Directory(root.join("run").join("user").join(&id)));
    assert(views(steps@) =~= layout_directories(root@, identity.uid));
    make_link(&mut steps, "usr/bin", root.join("bin"), taken.bin);
    make_link(&mut steps, "usr/lib", root.join("lib"), taken.lib);
    make_link(&mut steps, "usr/lib64", root.join("lib64"), taken.lib64);
    steps
}

/// What makes way for the directory `etc`; a link in its place is replaced.
pub fn prepare_etc_directory(root: &FsPath, kind: FileKind) -> (r: Result<Vec<RootStep>, FsPath>)
    ensures
        match r {
            Ok(steps) => {
                &&& kind == FileKind::Missing || kind == FileKind::Symlink || kind
                    == FileKind::Directory
                &&& views(steps@) == (if kind == FileKind::Symlink {
                    seq![
                        RootStepView::Remove(joined(root@, "etc"@)),
                        RootStepView::Directory(joined(root@, "etc"@)),
                    ]
                } else {
                    seq![RootStepView::Directory(joined(root@, "etc"@))]
                })
            },
            Err(path) => (kind == FileKind::File || kind == FileKind::Other) && path@ == joined(
                root@,
                "etc"@,
            ),
        },
{
    let etc = root.join("etc");
    let mut steps: Vec<RootStep> = Vec::new();
    assert(views(steps@) =~= Seq::<RootStepView>::empty());
    match kind {
        FileKind::Missing | FileKind::Directory => {},
        FileKind::Symlink => {
            push_step(&mut steps, RootStep::Remove(etc.clone()));
        },
        FileKind::File | FileKind::Other => {
            return Err(etc);
        },
    }
    push_step(&mut steps, RootStep::Directory(etc));
    Ok(steps)
}

/// The names in `etc` that are not taken from the runtime as they are.
pub open spec fn is_overlaid(name: Seq<char>) -> bool {
    name == "passwd"@ || name == "group"@ || name == "resolv.conf"@ || name == "hosts"@ || name
        == "os-release"@
}

/// An entry of the runtime's `etc`.
#[derive(Debug)]
pub struct EtcEntry {
    pub name: String,
    /// Whether something stands under this name in the sandbox's own `etc`.
    pub taken: bool,
}

impl View for EtcEntry {
    type V = (Seq<char>, bool);

    open spec fn view(&self) -> (Seq<char>, bool) {
        (self.name@, self.taken)
    }
}

/// The links to what the runtime's `etc` holds.
pub open spec fn etc_links(etc: Seq<char>, entries: Seq<(Seq<char>, bool)>) -> Seq<RootStepView>
    decreases entries.len(),
{
    if entries.len() == 0 {
        Seq::empty()
    } else {
        let before = etc_links(etc, entries.drop_last());
        let (name, taken) = entries.last();
        if is_overlaid(name) || taken {
            before
        } else {
            before.push(
                RootStepView::Symlink { target: "/usr/etc/"@ + name, link: joined(etc, name) },
            )
        }
    }
}

/// The removal of a file or a link; anything else is left.
pub open spec fn removal(path: Seq<char>, kind: FileKind) -> Seq<RootStepView> {
    if kind == FileKind::Symlink || kind == FileKind::File {
        seq![RootStepView::Remove(path)]
    } else {
        Seq::empty()
    }
}

fn remove_regular_overlay_file(steps: &mut Vec<RootStep>, path: &FsPath, kind: FileKind)
    ensures
        views(final(steps)@) == views(old(steps)@) + removal(path@, kind),
{
    match kind {
        FileKind::Symlink | FileKind::File => {
            push_step(steps, RootStep::Remove(path.clone()));
        },
        FileKind::Missing | FileKind::Directory | FileKind::Other => {},
    }
    assert(views(steps@) =~= views(old(steps)@) + removal(path@, kind));
}

/// What makes `os-release` name the runtime, where the runtime has one.
pub open spec fn os_release_steps(etc: Seq<char>, kind: FileKind, runtime_has: bool) -> Seq<
    RootStepView,
> {
    let target = joined(etc, "os-release"@);
    removal(target, kind) + (if runtime_has {
        seq![RootStepView::Symlink { target: "../usr/lib/os-release"@, link: target }]
    } else {
        Seq::empty()
    })
}

/// Where the runtime keeps the file that tells what it is.
pub fn runtime_os_release(runtime_etc: &FsPath) -> (r: Option<FsPath>)
    ensures
        match r {
            Some(path) => parent_of(runtime_etc@) is Some && path@ == joined(
                parent_of(runtime_etc@)->0,
                "lib/os-release"@,
            ),
            None => parent_of(runtime_etc@) is None,
        },
{
    match runtime_etc.parent() {
        Some(runtime_files) => Some(runtime_files.join("lib/os-release")),
        None => None,
    }
}

/// A file of the host that tells how names are resolved: its copy in the sandbox, and whether the
/// host has it.
#[derive(Debug, Clone, Copy)]
pub struct ResolverFacts {
    pub target: FileKind,
    pub host_has: bool,
}

/// Whether the host's file has to be put where something else stands.
pub open spec fn resolver_refused(network_enabled: bool, facts: ResolverFacts) -> bool {
    network_enabled && facts.host_has && (facts.target == FileKind::Directory || facts.target
        == FileKind::Other)
}

/// What makes the sandbox resolve names as the host does, or not at all.
pub open spec fn resolver_steps(
    etc: Seq<char>,
    name: Seq<char>,
    host_path: Seq<char>,
    network_enabled: bool,
    facts: ResolverFacts,
) -> Seq<RootStepView> {
    let target = joined(etc, name);
    if !network_enabled || !facts.host_has {
        removal(target, facts.target)
    } else if resolver_refused(network_enabled, facts) {
        Seq::empty()
    } else {
        removal(target, facts.target).push(RootStepView::Copy { from: host_path, to: target })
    }
}

/// Adds the steps for one file; returns whether its place is taken by something else.
fn prepare_host_resolver_file(
    steps: &mut Vec<RootStep>,
    etc: &FsPath,
    name: &str,
    host_path: &str,
    network_enabled: bool,
    facts: ResolverFacts,
) -> (r: Option<FsPath>)
    ensures
        views(final(steps)@) == views(old(steps)@) + resolver_steps(
            etc@,
            name@,
            host_path@,
            network_enabled,
            facts,
        ),
        match r {
            Some(path) => resolver_refused(network_enabled, facts) && path@ == joined(etc@, name@),
            None => !resolver_refused(network_enabled, facts),
        },
{
    let ghost start = views(steps@);
    let target = etc.join(name);
    if !network_enabled || !facts.host_has {
        remove_regular_overlay_file(steps, &target, facts.target);
        return None;
    }
    match facts.target {
        FileKind::Directory | FileKind::Other => {
            assert(views(steps@) =~= start + Seq::<RootStepView>::empty());
            return Some(target);
        },
        FileKind::Missing | FileKind::Symlink | FileKind::File => {},
    }
    remove_regular_overlay_file(steps, &target, facts.target);
    push_step(steps, RootStep::Copy { from: FsPath::new(host_path), to: target });
    assert(views(steps@) =~= start + resolver_steps(
        etc@,
        name@,
        host_path@,
        network_enabled,
        facts,
    ));
    None
}

/// What is known of the runtime's `etc` and of the sandbox's own.
#[derive(Debug)]
pub struct EtcFacts {
    pub entries: Vec<EtcEntry>,
    pub os_release: FileKind,
    pub runtime_has_os_release: bool,
    pub resolv_conf: ResolverFacts,
    pub hosts: ResolverFacts,
}

/// The steps that fill `etc`, and the path that stopped them, if one did: something stands there
/// that is no file.
#[derive(Debug)]
pub struct EtcPlan {
    pub steps: Vec<RootStep>,
    pub refused: Option<FsPath>,
}

/// The steps that do not depend on the network.
pub open spec fn overlay_start(etc: Seq<char>, facts: EtcFacts) -> Seq<RootStepView> {
    etc_links(etc, views(facts.entries@)) + os_release_steps(
        etc,
        facts.os_release,
        facts.runtime_has_os_release,
    )
}

/// The steps that fill `etc`.
pub open spec fn overlay_steps(etc: Seq<char>, network_enabled: bool, facts: EtcFacts) -> Seq<
    RootStepView,
> {
    let with_resolver = overlay_start(etc, facts) + resolver_steps(
        etc,
        "resolv.conf"@,
        "/etc/resolv.conf"@,
        network_enabled,
        facts.resolv_conf,
    );
    if resolver_refused(network_enabled, facts.resolv_conf) {
        with_resolver
    } else {
        with_resolver + resolver_steps(
            etc,
            "hosts"@,
            "/etc/hosts"@,
            network_enabled,
            facts.hosts,
        )
    }
}

/// The path that stops the filling of `etc`.
pub open spec fn overlay_refused(etc: Seq<char>, network_enabled: bool, facts: EtcFacts) -> Option<
    Seq<char>,
> {
    if resolver_refused(network_enabled, facts.resolv_conf) {
        Some(joined(etc, "resolv.conf"@))
    } else if resolver_refused(network_enabled, facts.hosts) {
        Some(joined(etc, "hosts"@))
    } else {
        None
    }
}

/// Adds the links to what the runtime's `etc` holds.
fn link_etc_entries(steps: &mut Vec<RootStep>, etc: &FsPath, entries: &[EtcEntry])
    ensures
        views(final(steps)@) == views(old(steps)@) + etc_links(etc@, views(entries@)),
{
    let ghost start = views(steps@);
    let ghost all = views(entries@);
    let mut i: usize = 0;
    assert(start + etc_links(etc@, all.take(0)) =~= start);
    while i < entries.len()
        invariant
            i <= entries@.len(),
            all == views(entries@),
            views(steps@) == start + etc_links(etc@, all.take(i as int)),
        decreases entries@.len() - i,
    {
        let ghost next = all.take(i + 1);
        assert(next.drop_last() =~= all.take(i as int));
        assert(next.last() == entries@[i as int]@);
        let name = entries[i].name.as_str();
        let overlaid = text_eq(name, "passwd") || text_eq(name, "group") || text_eq(
            name,
            "resolv.conf",
        ) || text_eq(name, "hosts") || text_eq(name, "os-release");
        if !overlaid && !entries[i].taken {
            push_step(
                steps,
                RootStep::Symlink { target: concat("/usr/etc/", name), link: etc.join(name) },
            );
        }
        assert(views(steps@) =~= start + etc_links(etc@, next));
        i += 1;
    }
    assert(all.take(i as int) =~= all);
}

/// The steps that fill `etc`.
pub fn prepare_etc_overlay(etc: &FsPath, network_enabled: bool, facts: &EtcFacts) -> (r: EtcPlan)
    ensures
        views(r.steps@) == overlay_steps(etc@, network_enabled, *facts),
        match r.refused {
            Some(path) => overlay_refused(etc@, network_enabled, *facts) == Some(path@),
            None => overlay_refused(etc@, network_enabled, *facts) is None,
        },
{
    let mut steps: Vec<RootStep> = Vec::new();
    assert(views(steps@) =~= Seq::<RootStepView>::empty());
    link_etc_entries(&mut steps, etc, facts.entries.as_slice());
    let ghost linked = views(steps@);
    assert(linked =~= etc_links(etc@, views(facts.entries@)));
    let target = etc.join("os-release");
    remove_regular_overlay_file(&mut steps, &target, facts.os_release);
    if facts.runtime_has_os_release {
        push_step(
            &mut steps,
            RootStep::Symlink { target: "../usr/lib/os-release".to_string(), link: target },
        );
    }
    assert(views(steps@) =~= overlay_start(etc@, *facts));
    let refused = prepare_host_resolver_file(
        &mut steps,
        etc,
        "resolv.conf",
        "/etc/resolv.conf",
        network_enabled,
        facts.resolv_conf,
    );
    if refused.is_some() {
        return EtcPlan { steps, refused };
    }
    let refused = prepare_host_resolver_file(
        &mut steps,
        etc,
        "hosts",
        "/etc/hosts",
        network_enabled,
        facts.hosts,
    );
    EtcPlan { steps, refused }
}

/// An entry of the runtime's `etc` is linked if and only if its name is not overlaid and nothing
/// stands in its place: the accounts of the runtime are never shown.
pub proof fn lemma_etc_links(etc: Seq<char>, entries: Seq<(Seq<char>, bool)>, i: int)
    requires
        0 <= i < entries.len(),
        !entries[i].1,
        !is_overlaid(entries[i].0),
    ensures
        etc_links(etc, entries).contains(
            RootStepView::Symlink {
                target: "/usr/etc/"@ + entries[i].0,
                link: joined(etc, entries[i].0),
            },
        ),
    decreases entries.len(),
{
    let step = RootStepView::Symlink {
        target: "/usr/etc/"@ + entries[i].0,
        link: joined(etc, entries[i].0),
    };
    let before = etc_links(etc, entries.drop_last());
    let all = etc_links(etc, entries);
    if i == entries.len() - 1 {
        assert(all.last() == step);
    } else {
        lemma_etc_links(etc, entries.drop_last(), i);
        let k = choose|k: int| 0 <= k < before.len() && before[k] == step;
        assert(all[k] == step);
    }
}

/// Every link into the runtime's `etc` is one of an entry that is neither overlaid nor taken.
pub proof fn lemma_etc_link_source(etc: Seq<char>, entries: Seq<(Seq<char>, bool)>, k: int) -> (i:
    int)
    requires
        0 <= k < etc_links(etc, entries).len(),
    ensures
        0 <= i < entries.len(),
        !entries[i].1,
        !is_overlaid(entries[i].0),
        etc_links(etc, entries)[k] == (RootStepView::Symlink {
            target: "/usr/etc/"@ + entries[i].0,
            link: joined(etc, entries[i].0),
        }),
    decreases entries.len(),
{
    let before = etc_links(etc, entries.drop_last());
    if k < before.len() {
        lemma_etc_link_source(etc, entries.drop_last(), k)
    } else {
        entries.len() - 1
    }
}

/// Without the network no file of the host is copied, and what was copied before is removed.
pub proof fn lemma_no_network_no_resolver(etc: Seq<char>, facts: EtcFacts)
    ensures
        overlay_refused(etc, false, facts) is None,
        overlay_steps(etc, false, facts) == overlay_start(etc, facts) + removal(
            joined(etc, "resolv.conf"@),
            facts.resolv_conf.target,
        ) + removal(joined(etc, "hosts"@), facts.hosts.target),
{
}

/// The steps that write the account files.
pub open spec fn identity_steps(
    etc: Seq<char>,
    identity: SandboxIdentity,
    passwd: FileKind,
    group: FileKind,
) -> Seq<RootStepView> {
    removal(joined(etc, "passwd"@), passwd).push(
        RootStepView::Write {
            path: joined(etc, "passwd"@),
            contents: ended_lines(passwd_lines(identity)),
        },
    ) + removal(joined(etc, "group"@), group).push(
        RootStepView::Write {
            path: joined(etc, "group"@),
            contents: ended_lines(group_lines(identity)),
        },
    )
}

/// The steps that write the account files.
pub fn prepare_identity_files(
    etc: &FsPath,
    identity: &SandboxIdentity,
    passwd: FileKind,
    group: FileKind,
) -> (r: Vec<RootStep>)
    ensures
        views(r@) == identity_steps(etc@, *identity, passwd, group),
{
    let mut steps: Vec<RootStep> = Vec::new();
    let target = etc.join("passwd");
    assert(views(steps@) =~= Seq::<RootStepView>::empty());
    remove_regular_overlay_file(&mut steps, &target, passwd);
    push_step(
        &mut steps,
        RootStep::Write { path: target, contents: identity.passwd_contents() },
    );
    let ghost users = views(steps@);
    let target = etc.join("group");
    remove_regular_overlay_file(&mut steps, &target, group);
    push_step(&mut steps, RootStep::Write { path: target, contents: identity.group_contents() });
    assert(views(steps@) =~= identity_steps(etc@, *identity, passwd, group));
    steps
}

/// Whether an application may use the network.
pub open spec fn network_allowed(metadata: Seq<char>) -> bool {
    match value_of(metadata, "Context"@, "shared"@) {
        Some(shared) => list_items(shared).contains("network"@),
        None => false,
    }
}

/// Whether an application may use the network.
pub fn app_allows_network(metadata: &str) -> (r: bool)
    ensures
        r == network_allowed(metadata@),
{
    match value(metadata, "Context", "shared") {
        Some(shared) => {
            let items = split_list(&shared);
            contains_text(items.as_slice(), "network")
        },
        None => false,
    }
}

/// The items as a list value, in which each is ended by a semicolon.
pub open spec fn info_list(items: Seq<Seq<char>>) -> Seq<char> {
    if items.len() == 0 {
        Seq::empty()
    } else {
        join(items, ";"@) + ";"@
    }
}

fn list_text(items: &[String]) -> (r: String)
    ensures
        r@ == info_list(texts(items@)),
{
    assert(texts(items@).len() == items@.len());
    if items.len() == 0 {
        let out = String::new();
        assert(out@ =~= Seq::<char>::empty());
        out
    } else {
        let mut out = join_texts(items, ";");
        out.append(";");
        out
    }
}

/// What a sandbox tells an application about itself.
pub open spec fn flatpak_info_text(
    app_id: Seq<char>,
    runtime_ref: Seq<char>,
    instance_id: Seq<char>,
    app_extensions: Seq<Seq<char>>,
    runtime_extensions: Seq<Seq<char>>,
) -> Seq<char> {
    "[Application]\nname="@ + app_id + "\nruntime="@ + runtime_ref
        + "\n\n[Instance]\ninstance-id="@ + instance_id
        + "\nflatpak-version=1.12.0\napp-extensions="@ + info_list(app_extensions)
        + "\nruntime-extensions="@ + info_list(runtime_extensions)
        + "\n\n[Context]\nfilesystems=\n"@
}

/// What a sandbox tells an application about itself.
pub fn flatpak_info(
    app_id: &str,
    runtime_ref: &str,
    instance_id: &str,
    extensions: &ExtensionMountPlan,
) -> (r: String)
    ensures
        r@ == flatpak_info_text(
            app_id@,
            runtime_ref@,
            instance_id@,
            extension_info(views(extensions.mounts@), ExtensionScope::App),
            extension_info(views(extensions.mounts@), ExtensionScope::Runtime),
        ),
{
    let app_info = extensions.app_info();
    let runtime_info = extensions.runtime_info();
    let app_list = list_text(app_info.as_slice());
    let runtime_list = list_text(runtime_info.as_slice());
    let mut out = concat("[Application]\nname=", app_id);
    out.append("\nruntime=");
    out.append(runtime_ref);
    out.append("\n\n[Instance]\ninstance-id=");
    out.append(instance_id);
    out.append("\nflatpak-version=1.12.0\napp-extensions=");
    out.append(&app_list);
    out.append("\nruntime-extensions=");
    out.append(&runtime_list);
    out.append("\n\n[Context]\nfilesystems=\n");
    out
}

} // verus!
