//! The sandbox in which an application turns the extra data that it was given into its own.

use crate::flatpak_metadata::{value, value_of};
use crate::installation::Installation;
use crate::mount_operations::{MountView, OwnedMount};
use crate::hexadecimal::{hexadecimal, render_hex};
use crate::numbers::{decimal, render_u64};
use crate::path::{joined, FsPath};
use crate::sandbox_root::{RootStep, RootStepView};
use crate::text::{concat, concat3, lemma_texts_push, lemma_views_push, texts, views};
use vstd::prelude::*;

verus! {

#[derive(Debug, Clone, Copy, PartialEq, Eq, Structural)]
pub enum ExtraError {
    NoRuntime,
    NoName,
}

impl ExtraError {
    pub fn message(&self) -> (r: String)
        ensures
            r@ == (match self {
                ExtraError::NoRuntime =>
                    "extra-data processing without a runtime is not yet supported"@,
                ExtraError::NoName =>
                    "extra-data checkout metadata has no application or runtime name"@,
            }),
    {
        match self {
            ExtraError::NoRuntime => "extra-data processing without a runtime is not yet supported".to_string(),
            ExtraError::NoName => "extra-data checkout metadata has no application or runtime name".to_string(),
        }
    }
}

/// The name of an application, or of a runtime.
pub open spec fn checkout_name(metadata: Seq<char>) -> Option<Seq<char>> {
    match value_of(metadata, "Application"@, "name"@) {
        Some(name) => Some(name),
        None => value_of(metadata, "Runtime"@, "name"@),
    }
}

/// The name of what is processed, which must use a runtime.
pub fn extra_name(metadata: &str, use_runtime: bool) -> (r: Result<String, ExtraError>)
    ensures
        match r {
            Ok(name) => use_runtime && checkout_name(metadata@) == Some(name@),
            Err(ExtraError::NoRuntime) => !use_runtime,
            Err(ExtraError::NoName) => use_runtime && checkout_name(metadata@) is None,
        },
{
    if !use_runtime {
        return Err(ExtraError::NoRuntime);
    }
    match value(metadata, "Application", "name") {
        Some(name) => Ok(name),
        None => match value(metadata, "Runtime", "name") {
            Some(name) => Ok(name),
            None => Err(ExtraError::NoName),
        },
    }
}

/// The name of an instance that processes extra data, from the time and the process.
pub fn extra_instance_id(nonce: u128, pid: u32) -> (r: String)
    ensures
        r@ == "apply-extra-"@ + hexadecimal(nonce as nat) + "-"@ + decimal(pid as nat),
{
    let time = render_hex(nonce);
    let process = render_u64(pid as u64);
    let mut out = concat3("apply-extra-", &time, "-");
    out.append(&process);
    out
}

/// Something that the sandbox shows, and where.
#[derive(Debug)]
pub struct ExtraMount {
    pub source: FsPath,
    pub target: String,
    pub read_only: bool,
}

pub ghost struct ExtraMountView {
    pub source: Seq<char>,
    pub target: Seq<char>,
    pub read_only: bool,
}

impl View for ExtraMount {
    type V = ExtraMountView;

    open spec fn view(&self) -> ExtraMountView {
        ExtraMountView {
            source: self.source@,
            target: self.target@,
            read_only: self.read_only,
        }
    }
}

/// What the sandbox shows: only the directory of the extra data can be written.
pub fn extra_mounts(checkout: &FsPath, runtime_dir: &FsPath, extra_dir: &FsPath) -> (r: Vec<
    ExtraMount,
>)
    ensures
        views(r@) == seq![
            ExtraMountView {
                source: joined(runtime_dir@, "files"@),
                target: "usr"@,
                read_only: true,
            },
            ExtraMountView {
                source: joined(checkout@, "files"@),
                target: "app"@,
                read_only: true,
            },
            ExtraMountView { source: extra_dir@, target: "app/extra"@, read_only: false },
        ],
{
    let mut out: Vec<ExtraMount> = Vec::new();
    out.push(
        ExtraMount {
            source: runtime_dir.join("files"),
            target: "usr".to_string(),
            read_only: true,
        },
    );
    out.push(
        ExtraMount { source: checkout.join("files"), target: "app".to_string(), read_only: true },
    );
    out.push(
        ExtraMount { source: extra_dir.clone(), target: "app/extra".to_string(), read_only: false },
    );
    assert(views(out@) =~= seq![
        ExtraMountView {
            source: joined(runtime_dir@, "files"@),
            target: "usr"@,
            read_only: true,
        },
        ExtraMountView { source: joined(checkout@, "files"@), target: "app"@, read_only: true },
        ExtraMountView { source: extra_dir@, target: "app/extra"@, read_only: false },
    ]);
    out
}

/// The arguments that make a mount.
pub open spec fn mount_args(source: Seq<char>, target: Seq<char>, read_only: bool) -> Seq<Seq<char>> {
    if read_only {
        seq!["mount_nullfs"@, "-o"@, "ro"@, source, target]
    } else {
        seq!["mount_nullfs"@, source, target]
    }
}

/// The steps that prepare the sandbox.
pub open spec fn extra_root_steps(root: Seq<char>) -> Seq<RootStepView> {
    seq![
        RootStepView::Directory(joined(root, "app"@)),
        RootStepView::Directory(joined(root, "usr"@)),
        RootStepView::Symlink { target: "usr/bin"@, link: joined(root, "bin"@) },
        RootStepView::Symlink { target: "usr/lib"@, link: joined(root, "lib"@) },
        RootStepView::Symlink { target: "usr/lib64"@, link: joined(root, "lib64"@) },
        RootStepView::Write {
            path: joined(root, ".flatpak-info"@),
            contents: "[Instance]\n"@,
        },
    ]
}

/// What runs the program of the application that turns the extra data into its own.
pub open spec fn extra_command_args(
    root: Seq<char>,
    uid: u32,
    gid: u32,
    user: Seq<char>,
) -> Seq<Seq<char>> {
    seq![
        "chroot"@,
        "-n"@,
        "-u"@,
        decimal(uid as nat),
        "-g"@,
        decimal(gid as nat),
        root,
        "/usr/bin/env"@,
        "-i"@,
        "HOME=/home/"@ + user,
        "PATH=/app/bin:/usr/bin"@,
        "/usr/bin/sh"@,
        "-c"@,
        "cd /app/extra && exec /app/bin/apply_extra"@,
    ]
}

/// Adds an argument.
pub fn push_arg(args: &mut Vec<String>, text: &str)
    ensures
        texts(final(args)@) == texts(old(args)@).push(text@),
{
    let text = text.to_string();
    proof {
        lemma_texts_push(args@, text);
    }
    args.push(text);
}

/// What runs the program of the application that turns the extra data into its own.
pub fn extra_command(root: &FsPath, uid: u32, gid: u32, user: &str) -> (r: Vec<String>)
    ensures
        texts(r@) == extra_command_args(root@, uid, gid, user@),
{
    let user_id = render_u64(uid as u64);
    let group_id = render_u64(gid as u64);
    let home = concat("HOME=/home/", user);
    let mut args: Vec<String> = Vec::new();
    assert(texts(args@) =~= Seq::<Seq<char>>::empty());
    push_arg(&mut args, "chroot");
    push_arg(&mut args, "-n");
    push_arg(&mut args, "-u");
    push_arg(&mut args, &user_id);
    push_arg(&mut args, "-g");
    push_arg(&mut args, &group_id);
    push_arg(&mut args, root.as_str());
    push_arg(&mut args, "/usr/bin/env");
    push_arg(&mut args, "-i");
    push_arg(&mut args, &home);
    push_arg(&mut args, "PATH=/app/bin:/usr/bin");
    push_arg(&mut args, "/usr/bin/sh");
    push_arg(&mut args, "-c");
    push_arg(&mut args, "cd /app/extra && exec /app/bin/apply_extra");
    args
}

/// The sandbox while it is there.
#[derive(Debug)]
pub struct ApplySandbox {
    pub root: FsPath,
    pub record: FsPath,
    pub mounts: Vec<OwnedMount>,
    pub cleaned: bool,
}

/// The mounts in the order in which they are taken down: the last that was made first.
pub open spec fn reversed(mounts: Seq<MountView>) -> Seq<MountView> {
    Seq::new(mounts.len(), |i: int| mounts[mounts.len() - 1 - i])
}

impl ApplySandbox {
    pub fn new(root: FsPath, record: FsPath) -> (r: ApplySandbox)
        ensures
            r.root == root,
            r.record == record,
            r.mounts@.len() == 0,
            !r.cleaned,
    {
        ApplySandbox { root, record, mounts: Vec::new(), cleaned: false }
    }

    /// The steps that prepare the sandbox.
    pub fn prepare(&self) -> (r: Vec<RootStep>)
        ensures
            views(r@) == extra_root_steps(self.root@),
    {
        let mut steps: Vec<RootStep> = Vec::new();
        steps.push(RootStep::Directory(self.root.join("app")));
        steps.push(RootStep::Directory(self.root.join("usr")));
        steps.push(
            RootStep::Symlink { target: "usr/bin".to_string(), link: self.root.join("bin") },
        );
        steps.push(
            RootStep::Symlink { target: "usr/lib".to_string(), link: self.root.join("lib") },
        );
        steps.push(
            RootStep::Symlink { target: "usr/lib64".to_string(), link: self.root.join("lib64") },
        );
        steps.push(
            RootStep::Write {
                path: self.root.join(".flatpak-info"),
                contents: "[Instance]\n".to_string(),
            },
        );
        assert(views(steps@) =~= extra_root_steps(self.root@));
        steps
    }

    /// The arguments that mount a source, without its symbolic links, at a place in the sandbox.
    pub fn mount_command(&self, source: &FsPath, target: &str, read_only: bool) -> (r: Vec<String>)
        ensures
            texts(r@) == mount_args(source@, joined(self.root@, target@), read_only),
    {
        let place = self.root.join(target);
        let mut args: Vec<String> = Vec::new();
        assert(texts(args@) =~= Seq::<Seq<char>>::empty());
        push_arg(&mut args, "mount_nullfs");
        if read_only {
            push_arg(&mut args, "-o");
            push_arg(&mut args, "ro");
        }
        push_arg(&mut args, source.as_str());
        push_arg(&mut args, place.as_str());
        args
    }

    /// Takes note of a mount that has been made.
    pub fn mounted(&mut self, target: &str, read_only: bool)
        ensures
            views(final(self).mounts@) == views(old(self).mounts@).push(
                MountView { path: joined(old(self).root@, target@), read_only },
            ),
            final(self).root == old(self).root,
            final(self).record == old(self).record,
            final(self).cleaned == old(self).cleaned,
    {
        let mount = OwnedMount { path: self.root.join(target), read_only };
        let ghost before = self.mounts@;
        self.mounts.push(mount);
        assert(views(self.mounts@) =~= views(before).push(mount@));
    }

    /// The mounts in the order in which they are taken down. One that cannot be written may be
    /// taken down by force.
    pub fn teardown(&self) -> (r: Vec<OwnedMount>)
        ensures
            views(r@) == reversed(views(self.mounts@)),
    {
        let ghost all = views(self.mounts@);
        let ghost goal = reversed(all);
        let mut out: Vec<OwnedMount> = Vec::new();
        let mut i: usize = 0;
        assert(views(out@) =~= goal.take(0));
        while i < self.mounts.len()
            invariant
                i <= self.mounts@.len(),
                all == views(self.mounts@),
                goal == reversed(all),
                views(out@) == goal.take(i as int),
            decreases self.mounts@.len() - i,
        {
            let mount = self.mounts[self.mounts.len() - 1 - i].clone();
            proof {
                lemma_views_push(out@, mount);
                assert(all[all.len() - 1 - i] == self.mounts@[self.mounts@.len() - 1 - i]@);
                assert(goal[i as int] == mount@);
                assert(goal.take(i as int).push(mount@) =~= goal.take(i + 1));
            }
            out.push(mount);
            i += 1;
        }
        assert(goal.take(i as int) =~= goal);
        out
    }

    /// Ends the sandbox once nothing failed to be taken down: only then are its directory and its
    /// record removed. Returns whether they are.
    pub fn cleanup(&mut self, failed: bool) -> (r: bool)
        ensures
            r == !failed,
            final(self).root == old(self).root,
            final(self).record == old(self).record,
            failed ==> final(self).mounts == old(self).mounts && final(self).cleaned == old(
                self,
            ).cleaned,
            !failed ==> final(self).mounts@.len() == 0 && final(self).cleaned,
    {
        if failed {
            return false;
        }
        self.mounts = Vec::new();
        self.cleaned = true;
        true
    }
}

/// Where an instance that processes extra data has its root.
pub fn extra_root(paths: &Installation, app_id: &str, instance_id: &str) -> (r: FsPath)
    ensures
        r@ == joined(joined(paths.spec_chroots(), app_id@), instance_id@),
{
    paths.chroots().join(app_id).join(instance_id)
}

} // verus!
