//! What the extensions of an application and of its runtime add to a sandbox.

use crate::path::{joined, FsPath};
use crate::text::{concat3, lemma_texts_push, texts, views};
use vstd::prelude::*;

verus! {

/// An extension that is mounted below `/app`.
#[derive(Debug)]
pub struct AppExtension {
    pub name: String,
    pub ref_name: String,
    pub checkout_dir: FsPath,
    pub app_mount_relative: FsPath,
    pub ld_library_relative: Option<FsPath>,
}

/// An extension that is mounted below `/usr`.
#[derive(Debug)]
pub struct RuntimeCodecExtension {
    pub name: String,
    pub ref_name: String,
    pub checkout_dir: FsPath,
    pub runtime_mount_relative: FsPath,
    pub ld_library_relative: Option<FsPath>,
}

/// Where an extension is checked out, where it is mounted below a prefix, and its library
/// directory.
pub ghost struct ExtensionView {
    pub checkout: Seq<char>,
    pub mount: Seq<char>,
    pub library: Option<Seq<char>>,
}

pub open spec fn path_option(path: Option<FsPath>) -> Option<Seq<char>> {
    match path {
        Some(path) => Some(path@),
        None => None,
    }
}

impl View for AppExtension {
    type V = ExtensionView;

    open spec fn view(&self) -> ExtensionView {
        ExtensionView {
            checkout: self.checkout_dir@,
            mount: self.app_mount_relative@,
            library: path_option(self.ld_library_relative),
        }
    }
}

impl View for RuntimeCodecExtension {
    type V = ExtensionView;

    open spec fn view(&self) -> ExtensionView {
        ExtensionView {
            checkout: self.checkout_dir@,
            mount: self.runtime_mount_relative@,
            library: path_option(self.ld_library_relative),
        }
    }
}

/// The library directories of the extensions that have one.
pub open spec fn library_paths(prefix: Seq<char>, extensions: Seq<ExtensionView>) -> Seq<Seq<char>>
    decreases extensions.len(),
{
    if extensions.len() == 0 {
        Seq::empty()
    } else {
        let before = library_paths(prefix, extensions.drop_last());
        match extensions.last().library {
            Some(library) => before.push(
                joined(joined(prefix, extensions.last().mount), library),
            ),
            None => before,
        }
    }
}

/// The library directories that extensions add below `/app`.
pub fn app_extension_ld_paths(extensions: &[AppExtension]) -> (r: Vec<String>)
    ensures
        texts(r@) == library_paths("/app"@, views(extensions@)),
{
    let mut out: Vec<String> = Vec::new();
    let ghost all = views(extensions@);
    let mut i: usize = 0;
    assert(texts(out@) =~= library_paths("/app"@, all.take(0)));
    while i < extensions.len()
        invariant
            i <= extensions@.len(),
            all == views(extensions@),
            texts(out@) == library_paths("/app"@, all.take(i as int)),
        decreases extensions@.len() - i,
    {
        let ghost next = all.take(i + 1);
        assert(next.drop_last() =~= all.take(i as int));
        assert(next.last() == extensions@[i as int]@);
        if let Some(library) = &extensions[i].ld_library_relative {
            let path = FsPath::new("/app").join_path(&extensions[i].app_mount_relative).join_path(
                library,
            );
            proof {
                lemma_texts_push(out@, path.text);
            }
            out.push(path.text);
        }
        i += 1;
    }
    assert(all.take(i as int) =~= all);
    out
}

/// The library directories that extensions add below `/usr`.
pub fn runtime_extension_ld_paths(extensions: &[RuntimeCodecExtension]) -> (r: Vec<String>)
    ensures
        texts(r@) == library_paths("/usr"@, views(extensions@)),
{
    let mut out: Vec<String> = Vec::new();
    let ghost all = views(extensions@);
    let mut i: usize = 0;
    assert(texts(out@) =~= library_paths("/usr"@, all.take(0)));
    while i < extensions.len()
        invariant
            i <= extensions@.len(),
            all == views(extensions@),
            texts(out@) == library_paths("/usr"@, all.take(i as int)),
        decreases extensions@.len() - i,
    {
        let ghost next = all.take(i + 1);
        assert(next.drop_last() =~= all.take(i as int));
        assert(next.last() == extensions@[i as int]@);
        if let Some(library) = &extensions[i].ld_library_relative {
            let path = FsPath::new("/usr").join_path(
                &extensions[i].runtime_mount_relative,
            ).join_path(library);
            proof {
                lemma_texts_push(out@, path.text);
            }
            out.push(path.text);
        }
        i += 1;
    }
    assert(all.take(i as int) =~= all);
    out
}

/// What an extension belongs to.
#[derive(Debug, Clone, Copy, PartialEq, Eq, Structural)]
pub enum ExtensionScope {
    App,
    Runtime,
}

/// An extension that a sandbox mounts.
#[derive(Debug)]
pub struct ExtensionMount {
    pub name: String,
    pub commit: String,
    pub target: FsPath,
    pub scope: ExtensionScope,
}

pub ghost struct ExtensionMountView {
    pub name: Seq<char>,
    pub commit: Seq<char>,
    pub target: Seq<char>,
    pub scope: ExtensionScope,
}

impl View for ExtensionMount {
    type V = ExtensionMountView;

    open spec fn view(&self) -> ExtensionMountView {
        ExtensionMountView {
            name: self.name@,
            commit: self.commit@,
            target: self.target@,
            scope: self.scope,
        }
    }
}

/// The extensions that a sandbox mounts.
#[derive(Debug)]
pub struct ExtensionMountPlan {
    pub mounts: Vec<ExtensionMount>,
}

/// What is told of the extensions of a scope: each by its name and its commit.
pub open spec fn extension_info(
    mounts: Seq<ExtensionMountView>,
    scope: ExtensionScope,
) -> Seq<Seq<char>>
    decreases mounts.len(),
{
    if mounts.len() == 0 {
        Seq::empty()
    } else {
        let before = extension_info(mounts.drop_last(), scope);
        if mounts.last().scope == scope {
            before.push(mounts.last().name + "="@ + mounts.last().commit)
        } else {
            before
        }
    }
}

impl ExtensionMountPlan {
    /// The extensions of one scope, each by its name and its commit.
    pub fn info(&self, scope: ExtensionScope) -> (r: Vec<String>)
        ensures
            texts(r@) == extension_info(views(self.mounts@), scope),
    {
        let mut out: Vec<String> = Vec::new();
        let ghost all = views(self.mounts@);
        let mut i: usize = 0;
        assert(texts(out@) =~= extension_info(all.take(0), scope));
        while i < self.mounts.len()
            invariant
                i <= self.mounts@.len(),
                all == views(self.mounts@),
                texts(out@) == extension_info(all.take(i as int), scope),
            decreases self.mounts@.len() - i,
        {
            let ghost next = all.take(i + 1);
            assert(next.drop_last() =~= all.take(i as int));
            assert(next.last() == self.mounts@[i as int]@);
            if self.mounts[i].scope == scope {
                let text = concat3(&self.mounts[i].name, "=", &self.mounts[i].commit);
                proof {
                    lemma_texts_push(out@, text);
                }
                out.push(text);
            }
            i += 1;
        }
        assert(all.take(i as int) =~= all);
        out
    }

    pub fn app_info(&self) -> (r: Vec<String>)
        ensures
            texts(r@) == extension_info(views(self.mounts@), ExtensionScope::App),
    {
        self.info(ExtensionScope::App)
    }

    pub fn runtime_info(&self) -> (r: Vec<String>)
        ensures
            texts(r@) == extension_info(views(self.mounts@), ExtensionScope::Runtime),
    {
        self.info(ExtensionScope::Runtime)
    }
}

} // verus!
