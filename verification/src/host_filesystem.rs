//! The host's files as a sandbox sees them.

use crate::file_argument_translation::{
    arg_path, host_path_from_arg, is_field_code, is_internal, is_sandbox_internal_path,
    is_standalone_desktop_field_code, local_file_uri_path, looks_like_path, looks_like_path_arg,
    normalize_absolute_path, normalized_from, path_text, percent_encode_path, percent_encoded,
    uri_path, uri_refused, ArgumentError, Surroundings,
};
use crate::filesystem_grants::{is_same_mount, mapped, GrantView, HostPathGrant};
use crate::filesystem_permissions::{AccessMode, FilesystemPermission};
use crate::flatpak_metadata::{lemma_pair_texts_push, pair_texts};
use crate::grant_builder::{
    grant_is_safe, grants_are_safe, grants_merge, is_covered, same_mount, was_given, was_writable,
    GrantBuilder, GrantSettings,
};
use crate::order::{
    depth_order, in_order, is_total, lemma_parent_first, lemma_path_order_total, lemma_sorted,
    lemma_sorted_apart, or_else, order_by_depth, order_paths, path_order, sort_by, sorted, Relation,
};
use crate::path::{components, same_path, within, FsPath};
use crate::text::{concat, has_prefix, lemma_texts_push, starts_with, text_eq, texts, views};
use crate::xdg_user_dirs::{xdg_label, xdg_labels, xdg_variable, xdg_variables};
use vstd::prelude::*;
use vstd::utf8::encode_utf8;

verus! {

/// What a sandbox is given of the host's files.
#[derive(Debug)]
pub struct HostFilesystem {
    pub permissions: Vec<FilesystemPermission>,
    pub grants: Vec<HostPathGrant>,
    pub warnings: Vec<String>,
    pub sandbox_home: FsPath,
    pub persistent_paths: Vec<FsPath>,
}

/// Mounts are made from the shallow places to the deep ones.
pub open spec fn grant_order(a: GrantView, b: GrantView) -> Relation {
    or_else(
        depth_order(a.sandbox_path, b.sandbox_path),
        path_order(a.host_path, b.host_path),
    )
}

pub open spec fn grant_le(a: GrantView, b: GrantView) -> bool {
    grant_order(a, b) != Relation::After
}

fn grant_at_most(a: &HostPathGrant, b: &HostPathGrant) -> (r: bool)
    ensures
        r == grant_le(a@, b@),
{
    match order_by_depth(&a.sandbox_path, &b.sandbox_path) {
        Relation::Before => true,
        Relation::After => false,
        Relation::Same => match order_paths(&a.host_path, &b.host_path) {
            Relation::After => false,
            _ => true,
        },
    }
}

/// Where the grants put a host path: the place with the most components counts, and of several
/// such the first.
pub open spec fn best_place(grants: Seq<GrantView>, path: Seq<char>) -> Option<Seq<char>>
    decreases grants.len(),
{
    if grants.len() == 0 {
        None
    } else {
        let before = best_place(grants.drop_last(), path);
        match (before, mapped(grants.last(), path)) {
            (_, None) => before,
            (None, Some(place)) => Some(place),
            (Some(current), Some(place)) => if components(place).len() > components(
                current,
            ).len() {
                Some(place)
            } else {
                before
            },
        }
    }
}

/// What becomes of an argument.
pub ghost enum Translation {
    /// It stands for nothing.
    Dropped,
    /// The sandbox is given this in its place.
    Given(Seq<char>),
    /// It is kept, but names a file that the sandbox does not see.
    Unseen,
    /// It cannot be read.
    Refused,
}

/// What becomes of an argument that names a host path.
pub open spec fn placed(
    grants: Seq<GrantView>,
    arg: Seq<char>,
    path: Option<Seq<char>>,
    current_dir: Option<Seq<char>>,
    as_uri: bool,
) -> Translation {
    match path {
        None => Translation::Refused,
        Some(p) => if is_internal(p) {
            Translation::Given(arg)
        } else {
            match normalized_from(p, current_dir) {
                None => Translation::Refused,
                Some(normal) => match best_place(grants, normal) {
                    None => Translation::Unseen,
                    Some(place) => Translation::Given(
                        if as_uri {
                            "file://"@ + percent_encoded(encode_utf8(place))
                        } else {
                            place
                        },
                    ),
                },
            }
        },
    }
}

/// What becomes of an argument.
pub open spec fn translation(
    grants: Seq<GrantView>,
    arg: Seq<char>,
    home: Option<Seq<char>>,
    current_dir: Option<Seq<char>>,
) -> Translation {
    if is_field_code(arg) {
        Translation::Dropped
    } else if starts_with(arg, "file://"@) {
        placed(
            grants,
            arg,
            match uri_path(arg) {
                Ok(p) => Some(p),
                Err(_) => None,
            },
            current_dir,
            true,
        )
    } else if looks_like_path(arg) {
        placed(grants, arg, arg_path(arg, home, current_dir), current_dir, false)
    } else {
        Translation::Given(arg)
    }
}

/// The arguments that the sandbox is given.
pub open spec fn given_args(
    grants: Seq<GrantView>,
    args: Seq<Seq<char>>,
    home: Option<Seq<char>>,
    current_dir: Option<Seq<char>>,
) -> Seq<Seq<char>>
    decreases args.len(),
{
    if args.len() == 0 {
        Seq::empty()
    } else {
        let before = given_args(grants, args.drop_last(), home, current_dir);
        match translation(grants, args.last(), home, current_dir) {
            Translation::Given(text) => before.push(text),
            Translation::Unseen => before.push(args.last()),
            _ => before,
        }
    }
}

/// The arguments that name files which the sandbox does not see.
pub open spec fn unseen_args(
    grants: Seq<GrantView>,
    args: Seq<Seq<char>>,
    home: Option<Seq<char>>,
    current_dir: Option<Seq<char>>,
) -> Seq<Seq<char>>
    decreases args.len(),
{
    if args.len() == 0 {
        Seq::empty()
    } else {
        let before = unseen_args(grants, args.drop_last(), home, current_dir);
        match translation(grants, args.last(), home, current_dir) {
            Translation::Unseen => before.push(args.last()),
            _ => before,
        }
    }
}

/// The place of the first argument that cannot be read.
pub open spec fn first_refused(
    grants: Seq<GrantView>,
    args: Seq<Seq<char>>,
    home: Option<Seq<char>>,
    current_dir: Option<Seq<char>>,
    i: int,
) -> bool {
    &&& 0 <= i < args.len()
    &&& translation(grants, args[i], home, current_dir) is Refused
    &&& forall|j: int|
        0 <= j < i ==> !(translation(grants, #[trigger] args[j], home, current_dir) is Refused)
}

/// Why an argument cannot be read.
pub open spec fn arg_refused(
    e: ArgumentError,
    arg: Seq<char>,
    home: Option<Seq<char>>,
    current_dir: Option<Seq<char>>,
) -> bool {
    if starts_with(arg, "file://"@) {
        if uri_path(arg) is Err {
            uri_refused(e, arg)
        } else {
            e == ArgumentError::NoNormalizationDirectory && current_dir is None
        }
    } else if starts_with(arg, "~/"@) {
        if home is None {
            e == ArgumentError::HomeUnset
        } else {
            e == ArgumentError::NoNormalizationDirectory && current_dir is None
        }
    } else {
        e == ArgumentError::NoCurrentDirectory && current_dir is None
    }
}

/// Translated arguments.
#[derive(Debug)]
pub struct TranslatedArgs {
    /// What the sandbox is given.
    pub args: Vec<String>,
    /// What names files that the sandbox does not see.
    pub unseen: Vec<String>,
}

/// The first grant under a name.
pub open spec fn labelled(grants: Seq<GrantView>, label: Seq<char>, from: int) -> Option<Seq<char>>
    decreases grants.len() - from,
{
    if from >= grants.len() {
        None
    } else if grants[from].label == label {
        Some(grants[from].sandbox_path)
    } else {
        labelled(grants, label, from + 1)
    }
}

/// The variables for those of the first `n` directories that are granted.
pub open spec fn dir_variables(grants: Seq<GrantView>, n: int) -> Seq<(Seq<char>, Seq<char>)>
    decreases n,
{
    if n <= 0 {
        Seq::empty()
    } else {
        let before = dir_variables(grants, n - 1);
        match labelled(grants, xdg_labels()[n - 1], 0) {
            Some(path) => before.push((xdg_variables()[n - 1], path)),
            None => before,
        }
    }
}

/// The order in which the configuration lists the directories.
pub open spec fn listed_order() -> Seq<int> {
    seq![0, 2, 6, 5, 1, 3, 4, 7]
}

/// The configuration of the user's directories for a sandbox: those that are granted.
pub open spec fn dirs_config(grants: Seq<GrantView>, n: int) -> Seq<char>
    decreases n,
{
    if n <= 0 {
        "# Generated by freebsd-flatpak-poc for this sandbox root.\n"@
    } else {
        let before = dirs_config(grants, n - 1);
        let place = listed_order()[n - 1];
        match labelled(grants, xdg_labels()[place], 0) {
            Some(path) => before + xdg_variables()[place] + "=\""@ + path + "\"\n"@,
            None => before,
        }
    }
}

fn listed_place(i: usize) -> (r: usize)
    requires
        i < 8,
    ensures
        r == listed_order()[i as int],
        r < 8,
{
    if i == 0 {
        0
    } else if i == 1 {
        2
    } else if i == 2 {
        6
    } else if i == 3 {
        5
    } else if i == 4 {
        1
    } else if i == 5 {
        3
    } else if i == 6 {
        4
    } else {
        7
    }
}

enum Placed {
    Given(String),
    Unseen,
}

impl HostFilesystem {
    /// What the builder has made once nothing is left to ask.
    pub fn from_builder(builder: GrantBuilder, persistent_paths: Vec<FsPath>) -> (r: HostFilesystem)
        requires
            builder.wf(),
        ensures
            views(r.grants@) == sorted(
                builder@.grants,
                |a: GrantView, b: GrantView| grant_le(a, b),
            ),
            in_order(views(r.grants@), |a: GrantView, b: GrantView| grant_le(a, b)),
            grants_are_safe(builder.settings, views(r.grants@)),
            grants_merge(builder@.given, views(r.grants@)),
            r.permissions@ == builder.permissions@,
            texts(r.warnings@) == builder@.warnings,
            r.sandbox_home@ == builder.settings.home@,
            r.persistent_paths@ == persistent_paths@,
    {
        proof {
            lemma_finished_grants(builder.settings, builder@.given, builder@.grants);
        }
        let grants = sort_by(
            builder.grants,
            grant_at_most,
            Ghost(|a: GrantView, b: GrantView| grant_le(a, b)),
        );
        HostFilesystem {
            permissions: builder.permissions,
            grants,
            warnings: builder.warnings,
            sandbox_home: builder.settings.home,
            persistent_paths,
        }
    }

    pub fn permissions(&self) -> (r: &[FilesystemPermission])
        ensures
            r@ == self.permissions@,
    {
        self.permissions.as_slice()
    }

    pub fn grants(&self) -> (r: &[HostPathGrant])
        ensures
            r@ == self.grants@,
    {
        self.grants.as_slice()
    }

    pub fn warnings(&self) -> (r: &[String])
        ensures
            r@ == self.warnings@,
    {
        self.warnings.as_slice()
    }

    pub fn sandbox_home(&self) -> (r: &FsPath)
        ensures
            r@ == self.sandbox_home@,
    {
        &self.sandbox_home
    }

    pub fn persistent_paths(&self) -> (r: &[FsPath])
        ensures
            r@ == self.persistent_paths@,
    {
        self.persistent_paths.as_slice()
    }

    /// The arguments as the sandbox is to be given them.
    pub fn translate_args(&self, args: &[String], around: &Surroundings) -> (r: Result<
        TranslatedArgs,
        ArgumentError,
    >)
        ensures
            match r {
                Ok(out) => {
                    &&& forall|i: int|
                        0 <= i < args@.len() ==> !(translation(
                            views(self.grants@),
                            #[trigger] texts(args@)[i],
                            path_text(around.home),
                            path_text(around.current_dir),
                        ) is Refused)
                    &&& texts(out.args@) == given_args(
                        views(self.grants@),
                        texts(args@),
                        path_text(around.home),
                        path_text(around.current_dir),
                    )
                    &&& texts(out.unseen@) == unseen_args(
                        views(self.grants@),
                        texts(args@),
                        path_text(around.home),
                        path_text(around.current_dir),
                    )
                },
                Err(e) => exists|i: int| #[trigger]
                    first_refused(
                        views(self.grants@),
                        texts(args@),
                        path_text(around.home),
                        path_text(around.current_dir),
                        i,
                    ) && arg_refused(
                        e,
                        texts(args@)[i],
                        path_text(around.home),
                        path_text(around.current_dir),
                    ),
            },
    {
        let ghost all = texts(args@);
        let ghost grants = views(self.grants@);
        let ghost home = path_text(around.home);
        let ghost dir = path_text(around.current_dir);
        let mut out: Vec<String> = Vec::new();
        let mut unseen: Vec<String> = Vec::new();
        let mut i: usize = 0;
        assert(texts(out@) =~= given_args(grants, all.take(0), home, dir));
        assert(texts(unseen@) =~= unseen_args(grants, all.take(0), home, dir));
        while i < args.len()
            invariant
                i <= args@.len(),
                all == texts(args@),
                grants == views(self.grants@),
                home == path_text(around.home),
                dir == path_text(around.current_dir),
                texts(out@) == given_args(grants, all.take(i as int), home, dir),
                texts(unseen@) == unseen_args(grants, all.take(i as int), home, dir),
                forall|j: int|
                    0 <= j < i ==> !(translation(grants, #[trigger] all[j], home, dir) is Refused),
            decreases args@.len() - i,
        {
            proof {
                let next = all.take(i + 1);
                assert(next.drop_last() =~= all.take(i as int));
                assert(next.last() == args@[i as int]@);
                assert(all[i as int] == args@[i as int]@);
            }
            let arg = &args[i];
            if !is_standalone_desktop_field_code(arg) {
                let placed_arg = if has_prefix(arg, "file://") {
                    self.translate_file_uri(arg, around)
                } else if looks_like_path_arg(arg) {
                    self.translate_path_arg(arg, around)
                } else {
                    Ok(Placed::Given(arg.clone()))
                };
                match placed_arg {
                    Ok(Placed::Given(text)) => {
                        proof {
                            lemma_texts_push(out@, text);
                        }
                        out.push(text);
                    },
                    Ok(Placed::Unseen) => {
                        let kept = arg.clone();
                        let listed = arg.clone();
                        proof {
                            lemma_texts_push(out@, kept);
                            lemma_texts_push(unseen@, listed);
                        }
                        out.push(kept);
                        unseen.push(listed);
                    },
                    Err(e) => {
                        assert(first_refused(grants, all, home, dir, i as int));
                        return Err(e);
                    },
                }
            }
            i += 1;
        }
        assert(all.take(i as int) =~= all);
        Ok(TranslatedArgs { args: out, unseen })
    }

    fn translate_file_uri(&self, arg: &str, around: &Surroundings) -> (r: Result<
        Placed,
        ArgumentError,
    >)
        requires
            starts_with(arg@, "file://"@),
        ensures
            match placed(
                views(self.grants@),
                arg@,
                match uri_path(arg@) {
                    Ok(p) => Some(p),
                    Err(_) => None,
                },
                path_text(around.current_dir),
                true,
            ) {
                Translation::Given(text) => r matches Ok(Placed::Given(got)) && got@ == text,
                Translation::Unseen => r matches Ok(Placed::Unseen),
                Translation::Refused => r matches Err(e) && arg_refused(
                    e,
                    arg@,
                    path_text(around.home),
                    path_text(around.current_dir),
                ),
                Translation::Dropped => false,
            },
    {
        let host_path = match local_file_uri_path(arg) {
            Ok(path) => path,
            Err(e) => {
                return Err(e);
            },
        };
        if is_sandbox_internal_path(&host_path) {
            return Ok(Placed::Given(arg.to_owned()));
        }
        match self.map_host_path(&host_path, around) {
            Ok(Some(place)) => {
                let encoded = percent_encode_path(&place);
                Ok(Placed::Given(concat("file://", &encoded)))
            },
            Ok(None) => Ok(Placed::Unseen),
            Err(e) => Err(e),
        }
    }

    fn translate_path_arg(&self, arg: &str, around: &Surroundings) -> (r: Result<
        Placed,
        ArgumentError,
    >)
        requires
            !starts_with(arg@, "file://"@),
        ensures
            match placed(
                views(self.grants@),
                arg@,
                arg_path(arg@, path_text(around.home), path_text(around.current_dir)),
                path_text(around.current_dir),
                false,
            ) {
                Translation::Given(text) => r matches Ok(Placed::Given(got)) && got@ == text,
                Translation::Unseen => r matches Ok(Placed::Unseen),
                Translation::Refused => r matches Err(e) && arg_refused(
                    e,
                    arg@,
                    path_text(around.home),
                    path_text(around.current_dir),
                ),
                Translation::Dropped => false,
            },
    {
        let host_path = match host_path_from_arg(arg, around) {
            Ok(path) => path,
            Err(e) => {
                return Err(e);
            },
        };
        if is_sandbox_internal_path(&host_path) {
            return Ok(Placed::Given(arg.to_owned()));
        }
        match self.map_host_path(&host_path, around) {
            Ok(Some(place)) => Ok(Placed::Given(place.text)),
            Ok(None) => Ok(Placed::Unseen),
            Err(e) => Err(e),
        }
    }

    /// Where the grants put a host path.
    pub fn map_host_path(&self, host_path: &FsPath, around: &Surroundings) -> (r: Result<
        Option<FsPath>,
        ArgumentError,
    >)
        ensures
            match normalized_from(host_path@, path_text(around.current_dir)) {
                None => r matches Err(e) && e == ArgumentError::NoNormalizationDirectory
                    && around.current_dir is None,
                Some(normal) => r matches Ok(place) && path_text(place) == best_place(
                    views(self.grants@),
                    normal,
                ),
            },
    {
        let normal = match normalize_absolute_path(host_path, around) {
            Ok(path) => path,
            Err(e) => {
                return Err(e);
            },
        };
        let ghost all = views(self.grants@);
        let mut best: Option<FsPath> = None;
        let mut i: usize = 0;
        while i < self.grants.len()
            invariant
                i <= self.grants@.len(),
                all == views(self.grants@),
                path_text(best) == best_place(all.take(i as int), normal@),
            decreases self.grants@.len() - i,
        {
            proof {
                let next = all.take(i + 1);
                assert(next.drop_last() =~= all.take(i as int));
                assert(next.last() == self.grants@[i as int]@);
            }
            if let Some(place) = self.grants[i].map_host_path(&normal) {
                let replace = match &best {
                    Some(current) => place.depth() > current.depth(),
                    None => true,
                };
                if replace {
                    best = Some(place);
                }
            }
            i += 1;
        }
        assert(all.take(i as int) =~= all);
        Ok(best)
    }

    /// The place of the first grant under a name.
    fn sandbox_dir_for_label(&self, label: &str) -> (r: Option<FsPath>)
        ensures
            path_text(r) == labelled(views(self.grants@), label@, 0),
    {
        let ghost all = views(self.grants@);
        let mut i: usize = 0;
        while i < self.grants.len()
            invariant
                i <= self.grants@.len(),
                all == views(self.grants@),
                labelled(all, label@, 0) == labelled(all, label@, i as int),
            decreases self.grants@.len() - i,
        {
            assert(all[i as int] == self.grants@[i as int]@);
            if text_eq(&self.grants[i].label, label) {
                return Some(self.grants[i].sandbox_path.clone());
            }
            i += 1;
        }
        assert(all.len() == self.grants@.len());
        None
    }

    /// The variables for the user's directories that are granted.
    pub fn user_dir_env(&self) -> (r: Vec<(String, String)>)
        ensures
            pair_texts(r@) == dir_variables(views(self.grants@), 8),
    {
        let ghost all = views(self.grants@);
        let mut out: Vec<(String, String)> = Vec::new();
        let mut i: usize = 0;
        assert(pair_texts(out@) =~= dir_variables(all, 0));
        while i < 8
            invariant
                i <= 8,
                all == views(self.grants@),
                pair_texts(out@) == dir_variables(all, i as int),
            decreases 8 - i,
        {
            if let Some(path) = self.sandbox_dir_for_label(xdg_label(i)) {
                let pair = (xdg_variable(i).to_owned(), path.text);
                proof {
                    lemma_pair_texts_push(out@, pair);
                }
                out.push(pair);
            }
            i += 1;
        }
        out
    }

    /// The configuration of the user's directories for the sandbox.
    pub fn xdg_user_dirs_config(&self) -> (r: String)
        ensures
            r@ == dirs_config(views(self.grants@), 8),
    {
        let ghost all = views(self.grants@);
        let mut out = "# Generated by freebsd-flatpak-poc for this sandbox root.\n".to_owned();
        let mut i: usize = 0;
        while i < 8
            invariant
                i <= 8,
                all == views(self.grants@),
                out@ == dirs_config(all, i as int),
            decreases 8 - i,
        {
            let place: usize = listed_place(i);
            if let Some(path) = self.sandbox_dir_for_label(xdg_label(place)) {
                out.append(xdg_variable(place));
                out.append("=\"");
                out.append(path.as_str());
                out.append("\"\n");
            }
            i += 1;
        }
        out
    }

    /// The home directory that the sandbox is told: its own where the host's is granted.
    pub fn sandbox_home_env(&self, fallback: &str) -> (r: String)
        ensures
            r@ == (if exists|i: int|
                0 <= i < self.grants@.len() && shows_home(
                    (#[trigger] self.grants@[i])@,
                    self.sandbox_home@,
                ) {
                self.sandbox_home@
            } else {
                fallback@
            }),
    {
        let mut i: usize = 0;
        while i < self.grants.len()
            invariant
                i <= self.grants@.len(),
                forall|j: int|
                    0 <= j < i ==> !shows_home((#[trigger] self.grants@[j])@, self.sandbox_home@),
            decreases self.grants@.len() - i,
        {
            let grant = &self.grants[i];
            if grant.sandbox_path.same_as(&self.sandbox_home) || (grant.sandbox_path.starts_with(
                &self.sandbox_home,
            ) && (text_eq(&grant.label, "home") || text_eq(&grant.source_permission, "host"))) {
                return self.sandbox_home.text.clone();
            }
            i += 1;
        }
        fallback.to_owned()
    }
}

/// Whether a grant is the home directory, or a part of it that stands for the whole.
pub open spec fn shows_home(grant: GrantView, home: Seq<char>) -> bool {
    same_path(grant.sandbox_path, home) || (within(grant.sandbox_path, home) && (grant.label
        == "home"@ || grant.source_permission == "host"@))
}

/// The order of grants is total.
pub proof fn lemma_grant_order_total()
    ensures
        is_total(|a: GrantView, b: GrantView| grant_le(a, b)),
{
    reveal(is_total);
    let f = |a: GrantView, b: GrantView| grant_le(a, b);
    assert forall|a: GrantView, b: GrantView| #[trigger] f(a, b) || f(b, a) by {
        lemma_path_order_total(a.sandbox_path, b.sandbox_path, b.sandbox_path);
        lemma_path_order_total(a.host_path, b.host_path, b.host_path);
    }
    assert forall|a: GrantView, b: GrantView, c: GrantView| #[trigger] f(a, b) && #[trigger] f(
        b,
        c,
    ) implies f(a, c) by {
        lemma_path_order_total(a.sandbox_path, b.sandbox_path, c.sandbox_path);
        lemma_path_order_total(b.sandbox_path, c.sandbox_path, c.sandbox_path);
        lemma_path_order_total(a.sandbox_path, c.sandbox_path, c.sandbox_path);
        lemma_path_order_total(a.host_path, b.host_path, c.host_path);
        lemma_path_order_total(b.host_path, c.host_path, c.host_path);
        lemma_path_order_total(a.host_path, c.host_path, c.host_path);
    }
}

/// Putting grants in order keeps them safe and apart, and leaves their access as it was.
pub proof fn lemma_finished_grants(
    settings: GrantSettings,
    given: Seq<GrantView>,
    grants: Seq<GrantView>,
)
    requires
        grants_are_safe(settings, grants),
        grants_merge(given, grants),
    ensures
        ({
            let s = sorted(grants, |a: GrantView, b: GrantView| grant_le(a, b));
            &&& in_order(s, |a: GrantView, b: GrantView| grant_le(a, b))
            &&& grants_are_safe(settings, s)
            &&& grants_merge(given, s)
        }),
{
    broadcast use vstd::seq_lib::group_to_multiset_ensures;

    let le = |a: GrantView, b: GrantView| grant_le(a, b);
    let same = |a: GrantView, b: GrantView| same_mount(a, b);
    let s = sorted(grants, le);
    lemma_grant_order_total();
    lemma_sorted(grants, le);
    assert forall|i: int, j: int|
        #![trigger grants[i], grants[j]]
        0 <= i < grants.len() && 0 <= j < grants.len() implies (same(grants[i], grants[j])
        ==> same(grants[j], grants[i])) && (i < j ==> !same(grants[i], grants[j])) by {
        assert(grant_is_safe(settings, grants[i]) && grant_is_safe(settings, grants[j]));
    }
    lemma_sorted_apart(grants, le, same);
    assert forall|i: int| 0 <= i < s.len() implies grant_is_safe(settings, #[trigger] s[i])
        && was_given(given, s[i]) && (s[i].access == AccessMode::ReadWrite <==> was_writable(
        given,
        s[i],
    )) by {
        assert(grants.contains(s[i]));
        let k = choose|k: int| 0 <= k < grants.len() && grants[k] == s[i];
        assert(was_given(given, grants[k]));
        assert(was_writable(given, grants[k]) <==> grants[k].access == AccessMode::ReadWrite);
    }
    assert forall|i: int, j: int|
        #![trigger s[i], s[j]]
        0 <= i < j < s.len() implies !is_same_mount(
        s[i],
        s[j].host_path,
        s[j].sandbox_path,
    ) by {
        assert(!same(s[i], s[j]));
    }
    assert forall|k: int| 0 <= k < given.len() implies #[trigger] is_covered(given, s, k) by {
        assert(is_covered(given, grants, k));
        let i = choose|i: int| 0 <= i < grants.len() && same_mount(#[trigger] grants[i], given[k]);
        assert(grants.contains(grants[i]));
        assert(s.to_multiset().count(grants[i]) > 0);
        assert(s.contains(grants[i]));
        let m = choose|m: int| 0 <= m < s.len() && s[m] == grants[i];
        assert(same_mount(s[m], given[k]));
    }
}

/// Of two grants, the one whose place contains the other's place is mounted first.
pub proof fn lemma_parents_mounted_first(grants: Seq<GrantView>, i: int, j: int)
    requires
        0 <= i < grants.len(),
        0 <= j < grants.len(),
        within(
            sorted(grants, |a: GrantView, b: GrantView| grant_le(a, b))[j].sandbox_path,
            sorted(grants, |a: GrantView, b: GrantView| grant_le(a, b))[i].sandbox_path,
        ),
        !same_path(
            sorted(grants, |a: GrantView, b: GrantView| grant_le(a, b))[j].sandbox_path,
            sorted(grants, |a: GrantView, b: GrantView| grant_le(a, b))[i].sandbox_path,
        ),
    ensures
        i < j,
{
    let le = |a: GrantView, b: GrantView| grant_le(a, b);
    let s = sorted(grants, le);
    lemma_grant_order_total();
    lemma_sorted(grants, le);
    if j <= i {
        assert(le(s[j], s[i]));
        lemma_parent_first(s[i].sandbox_path, s[j].sandbox_path);
        lemma_path_order_total(s[i].sandbox_path, s[j].sandbox_path, s[j].sandbox_path);
    }
}

/// A host path is put at the deepest place that a grant gives it, and is put nowhere only if no
/// grant gives it a place.
pub proof fn lemma_best_place(grants: Seq<GrantView>, path: Seq<char>, i: int)
    requires
        0 <= i < grants.len(),
    ensures
        mapped(grants[i], path) matches Some(place) ==> best_place(grants, path) matches Some(best)
            && components(place).len() <= components(best).len(),
        best_place(grants, path) matches Some(best) ==> exists|k: int|
            0 <= k < grants.len() && mapped(#[trigger] grants[k], path) == Some(best),
    decreases grants.len(),
{
    let head = grants.drop_last();
    if i < head.len() {
        lemma_best_place(head, path, i);
        assert(head[i] == grants[i]);
    } else if head.len() > 0 {
        lemma_best_place(head, path, 0);
    }
    if let Some(best) = best_place(grants, path) {
        if best_place(head, path) == Some(best) {
            let k = choose|k: int|
                0 <= k < head.len() && mapped(#[trigger] head[k], path) == Some(best);
            assert(grants[k] == head[k]);
        } else {
            assert(mapped(grants[grants.len() - 1], path) == Some(best));
        }
    }
}

} // verus!
