//! The command that an application is started with, and the users and groups it is started for.

use crate::flatpak_metadata::{contains_text, value, value_of};
use crate::numbers::{bounded_value, decimal, parse_u32, render_u64};
use crate::path::{joined, FsPath};
use crate::text::{
    chars_of, concat, debug_quoted, debug_text, has_prefix, join, join_texts, lemma_texts_push,
    split, split_text, split_words, starts_with, strip_prefix, text_eq, texts, trim, trim_text,
    words,
};
use vstd::prelude::*;

verus! {

/// An application that is about to be started.
#[derive(Debug)]
pub struct FlatpakApp {
    pub app_id: String,
    pub app_dir: FsPath,
    pub runtime_ref: String,
    pub runtime_dir: FsPath,
    pub command: String,
    pub args: Vec<String>,
}

/// How it is told that a text is no numeric id; `shown` is the quoted text.
pub fn invalid_id_message(shown: &str) -> (r: String)
    ensures
        r@ == "parse numeric id from "@ + shown@,
{
    concat("parse numeric id from ", shown)
}

#[derive(Debug)]
pub enum EntryError {
    /// The command is an absolute path outside of `/app`.
    OutsideApp(String),
    /// The deployment does not hold the command.
    Missing(FsPath),
    /// A text that should be a numeric id.
    InvalidId(String),
}

impl EntryError {
    pub open spec fn spec_message(self) -> Seq<char> {
        match self {
            EntryError::OutsideApp(path) => "entry path must be inside /app: "@ + path@,
            EntryError::Missing(path) => "entry executable does not exist: "@ + path@,
            EntryError::InvalidId(text) => "parse numeric id from "@ + debug_text(text@),
        }
    }

    pub fn message(&self) -> (r: String)
        ensures
            r@ == self.spec_message(),
    {
        match self {
            EntryError::OutsideApp(path) => concat("entry path must be inside /app: ", path),
            EntryError::Missing(path) => concat(
                "entry executable does not exist: ",
                path.as_str(),
            ),
            EntryError::InvalidId(text) => {
                let shown = debug_quoted(text);
                invalid_id_message(&shown)
            },
        }
    }
}

/// Whether an argument chooses the display platform.
pub open spec fn chooses_platform(arg: Seq<char>) -> bool {
    arg == "--ozone-platform"@ || starts_with(arg, "--ozone-platform="@)
}

/// Whether any argument chooses the display platform.
pub open spec fn platform_chosen(args: Seq<Seq<char>>) -> bool {
    exists|i: int| 0 <= i < args.len() && chooses_platform(#[trigger] args[i])
}

/// Whether an application is built on the Electron base.
pub open spec fn electron_based(metadata: Seq<char>) -> bool {
    match value_of(metadata, "Application"@, "base"@) {
        Some(base) => starts_with(base, "app/org.electronjs.Electron2.BaseApp/"@),
        None => false,
    }
}

/// Whether an application asks for a socket.
pub open spec fn socket_requested(metadata: Seq<char>, socket: Seq<char>) -> bool {
    match value_of(metadata, "Context"@, "sockets"@) {
        Some(sockets) => split(sockets, ';').contains(socket),
        None => false,
    }
}

/// The arguments put before those of the user.
pub open spec fn added_args(metadata: Seq<char>, args: Seq<Seq<char>>) -> Seq<Seq<char>> {
    if !platform_chosen(args) && electron_based(metadata) && socket_requested(
        metadata,
        "wayland"@,
    ) {
        seq!["--ozone-platform=wayland"@]
    } else {
        Seq::empty()
    }
}

fn app_uses_electron_base(metadata: &str) -> (r: bool)
    ensures
        r == electron_based(metadata@),
{
    match value(metadata, "Application", "base") {
        Some(base) => has_prefix(&base, "app/org.electronjs.Electron2.BaseApp/"),
        None => false,
    }
}

/// Whether an application asks for a socket of the host.
pub fn app_requests_socket(metadata: &str, socket: &str) -> (r: bool)
    ensures
        r == socket_requested(metadata@, socket@),
{
    match value(metadata, "Context", "sockets") {
        Some(sockets) => {
            let pieces = split_text(&sockets, ';');
            contains_text(pieces.as_slice(), socket)
        },
        None => false,
    }
}

/// Whether the arguments of an application choose the platform that its windows are drawn on.
pub fn has_ozone_platform_arg(args: &[String]) -> (r: bool)
    ensures
        r == platform_chosen(texts(args@)),
{
    let ghost all = texts(args@);
    let mut i: usize = 0;
    while i < args.len()
        invariant
            i <= args@.len(),
            all == texts(args@),
            forall|j: int| 0 <= j < i ==> !chooses_platform(#[trigger] all[j]),
        decreases args@.len() - i,
    {
        assert(all[i as int] == args@[i as int]@);
        if text_eq(&args[i], "--ozone-platform") || has_prefix(&args[i], "--ozone-platform=") {
            return true;
        }
        i += 1;
    }
    false
}

/// The arguments that an application needs in order to run on Wayland.
pub fn compatibility_args(metadata: &str, translated_args: &[String]) -> (r: Vec<String>)
    ensures
        texts(r@) == added_args(metadata@, texts(translated_args@)),
{
    let mut out: Vec<String> = Vec::new();
    if !has_ozone_platform_arg(translated_args) && app_uses_electron_base(metadata)
        && app_requests_socket(metadata, "wayland") {
        out.push("--ozone-platform=wayland".to_string());
    }
    assert(texts(out@) =~= added_args(metadata@, texts(translated_args@)));
    out
}

/// The arguments that an application is started with.
pub fn launch_args(metadata: &str, translated_args: &[String]) -> (r: Vec<String>)
    ensures
        texts(r@) == added_args(metadata@, texts(translated_args@)) + texts(translated_args@),
{
    let mut out = compatibility_args(metadata, translated_args);
    push_texts(&mut out, translated_args);
    out
}

/// The texts added at the end of a list.
pub fn push_texts(out: &mut Vec<String>, more: &[String])
    ensures
        texts(final(out)@) == texts(old(out)@) + texts(more@),
{
    let ghost start = texts(out@);
    let ghost all = texts(more@);
    let mut i: usize = 0;
    assert(start + all.take(0) =~= start);
    while i < more.len()
        invariant
            i <= more@.len(),
            all == texts(more@),
            texts(out@) == start + all.take(i as int),
        decreases more@.len() - i,
    {
        let text = more[i].clone();
        let ghost before = out@;
        proof {
            lemma_texts_push(before, text);
            assert(all[i as int] == more@[i as int]@);
            assert((start + all.take(i as int)).push(text@) =~= start + all.take(i + 1));
        }
        out.push(text);
        i += 1;
    }
    assert(all.take(i as int) =~= all);
}

/// The path of a command inside of the sandbox.
pub open spec fn entry_path(command: Seq<char>) -> Seq<char> {
    if starts_with(command, "/"@) {
        command
    } else {
        "/app/bin/"@ + command
    }
}

/// Where the deployment holds what the sandbox shows under a path.
pub open spec fn app_path(app_files: Seq<char>, path: Seq<char>) -> Option<Seq<char>> {
    if starts_with(path, "/app/"@) {
        Some(joined(app_files, path.skip(5)))
    } else if starts_with(path, "/"@) {
        None
    } else {
        Some(joined(joined(app_files, "bin"@), path))
    }
}

/// The resolved command of an application.
#[derive(Debug)]
pub struct EntryLaunch {
    pub chroot_path: String,
}

impl EntryLaunch {
    /// The command line as it is shown to the user.
    pub fn display(&self, args: &[String]) -> (r: String)
        ensures
            r@ == join(seq![self.chroot_path@] + texts(args@), " "@),
    {
        let all = self.command_args(args);
        join_texts(all.as_slice(), " ")
    }

    /// The command and its arguments. The program is named by its own path, and not run through
    /// the loader, so that it finds the files beside it.
    pub fn command_args(&self, args: &[String]) -> (r: Vec<String>)
        ensures
            texts(r@) == seq![self.chroot_path@] + texts(args@),
    {
        let mut out: Vec<String> = Vec::new();
        out.push(self.chroot_path.clone());
        assert(texts(out@) =~= seq![self.chroot_path@]);
        push_texts(&mut out, args);
        out
    }
}

fn chroot_entry_path(command: &str) -> (r: String)
    ensures
        r@ == entry_path(command@),
{
    if has_prefix(command, "/") {
        command.to_string()
    } else {
        concat("/app/bin/", command)
    }
}

/// Where the deployment holds what the sandbox shows under a path.
pub fn host_app_path(app_files: &FsPath, chroot_path: &str) -> (r: Result<FsPath, EntryError>)
    ensures
        match r {
            Ok(path) => app_path(app_files@, chroot_path@) == Some(path@),
            Err(error) => app_path(app_files@, chroot_path@) is None && (error matches
                EntryError::OutsideApp(path) && path@ == chroot_path@),
        },
{
    proof {
        reveal_strlit("/app/");
    }
    match strip_prefix(chroot_path, "/app/") {
        Some(relative) => Ok(app_files.join(&relative)),
        None => if has_prefix(chroot_path, "/") {
            Err(EntryError::OutsideApp(chroot_path.to_string()))
        } else {
            Ok(app_files.join("bin").join(chroot_path))
        },
    }
}

/// The file whose presence decides whether the application can be started.
pub open spec fn entry_file(app_dir: Seq<char>, command: Seq<char>) -> Option<Seq<char>> {
    app_path(joined(app_dir, "files"@), entry_path(command))
}

/// The file whose presence decides whether the application can be started.
pub fn host_entry(app: &FlatpakApp) -> (r: Result<FsPath, EntryError>)
    ensures
        match r {
            Ok(path) => entry_file(app.app_dir@, app.command@) == Some(path@),
            Err(error) => entry_file(app.app_dir@, app.command@) is None && (error matches
                EntryError::OutsideApp(path) && path@ == entry_path(app.command@)),
        },
{
    let app_files = app.app_dir.join("files");
    let chroot_path = chroot_entry_path(&app.command);
    host_app_path(&app_files, &chroot_path)
}

/// The command of an application; `entry_exists` tells of the file that `host_entry` names whether
/// it is there.
pub fn resolve_entry(app: &FlatpakApp, entry_exists: bool) -> (r: Result<EntryLaunch, EntryError>)
    ensures
        match r {
            Ok(entry) => entry_file(app.app_dir@, app.command@) is Some && entry_exists
                && entry.chroot_path@ == entry_path(app.command@),
            Err(EntryError::OutsideApp(path)) => entry_file(app.app_dir@, app.command@) is None
                && path@ == entry_path(app.command@),
            Err(EntryError::Missing(path)) => entry_file(app.app_dir@, app.command@) == Some(path@)
                && !entry_exists,
            Err(EntryError::InvalidId(_)) => false,
        },
{
    let path = host_entry(app)?;
    if !entry_exists {
        return Err(EntryError::Missing(path));
    }
    Ok(EntryLaunch { chroot_path: chroot_entry_path(&app.command) })
}

/// Whether a character may stand in the name of a sandbox.
pub open spec fn is_name_char(c: char) -> bool {
    'a' <= c <= 'z' || 'A' <= c <= 'Z' || '0' <= c <= '9' || c == '.' || c == '-' || c == '_'
}

/// The name of the directory that holds the sandboxes of an application.
pub open spec fn sandbox_name_of(app_id: Seq<char>) -> Seq<char> {
    Seq::new(
        app_id.len(),
        |i: int|
            if is_name_char(app_id[i]) {
                app_id[i]
            } else {
                '_'
            },
    )
}

/// The name of the directory that holds the sandboxes of an application.
pub fn sandbox_name(app_id: &str) -> (r: String)
    ensures
        r@ == sandbox_name_of(app_id@),
{
    let chars = chars_of(app_id);
    let mut out = String::new();
    let mut i: usize = 0;
    while i < chars.len()
        invariant
            i <= chars@.len(),
            chars@ == app_id@,
            out@ == sandbox_name_of(app_id@).take(i as int),
        decreases chars@.len() - i,
    {
        let c = chars[i];
        if ('a' <= c && c <= 'z') || ('A' <= c && c <= 'Z') || ('0' <= c && c <= '9') || c == '.'
            || c == '-' || c == '_' {
            out.push(c);
        } else {
            out.push('_');
        }
        i += 1;
        assert(out@ =~= sandbox_name_of(app_id@).take(i as int));
    }
    assert(out@ =~= sandbox_name_of(app_id@));
    out
}

/// The name of a sandbox directory is one component, and naming it again changes nothing.
pub proof fn lemma_sandbox_name(app_id: Seq<char>)
    ensures
        !sandbox_name_of(app_id).contains('/'),
        sandbox_name_of(sandbox_name_of(app_id)) == sandbox_name_of(app_id),
        (forall|i: int| 0 <= i < app_id.len() ==> is_name_char(#[trigger] app_id[i]))
            ==> sandbox_name_of(app_id) == app_id,
{
    assert(sandbox_name_of(sandbox_name_of(app_id)) =~= sandbox_name_of(app_id));
    if forall|i: int| 0 <= i < app_id.len() ==> is_name_char(#[trigger] app_id[i]) {
        assert(sandbox_name_of(app_id) =~= app_id);
    }
}

/// The id that a program has printed.
pub fn numeric_id(output: &str) -> (r: Result<u32, EntryError>)
    ensures
        match r {
            Ok(id) => bounded_value(trim(output@), u32::MAX as nat) == Some(id as nat),
            Err(error) => bounded_value(trim(output@), u32::MAX as nat) is None && (error matches
                EntryError::InvalidId(text) && text@ == trim(output@)),
        },
{
    let text = trim_text(output);
    match parse_u32(&text) {
        Some(id) => Ok(id),
        None => Err(EntryError::InvalidId(text)),
    }
}

/// The ids that the words stand for, up to the first that is none.
pub open spec fn id_values(parts: Seq<Seq<char>>) -> Result<Seq<nat>, Seq<char>>
    decreases parts.len(),
{
    if parts.len() == 0 {
        Ok(Seq::empty())
    } else {
        match id_values(parts.drop_last()) {
            Err(text) => Err(text),
            Ok(before) => match bounded_value(parts.last(), u32::MAX as nat) {
                Some(id) => Ok(before.push(id)),
                None => Err(parts.last()),
            },
        }
    }
}

proof fn lemma_id_values_refused(parts: Seq<Seq<char>>, n: int)
    requires
        0 <= n <= parts.len(),
        id_values(parts.take(n)) is Err,
    ensures
        id_values(parts) == id_values(parts.take(n)),
    decreases parts.len(),
{
    if n == parts.len() {
        assert(parts.take(n) =~= parts);
    } else {
        assert(parts.drop_last().take(n) =~= parts.take(n));
        lemma_id_values_refused(parts.drop_last(), n);
    }
}

/// The ids as mathematical numbers.
pub open spec fn id_numbers(ids: Seq<u32>) -> Seq<nat> {
    Seq::new(ids.len(), |i: int| ids[i] as nat)
}

/// The ids that a program has printed between white space.
pub fn numeric_ids(output: &str) -> (r: Result<Vec<u32>, EntryError>)
    ensures
        match r {
            Ok(ids) => id_values(words(output@)) == Ok::<Seq<nat>, Seq<char>>(id_numbers(ids@)),
            Err(error) => error matches EntryError::InvalidId(text) && id_values(words(output@))
                == Err::<Seq<nat>, Seq<char>>(text@),
        },
{
    let parts = split_words(output);
    let ghost all = words(output@);
    let mut out: Vec<u32> = Vec::new();
    let mut i: usize = 0;
    assert(all.take(0) =~= Seq::<Seq<char>>::empty());
    assert(id_numbers(out@) =~= Seq::<nat>::empty());
    while i < parts.len()
        invariant
            i <= parts@.len(),
            all == texts(parts@),
            all == words(output@),
            id_values(all.take(i as int)) == Ok::<Seq<nat>, Seq<char>>(id_numbers(out@)),
        decreases parts@.len() - i,
    {
        let ghost next = all.take(i + 1);
        assert(next.drop_last() =~= all.take(i as int));
        assert(next.last() == parts@[i as int]@);
        match parse_u32(&parts[i]) {
            Some(id) => {
                assert(id_numbers(out@.push(id)) =~= id_numbers(out@).push(id as nat));
                out.push(id);
            },
            None => {
                let text = parts[i].clone();
                proof {
                    lemma_id_values_refused(all, i + 1);
                }
                return Err(EntryError::InvalidId(text));
            },
        }
        i += 1;
    }
    assert(all.take(i as int) =~= all);
    Ok(out)
}

/// The user that an application runs for: the one the environment names, else the number.
pub fn host_user(user: Option<String>, uid: u32) -> (r: String)
    ensures
        r@ == (match user {
            Some(name) => name@,
            None => decimal(uid as nat),
        }),
{
    match user {
        Some(name) => name,
        None => render_u64(uid as u64),
    }
}

/// The numbers in decimal digits.
pub open spec fn decimals(ids: Seq<u32>) -> Seq<Seq<char>> {
    Seq::new(ids.len(), |i: int| decimal(ids[i] as nat))
}

/// The ids as one argument, with commas between them.
pub fn join_numeric_ids(ids: &[u32]) -> (r: String)
    ensures
        r@ == join(decimals(ids@), ","@),
{
    let mut parts: Vec<String> = Vec::new();
    let mut i: usize = 0;
    assert(texts(parts@) =~= decimals(ids@).take(0));
    while i < ids.len()
        invariant
            i <= ids@.len(),
            texts(parts@) == decimals(ids@).take(i as int),
        decreases ids@.len() - i,
    {
        let text = render_u64(ids[i] as u64);
        let ghost before = parts@;
        proof {
            lemma_texts_push(before, text);
            assert(decimals(ids@).take(i as int).push(text@) =~= decimals(ids@).take(i + 1));
        }
        parts.push(text);
        i += 1;
    }
    assert(decimals(ids@).take(i as int) =~= decimals(ids@));
    join_texts(parts.as_slice(), ",")
}

} // verus!
