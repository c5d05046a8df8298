//! The records of what is installed and of what runs.

use crate::application_entrypoint::{sandbox_name, sandbox_name_of};
use crate::flatpak_metadata::{last_value, lemma_pair_texts_push, pair_texts};
use crate::installation::Installation;
use crate::launch_environment::{env_value, push_env};
use crate::numbers::{decimal, render_u64};
use crate::path::{
    components, file_name_of, joined, parent_of, path_after, path_texts, within, FsPath,
};
use crate::static_overrides::ended_lines;
use crate::text::{
    concat, concat3, contains_char, has_prefix, join, lines, split_lines, split_once,
    split_text_once, starts_with, texts, trim, trim_text, views,
};
use vstd::prelude::*;

verus! {

#[derive(Debug)]
pub enum StateError {
    /// A name that cannot be the name of a file.
    InvalidName(String),
    /// A line, of the record at a path, that says nothing.
    InvalidLine(FsPath, String),
    /// A key that a record does not have.
    Missing(String),
    /// An application without a record that can be read.
    NotInstalled(String),
    /// A path that does not belong to the installation.
    OutsideDataRoot(FsPath),
    /// A mark of a deployment without its reference.
    MarkerWithoutRef,
    /// A mark of a deployment without its commit.
    MarkerWithoutCommit,
}

pub ghost enum StateErrorView {
    InvalidName(Seq<char>),
    InvalidLine(Seq<char>, Seq<char>),
    Missing(Seq<char>),
    NotInstalled(Seq<char>),
    OutsideDataRoot(Seq<char>),
    MarkerWithoutRef,
    MarkerWithoutCommit,
}

impl View for StateError {
    type V = StateErrorView;

    open spec fn view(&self) -> StateErrorView {
        match self {
            StateError::InvalidName(name) => StateErrorView::InvalidName(name@),
            StateError::InvalidLine(path, line) => StateErrorView::InvalidLine(path@, line@),
            StateError::Missing(key) => StateErrorView::Missing(key@),
            StateError::NotInstalled(id) => StateErrorView::NotInstalled(id@),
            StateError::OutsideDataRoot(path) => StateErrorView::OutsideDataRoot(path@),
            StateError::MarkerWithoutRef => StateErrorView::MarkerWithoutRef,
            StateError::MarkerWithoutCommit => StateErrorView::MarkerWithoutCommit,
        }
    }
}

impl StateError {
    pub open spec fn spec_message(self) -> Seq<char> {
        match self {
            StateError::InvalidName(name) => "name must not contain '/': "@ + name@,
            StateError::InvalidLine(path, line) => "invalid state line in "@ + path@ + ": "@
                + line@,
            StateError::Missing(key) => "state record missing "@ + key@,
            StateError::NotInstalled(id) => id@ + " is not installed"@,
            StateError::OutsideDataRoot(path) => "path is outside the installation: "@ + path@,
            StateError::MarkerWithoutRef => "deployment marker missing ref"@,
            StateError::MarkerWithoutCommit => "deployment marker missing commit"@,
        }
    }

    pub fn message(&self) -> (r: String)
        ensures
            r@ == self.spec_message(),
    {
        match self {
            StateError::InvalidName(name) => concat("name must not contain '/': ", name),
            StateError::InvalidLine(path, line) => {
                let place = concat3("invalid state line in ", path.as_str(), ": ");
                concat(&place, line)
            },
            StateError::Missing(key) => concat("state record missing ", key),
            StateError::NotInstalled(id) => concat(id, " is not installed"),
            StateError::OutsideDataRoot(path) => concat(
                "path is outside the installation: ",
                path.as_str(),
            ),
            StateError::MarkerWithoutRef => "deployment marker missing ref".to_string(),
            StateError::MarkerWithoutCommit => "deployment marker missing commit".to_string(),
        }
    }
}

/// The keys and values of a record. Where a key is repeated the last line counts.
#[derive(Debug)]
pub struct StateValues {
    pub entries: Vec<(String, String)>,
}

impl View for StateValues {
    type V = Seq<(Seq<char>, Seq<char>)>;

    open spec fn view(&self) -> Seq<(Seq<char>, Seq<char>)> {
        pair_texts(self.entries@)
    }
}

impl StateValues {
    pub fn get(&self, key: &str) -> (r: Option<String>)
        ensures
            match r {
                Some(value) => last_value(self@, key@) == Some(value@),
                None => last_value(self@, key@) is None,
            },
    {
        env_value(self.entries.as_slice(), key)
    }
}

/// What a line of a record says.
pub ghost enum StateLine {
    Nothing,
    Entry(Seq<char>, Seq<char>),
    Invalid(Seq<char>),
}

/// What a line of a record says.
pub open spec fn state_line(raw: Seq<char>) -> StateLine {
    let line = trim(raw);
    if line.len() == 0 || starts_with(line, "#"@) {
        StateLine::Nothing
    } else {
        match split_once(line, '=') {
            Some((key, value)) => StateLine::Entry(key, value),
            None => StateLine::Invalid(line),
        }
    }
}

/// What the lines of the record at a path say, up to the first that says nothing it may say.
pub open spec fn state_entries(ls: Seq<Seq<char>>, path: Seq<char>) -> Result<
    Seq<(Seq<char>, Seq<char>)>,
    StateErrorView,
>
    decreases ls.len(),
{
    if ls.len() == 0 {
        Ok(Seq::empty())
    } else {
        match state_entries(ls.drop_last(), path) {
            Err(error) => Err(error),
            Ok(before) => match state_line(ls.last()) {
                StateLine::Nothing => Ok(before),
                StateLine::Entry(key, value) => Ok(before.push((key, value))),
                StateLine::Invalid(line) => Err(StateErrorView::InvalidLine(path, line)),
            },
        }
    }
}

proof fn lemma_state_refused(ls: Seq<Seq<char>>, path: Seq<char>, n: int)
    requires
        0 <= n <= ls.len(),
        state_entries(ls.take(n), path) is Err,
    ensures
        state_entries(ls, path) == state_entries(ls.take(n), path),
    decreases ls.len(),
{
    if n == ls.len() {
        assert(ls.take(n) =~= ls);
    } else {
        assert(ls.drop_last().take(n) =~= ls.take(n));
        lemma_state_refused(ls.drop_last(), path, n);
    }
}

/// What the record at a path says.
pub fn read_values(text: &str, path: &FsPath) -> (r: Result<StateValues, StateError>)
    ensures
        match r {
            Ok(values) => state_entries(lines(text@), path@) == Ok::<
                Seq<(Seq<char>, Seq<char>)>,
                StateErrorView,
            >(values@),
            Err(error) => state_entries(lines(text@), path@) == Err::<
                Seq<(Seq<char>, Seq<char>)>,
                StateErrorView,
            >(error@),
        },
{
    let ls = split_lines(text);
    let ghost all = texts(ls@);
    let mut entries: Vec<(String, String)> = Vec::new();
    let mut i: usize = 0;
    assert(all.take(0) =~= Seq::<Seq<char>>::empty());
    assert(pair_texts(entries@) =~= Seq::<(Seq<char>, Seq<char>)>::empty());
    while i < ls.len()
        invariant
            i <= ls@.len(),
            all == texts(ls@),
            all == lines(text@),
            state_entries(all.take(i as int), path@) == Ok::<
                Seq<(Seq<char>, Seq<char>)>,
                StateErrorView,
            >(pair_texts(entries@)),
        decreases ls@.len() - i,
    {
        let ghost next = all.take(i + 1);
        assert(next.drop_last() =~= all.take(i as int));
        assert(next.last() == ls@[i as int]@);
        let line = trim_text(&ls[i]);
        if line.as_str().unicode_len() != 0 && !has_prefix(&line, "#") {
            match split_text_once(&line, '=') {
                Some((key, value)) => {
                    proof {
                        lemma_pair_texts_push(entries@, (key, value));
                    }
                    entries.push((key, value));
                },
                None => {
                    proof {
                        lemma_state_refused(all, path@, i + 1);
                    }
                    return Err(StateError::InvalidLine(path.clone(), line));
                },
            }
        }
        i += 1;
    }
    assert(all.take(i as int) =~= all);
    Ok(StateValues { entries })
}

/// The value of a key that a record must have.
pub fn required(values: &StateValues, key: &str) -> (r: Result<String, StateError>)
    ensures
        match r {
            Ok(value) => last_value(values@, key@) == Some(value@),
            Err(error) => last_value(values@, key@) is None && error@ == StateErrorView::Missing(
                key@,
            ),
        },
{
    match values.get(key) {
        Some(value) => Ok(value),
        None => Err(StateError::Missing(key.to_string())),
    }
}

/// An application that is installed.
#[derive(Debug)]
pub struct AppRecord {
    pub app_id: String,
    pub app_ref: String,
    pub app_commit: String,
    pub app_dir: FsPath,
    pub arch: String,
    pub branch: String,
    pub runtime_ref: String,
    pub runtime_commit: String,
    pub runtime_dir: FsPath,
    pub command: String,
}

pub ghost struct AppView {
    pub app_id: Seq<char>,
    pub app_ref: Seq<char>,
    pub app_commit: Seq<char>,
    pub app_dir: Seq<char>,
    pub arch: Seq<char>,
    pub branch: Seq<char>,
    pub runtime_ref: Seq<char>,
    pub runtime_commit: Seq<char>,
    pub runtime_dir: Seq<char>,
    pub command: Seq<char>,
}

impl View for AppRecord {
    type V = AppView;

    open spec fn view(&self) -> AppView {
        AppView {
            app_id: self.app_id@,
            app_ref: self.app_ref@,
            app_commit: self.app_commit@,
            app_dir: self.app_dir@,
            arch: self.arch@,
            branch: self.branch@,
            runtime_ref: self.runtime_ref@,
            runtime_commit: self.runtime_commit@,
            runtime_dir: self.runtime_dir@,
            command: self.command@,
        }
    }
}

impl Clone for AppRecord {
    fn clone(&self) -> (r: AppRecord)
        ensures
            r@ == self@,
    {
        AppRecord {
            app_id: self.app_id.clone(),
            app_ref: self.app_ref.clone(),
            app_commit: self.app_commit.clone(),
            app_dir: self.app_dir.clone(),
            arch: self.arch.clone(),
            branch: self.branch.clone(),
            runtime_ref: self.runtime_ref.clone(),
            runtime_commit: self.runtime_commit.clone(),
            runtime_dir: self.runtime_dir.clone(),
            command: self.command.clone(),
        }
    }
}

/// A runtime that is installed.
#[derive(Debug)]
pub struct RuntimeRecord {
    pub runtime_ref: String,
    pub runtime_commit: String,
    pub runtime_dir: FsPath,
}

pub ghost struct RuntimeView {
    pub runtime_ref: Seq<char>,
    pub runtime_commit: Seq<char>,
    pub runtime_dir: Seq<char>,
}

impl View for RuntimeRecord {
    type V = RuntimeView;

    open spec fn view(&self) -> RuntimeView {
        RuntimeView {
            runtime_ref: self.runtime_ref@,
            runtime_commit: self.runtime_commit@,
            runtime_dir: self.runtime_dir@,
        }
    }
}

impl Clone for RuntimeRecord {
    fn clone(&self) -> (r: RuntimeRecord)
        ensures
            r@ == self@,
    {
        RuntimeRecord {
            runtime_ref: self.runtime_ref.clone(),
            runtime_commit: self.runtime_commit.clone(),
            runtime_dir: self.runtime_dir.clone(),
        }
    }
}

/// What is written down of a deployment, in the order of the lines.
pub open spec fn deployment_entries(app: AppView) -> Seq<(Seq<char>, Seq<char>)> {
    seq![
        ("app_ref"@, app.app_ref),
        ("app_commit"@, app.app_commit),
        ("app_dir"@, app.app_dir),
        ("arch"@, app.arch),
        ("branch"@, app.branch),
        ("runtime_ref"@, app.runtime_ref),
        ("runtime_commit"@, app.runtime_commit),
        ("runtime_dir"@, app.runtime_dir),
        ("command"@, app.command),
    ]
}

/// What is written down of an application.
pub open spec fn app_entries(app: AppView) -> Seq<(Seq<char>, Seq<char>)> {
    seq![("app_id"@, app.app_id)] + deployment_entries(app)
}

/// What is written down of a runtime.
pub open spec fn runtime_entries(runtime: RuntimeView) -> Seq<(Seq<char>, Seq<char>)> {
    seq![
        ("runtime_ref"@, runtime.runtime_ref),
        ("runtime_commit"@, runtime.runtime_commit),
        ("runtime_dir"@, runtime.runtime_dir),
    ]
}

/// The lines in which entries are written down.
pub open spec fn entry_lines(entries: Seq<(Seq<char>, Seq<char>)>) -> Seq<Seq<char>> {
    Seq::new(entries.len(), |i: int| entries[i].0 + "="@ + entries[i].1)
}

/// The text in which entries are written down.
pub open spec fn record_text(entries: Seq<(Seq<char>, Seq<char>)>) -> Seq<char> {
    ended_lines(entry_lines(entries))
}

/// The text in which entries are written down.
pub fn write_entries(entries: &[(String, String)]) -> (r: String)
    ensures
        r@ == record_text(pair_texts(entries@)),
{
    let ghost all = entry_lines(pair_texts(entries@));
    let mut out = String::new();
    let mut i: usize = 0;
    assert(out@ =~= ended_lines(all.take(0)));
    while i < entries.len()
        invariant
            i <= entries@.len(),
            all == entry_lines(pair_texts(entries@)),
            out@ == ended_lines(all.take(i as int)),
        decreases entries@.len() - i,
    {
        let ghost next = all.take(i + 1);
        assert(next.drop_last() =~= all.take(i as int));
        let line = concat3(&entries[i].0, "=", &entries[i].1);
        assert(next.last() == line@);
        out.append(&line);
        out.append("\n");
        i += 1;
    }
    assert(all.take(i as int) =~= all);
    out
}

/// The first of the keys that a record does not have.
pub open spec fn first_missing(
    values: Seq<(Seq<char>, Seq<char>)>,
    keys: Seq<Seq<char>>,
) -> Option<Seq<char>>
    decreases keys.len(),
{
    if keys.len() == 0 {
        None
    } else if last_value(values, keys[0]) is None {
        Some(keys[0])
    } else {
        first_missing(values, keys.skip(1))
    }
}

/// The keys of the record of an application.
pub open spec fn app_keys() -> Seq<Seq<char>> {
    seq![
        "app_id"@,
        "app_ref"@,
        "app_commit"@,
        "app_dir"@,
        "arch"@,
        "branch"@,
        "runtime_ref"@,
        "runtime_commit"@,
        "runtime_dir"@,
        "command"@,
    ]
}

/// The keys of the record of a runtime.
pub open spec fn runtime_keys() -> Seq<Seq<char>> {
    seq!["runtime_ref"@, "runtime_commit"@, "runtime_dir"@]
}

/// The application that a record tells of.
pub open spec fn app_of(values: Seq<(Seq<char>, Seq<char>)>) -> Result<AppView, StateErrorView> {
    match first_missing(values, app_keys()) {
        Some(key) => Err(StateErrorView::Missing(key)),
        None => Ok(
            AppView {
                app_id: last_value(values, "app_id"@)->0,
                app_ref: last_value(values, "app_ref"@)->0,
                app_commit: last_value(values, "app_commit"@)->0,
                app_dir: last_value(values, "app_dir"@)->0,
                arch: last_value(values, "arch"@)->0,
                branch: last_value(values, "branch"@)->0,
                runtime_ref: last_value(values, "runtime_ref"@)->0,
                runtime_commit: last_value(values, "runtime_commit"@)->0,
                runtime_dir: last_value(values, "runtime_dir"@)->0,
                command: last_value(values, "command"@)->0,
            },
        ),
    }
}

/// The runtime that a record tells of.
pub open spec fn runtime_of(values: Seq<(Seq<char>, Seq<char>)>) -> Result<
    RuntimeView,
    StateErrorView,
> {
    match first_missing(values, runtime_keys()) {
        Some(key) => Err(StateErrorView::Missing(key)),
        None => Ok(
            RuntimeView {
                runtime_ref: last_value(values, "runtime_ref"@)->0,
                runtime_commit: last_value(values, "runtime_commit"@)->0,
                runtime_dir: last_value(values, "runtime_dir"@)->0,
            },
        ),
    }
}

proof fn lemma_first_missing(
    values: Seq<(Seq<char>, Seq<char>)>,
    keys: Seq<Seq<char>>,
    n: int,
)
    requires
        0 <= n <= keys.len(),
        forall|i: int| 0 <= i < n ==> last_value(values, #[trigger] keys[i]) is Some,
    ensures
        n < keys.len() && last_value(values, keys[n]) is None ==> first_missing(values, keys)
            == Some(keys[n]),
        n == keys.len() ==> first_missing(values, keys) is None,
    decreases n,
{
    if n > 0 {
        assert(last_value(values, keys[0]) is Some);
        let rest = keys.skip(1);
        assert forall|i: int| 0 <= i < n - 1 implies last_value(
            values,
            #[trigger] rest[i],
        ) is Some by {
            assert(rest[i] == keys[i + 1]);
        }
        lemma_first_missing(values, rest, n - 1);
    }
}

/// The value of a key that a record must have, where the keys before it were found.
fn required_at(
    values: &StateValues,
    key: &str,
    Ghost(keys): Ghost<Seq<Seq<char>>>,
    Ghost(n): Ghost<int>,
) -> (r: Result<String, StateError>)
    requires
        0 <= n < keys.len(),
        keys[n] == key@,
        forall|i: int| 0 <= i < n ==> last_value(values@, #[trigger] keys[i]) is Some,
    ensures
        match r {
            Ok(value) => last_value(values@, key@) == Some(value@),
            Err(error) => first_missing(values@, keys) == Some(key@) && error@
                == StateErrorView::Missing(key@),
        },
{
    proof {
        lemma_first_missing(values@, keys, n);
    }
    required(values, key)
}

/// The application that a record tells of.
pub fn app_from_values(values: &StateValues) -> (r: Result<AppRecord, StateError>)
    ensures
        match r {
            Ok(app) => app_of(values@) == Ok::<AppView, StateErrorView>(app@),
            Err(error) => app_of(values@) == Err::<AppView, StateErrorView>(error@),
        },
{
    let ghost keys = app_keys();
    let app_id = required_at(values, "app_id", Ghost(keys), Ghost(0))?;
    let app_ref = required_at(values, "app_ref", Ghost(keys), Ghost(1))?;
    let app_commit = required_at(values, "app_commit", Ghost(keys), Ghost(2))?;
    let app_dir = required_at(values, "app_dir", Ghost(keys), Ghost(3))?;
    let arch = required_at(values, "arch", Ghost(keys), Ghost(4))?;
    let branch = required_at(values, "branch", Ghost(keys), Ghost(5))?;
    let runtime_ref = required_at(values, "runtime_ref", Ghost(keys), Ghost(6))?;
    let runtime_commit = required_at(values, "runtime_commit", Ghost(keys), Ghost(7))?;
    let runtime_dir = required_at(values, "runtime_dir", Ghost(keys), Ghost(8))?;
    let command = required_at(values, "command", Ghost(keys), Ghost(9))?;
    proof {
        lemma_first_missing(values@, keys, 10);
    }
    Ok(
        AppRecord {
            app_id,
            app_ref,
            app_commit,
            app_dir: FsPath { text: app_dir },
            arch,
            branch,
            runtime_ref,
            runtime_commit,
            runtime_dir: FsPath { text: runtime_dir },
            command,
        },
    )
}

/// The runtime that a record tells of.
pub fn runtime_from_values(values: &StateValues) -> (r: Result<RuntimeRecord, StateError>)
    ensures
        match r {
            Ok(runtime) => runtime_of(values@) == Ok::<RuntimeView, StateErrorView>(runtime@),
            Err(error) => runtime_of(values@) == Err::<RuntimeView, StateErrorView>(error@),
        },
{
    let ghost keys = runtime_keys();
    let runtime_ref = required_at(values, "runtime_ref", Ghost(keys), Ghost(0))?;
    let runtime_commit = required_at(values, "runtime_commit", Ghost(keys), Ghost(1))?;
    let runtime_dir = required_at(values, "runtime_dir", Ghost(keys), Ghost(2))?;
    proof {
        lemma_first_missing(values@, keys, 3);
    }
    Ok(RuntimeRecord { runtime_ref, runtime_commit, runtime_dir: FsPath { text: runtime_dir } })
}

/// The application that the text of the record at a path tells of.
pub open spec fn app_in(text: Seq<char>, path: Seq<char>) -> Result<AppView, StateErrorView> {
    match state_entries(lines(text), path) {
        Ok(values) => app_of(values),
        Err(error) => Err(error),
    }
}

/// The runtime that the text of the record at a path tells of.
pub open spec fn runtime_in(text: Seq<char>, path: Seq<char>) -> Result<RuntimeView, StateErrorView> {
    match state_entries(lines(text), path) {
        Ok(values) => runtime_of(values),
        Err(error) => Err(error),
    }
}

/// The application that the text of the record at a path tells of.
pub fn read_app(text: &str, path: &FsPath) -> (r: Result<AppRecord, StateError>)
    ensures
        match r {
            Ok(app) => app_in(text@, path@) == Ok::<AppView, StateErrorView>(app@),
            Err(error) => app_in(text@, path@) == Err::<AppView, StateErrorView>(error@),
        },
{
    let values = read_values(text, path)?;
    app_from_values(&values)
}

/// The runtime that the text of the record at a path tells of.
pub fn read_runtime(text: &str, path: &FsPath) -> (r: Result<RuntimeRecord, StateError>)
    ensures
        match r {
            Ok(runtime) => runtime_in(text@, path@) == Ok::<RuntimeView, StateErrorView>(runtime@),
            Err(error) => runtime_in(text@, path@) == Err::<RuntimeView, StateErrorView>(error@),
        },
{
    let values = read_values(text, path)?;
    runtime_from_values(&values)
}

/// The file of a record.
#[derive(Debug)]
pub struct StateFile {
    pub path: FsPath,
    pub text: String,
}

impl View for StateFile {
    type V = (Seq<char>, Seq<char>);

    open spec fn view(&self) -> (Seq<char>, Seq<char>) {
        (self.path@, self.text@)
    }
}

/// A file that is to be written, in one step: a reader sees all of it or what was there before.
#[derive(Debug)]
pub struct StateWrite {
    pub path: FsPath,
    pub text: String,
}

impl View for StateWrite {
    type V = (Seq<char>, Seq<char>);

    open spec fn view(&self) -> (Seq<char>, Seq<char>) {
        (self.path@, self.text@)
    }
}

/// The name of a file that stands for a name.
pub fn safe_name(value: &str) -> (r: Result<String, StateError>)
    ensures
        match r {
            Ok(name) => !value@.contains('/') && name@ == sandbox_name_of(value@),
            Err(error) => value@.contains('/') && error@ == StateErrorView::InvalidName(value@),
        },
{
    if contains_char(value, '/') {
        return Err(StateError::InvalidName(value.to_string()));
    }
    Ok(sandbox_name(value))
}

/// The directories that records are kept in, apart from those of the installation itself.
pub fn ensure_layout(paths: &Installation) -> (r: Vec<FsPath>)
    ensures
        path_texts(r@) == seq![
            joined(paths.spec_refs(), "apps"@),
            joined(paths.spec_refs(), "runtimes"@),
            joined(paths.spec_refs(), "exports"@),
        ],
{
    let mut out: Vec<FsPath> = Vec::new();
    out.push(paths.refs().join("apps"));
    out.push(paths.refs().join("runtimes"));
    out.push(paths.refs().join("exports"));
    assert(path_texts(out@) =~= seq![
        joined(paths.spec_refs(), "apps"@),
        joined(paths.spec_refs(), "runtimes"@),
        joined(paths.spec_refs(), "exports"@),
    ]);
    out
}

/// The record of an application.
pub open spec fn app_path(paths: Installation, app_id: Seq<char>) -> Seq<char> {
    joined(joined(paths.spec_refs(), "apps"@), sandbox_name_of(app_id) + ".ini"@)
}

/// The record of a runtime.
pub open spec fn runtime_path(paths: Installation, runtime_ref: Seq<char>) -> Seq<char> {
    joined(joined(paths.spec_refs(), "runtimes"@), sandbox_name_of(runtime_ref) + ".ini"@)
}

pub fn app_record_path(paths: &Installation, app_id: &str) -> (r: Result<FsPath, StateError>)
    ensures
        match r {
            Ok(path) => !app_id@.contains('/') && path@ == app_path(*paths, app_id@),
            Err(error) => app_id@.contains('/') && error@ == StateErrorView::InvalidName(app_id@),
        },
{
    let name = safe_name(app_id)?;
    let file = concat(&name, ".ini");
    Ok(paths.refs().join("apps").join(&file))
}

pub fn runtime_record_path(paths: &Installation, runtime_ref: &str) -> (r: FsPath)
    ensures
        r@ == runtime_path(*paths, runtime_ref@),
{
    let name = sandbox_name(runtime_ref);
    let file = concat(&name, ".ini");
    paths.refs().join("runtimes").join(&file)
}

/// Adds what is written down of a deployment.
pub fn push_deployment(entries: &mut Vec<(String, String)>, app: &AppRecord)
    ensures
        pair_texts(final(entries)@) == pair_texts(old(entries)@) + deployment_entries(app@),
{
    let ghost start = pair_texts(entries@);
    push_env(entries, "app_ref", &app.app_ref);
    push_env(entries, "app_commit", &app.app_commit);
    push_env(entries, "app_dir", app.app_dir.as_str());
    push_env(entries, "arch", &app.arch);
    push_env(entries, "branch", &app.branch);
    push_env(entries, "runtime_ref", &app.runtime_ref);
    push_env(entries, "runtime_commit", &app.runtime_commit);
    push_env(entries, "runtime_dir", app.runtime_dir.as_str());
    push_env(entries, "command", &app.command);
    assert(pair_texts(entries@) =~= start + deployment_entries(app@));
}

/// Writes down an application.
pub fn write_app(paths: &Installation, app: &AppRecord) -> (r: Result<StateWrite, StateError>)
    ensures
        match r {
            Ok(write) => !app@.app_id.contains('/') && write@ == (
                app_path(*paths, app@.app_id),
                record_text(app_entries(app@)),
            ),
            Err(error) => app@.app_id.contains('/') && error@ == StateErrorView::InvalidName(
                app@.app_id,
            ),
        },
{
    let path = app_record_path(paths, &app.app_id)?;
    let mut entries: Vec<(String, String)> = Vec::new();
    assert(pair_texts(entries@) =~= Seq::<(Seq<char>, Seq<char>)>::empty());
    push_env(&mut entries, "app_id", &app.app_id);
    push_deployment(&mut entries, app);
    assert(pair_texts(entries@) =~= app_entries(app@));
    let text = write_entries(entries.as_slice());
    Ok(StateWrite { path, text })
}

/// Writes down a runtime.
pub fn write_runtime(paths: &Installation, runtime: &RuntimeRecord) -> (r: StateWrite)
    ensures
        r@ == (
            runtime_path(*paths, runtime@.runtime_ref),
            record_text(runtime_entries(runtime@)),
        ),
{
    let path = runtime_record_path(paths, &runtime.runtime_ref);
    let mut entries: Vec<(String, String)> = Vec::new();
    assert(pair_texts(entries@) =~= Seq::<(Seq<char>, Seq<char>)>::empty());
    push_env(&mut entries, "runtime_ref", &runtime.runtime_ref);
    push_env(&mut entries, "runtime_commit", &runtime.runtime_commit);
    push_env(&mut entries, "runtime_dir", runtime.runtime_dir.as_str());
    assert(pair_texts(entries@) =~= runtime_entries(runtime@));
    let text = write_entries(entries.as_slice());
    StateWrite { path, text }
}

/// An application that has been deployed, with its directories in full.
#[derive(Debug)]
pub struct InstalledApp {
    pub app_id: String,
    pub app_ref: String,
    pub app_commit: String,
    pub app_dir: FsPath,
    pub arch: String,
    pub branch: String,
    pub runtime_ref: String,
    pub runtime_commit: String,
    pub runtime_dir: FsPath,
    pub command: String,
}

impl View for InstalledApp {
    type V = AppView;

    open spec fn view(&self) -> AppView {
        AppView {
            app_id: self.app_id@,
            app_ref: self.app_ref@,
            app_commit: self.app_commit@,
            app_dir: self.app_dir@,
            arch: self.arch@,
            branch: self.branch@,
            runtime_ref: self.runtime_ref@,
            runtime_commit: self.runtime_commit@,
            runtime_dir: self.runtime_dir@,
            command: self.command@,
        }
    }
}

/// What an installation does: files to write, and the record, or why there is none.
#[derive(Debug)]
pub struct InstallOutcome {
    pub writes: Vec<StateWrite>,
    pub record: Result<AppRecord, StateError>,
}

/// The runtime that an application uses.
pub open spec fn runtime_part(app: AppView) -> RuntimeView {
    RuntimeView {
        runtime_ref: app.runtime_ref,
        runtime_commit: app.runtime_commit,
        runtime_dir: app.runtime_dir,
    }
}

/// A path as it is written down.
pub open spec fn relative_in(paths: Installation, path: Seq<char>) -> Option<Seq<char>> {
    if within(path, paths.data_root@) {
        Some(path_after(path, components(paths.data_root@).len()))
    } else {
        None
    }
}

/// What is written down of a new deployment.
pub open spec fn installed_record(paths: Installation, installed: AppView) -> Result<
    AppView,
    StateErrorView,
> {
    match (
        relative_in(paths, installed.app_dir),
        relative_in(paths, installed.runtime_dir),
    ) {
        (None, _) => Err(StateErrorView::OutsideDataRoot(installed.app_dir)),
        (Some(_), None) => Err(StateErrorView::OutsideDataRoot(installed.runtime_dir)),
        (Some(app_dir), Some(runtime_dir)) => Ok(AppView { app_dir, runtime_dir, ..installed }),
    }
}

fn relative_path(paths: &Installation, path: &FsPath) -> (r: Result<FsPath, StateError>)
    ensures
        match r {
            Ok(relative) => relative_in(*paths, path@) == Some(relative@),
            Err(error) => relative_in(*paths, path@) is None && error@
                == StateErrorView::OutsideDataRoot(path@),
        },
{
    match paths.relative_data_path(path) {
        Ok(relative) => Ok(relative),
        Err(_) => Err(StateError::OutsideDataRoot(path.clone())),
    }
}

fn installed_app(paths: &Installation, installed: &InstalledApp) -> (r: Result<
    AppRecord,
    StateError,
>)
    ensures
        match r {
            Ok(app) => installed_record(*paths, installed@) == Ok::<AppView, StateErrorView>(app@),
            Err(error) => installed_record(*paths, installed@) == Err::<AppView, StateErrorView>(
                error@,
            ),
        },
{
    let app_dir = relative_path(paths, &installed.app_dir)?;
    let runtime_dir = relative_path(paths, &installed.runtime_dir)?;
    Ok(
        AppRecord {
            app_id: installed.app_id.clone(),
            app_ref: installed.app_ref.clone(),
            app_commit: installed.app_commit.clone(),
            app_dir,
            arch: installed.arch.clone(),
            branch: installed.branch.clone(),
            runtime_ref: installed.runtime_ref.clone(),
            runtime_commit: installed.runtime_commit.clone(),
            runtime_dir,
            command: installed.command.clone(),
        },
    )
}

/// Takes note of a new deployment. The record of the application is what launches look at, so that
/// of the runtime is written before it: a reader sees the old pair or the new one.
pub fn record_install(paths: &Installation, installed: &InstalledApp) -> (r: InstallOutcome)
    ensures
        match (installed_record(*paths, installed@), r.record) {
            (Err(e), Err(error)) => error@ == e && r.writes@.len() == 0,
            (Ok(app), Ok(record)) => !app.app_id.contains('/') && record@ == app && views(
                r.writes@,
            ) == seq![
                (
                    runtime_path(*paths, app.runtime_ref),
                    record_text(runtime_entries(runtime_part(app))),
                ),
                (app_path(*paths, app.app_id), record_text(app_entries(app))),
            ],
            (Ok(app), Err(error)) => app.app_id.contains('/') && error@
                == StateErrorView::InvalidName(app.app_id) && views(r.writes@) == seq![
                (
                    runtime_path(*paths, app.runtime_ref),
                    record_text(runtime_entries(runtime_part(app))),
                ),
            ],
            _ => false,
        },
{
    let mut writes: Vec<StateWrite> = Vec::new();
    let app = match installed_app(paths, installed) {
        Ok(app) => app,
        Err(error) => {
            return InstallOutcome { writes, record: Err(error) };
        },
    };
    let runtime = RuntimeRecord {
        runtime_ref: app.runtime_ref.clone(),
        runtime_commit: app.runtime_commit.clone(),
        runtime_dir: app.runtime_dir.clone(),
    };
    writes.push(write_runtime(paths, &runtime));
    let ghost first = (
        runtime_path(*paths, app@.runtime_ref),
        record_text(runtime_entries(runtime_part(app@))),
    );
    assert(views(writes@) =~= seq![first]);
    match write_app(paths, &app) {
        Ok(write) => {
            writes.push(write);
            assert(views(writes@) =~= seq![first, write@]);
            InstallOutcome { writes, record: Ok(app) }
        },
        Err(error) => InstallOutcome { writes, record: Err(error) },
    }
}

/// The record of an application; `text` is what stands at `app_record_path`, if that can be read.
pub fn get_app(paths: &Installation, app_id: &str, text: Option<&str>) -> (r: Result<
    AppRecord,
    StateError,
>)
    ensures
        match r {
            Ok(app) => text is Some && !app_id@.contains('/') && app_in(
                text->0@,
                app_path(*paths, app_id@),
            ) == Ok::<AppView, StateErrorView>(app@),
            Err(error) => if app_id@.contains('/') {
                error@ == StateErrorView::InvalidName(app_id@)
            } else {
                error@ == StateErrorView::NotInstalled(app_id@) && (text is None || app_in(
                    text->0@,
                    app_path(*paths, app_id@),
                ) is Err)
            },
        },
{
    let path = app_record_path(paths, app_id)?;
    match text {
        None => Err(StateError::NotInstalled(app_id.to_string())),
        Some(text) => match read_app(text, &path) {
            Ok(app) => Ok(app),
            Err(_) => Err(StateError::NotInstalled(app_id.to_string())),
        },
    }
}

/// The record of a runtime; `text` is what stands at `runtime_record_path`, if anything does.
pub fn get_runtime(paths: &Installation, runtime_ref: &str, text: Option<&str>) -> (r: Result<
    Option<RuntimeRecord>,
    StateError,
>)
    ensures
        match (text, r) {
            (None, Ok(None)) => true,
            (Some(text), Ok(Some(runtime))) => runtime_in(text@, runtime_path(*paths, runtime_ref@)) == Ok::<
                RuntimeView,
                StateErrorView,
            >(runtime@),
            (Some(text), Err(error)) => runtime_in(text@, runtime_path(*paths, runtime_ref@)) == Err::<RuntimeView, StateErrorView>(
                error@,
            ),
            _ => false,
        },
{
    match text {
        None => Ok(None),
        Some(text) => match read_runtime(text, &runtime_record_path(paths, runtime_ref)) {
            Ok(runtime) => Ok(Some(runtime)),
            Err(error) => Err(error),
        },
    }
}

/// The name under which a file is written before it takes its place.
pub open spec fn temporary_name(path: Seq<char>, pid: nat, sequence: nat) -> Seq<char> {
    let name = match file_name_of(path) {
        Some(name) => name,
        None => "state"@,
    };
    "."@ + name + "."@ + decimal(pid) + "."@ + decimal(sequence) + ".tmp"@
}

/// Where a file is written before it takes its place: in the same directory, under a name that no
/// other write has.
pub fn temporary_path(path: &FsPath, pid: u32, sequence: u64) -> (r: FsPath)
    ensures
        r@ == (match (file_name_of(path@), parent_of(path@)) {
            (Some(_), Some(parent)) => joined(
                parent,
                temporary_name(path@, pid as nat, sequence as nat),
            ),
            _ => joined(path@, temporary_name(path@, pid as nat, sequence as nat)),
        }),
{
    let process = render_u64(pid as u64);
    let number = render_u64(sequence);
    let name = match path.file_name() {
        Some(name) => name,
        None => "state".to_string(),
    };
    let mut file = concat3(".", &name, ".");
    file.append(&process);
    file.append(".");
    file.append(&number);
    file.append(".tmp");
    match (path.file_name(), path.parent()) {
        (Some(_), Some(parent)) => parent.join(&file),
        _ => path.join(&file),
    }
}

} // verus!
