//! The environment that an application is started with.

use crate::application_entrypoint::FlatpakApp;
use crate::architecture::{runtime_architecture, FlatpakArchitecture, UnsupportedArchitecture};
use crate::flatpak_metadata::{
    contains_text, entries_of, last_value, lemma_pair_texts_push, list_items, pair_texts,
    section_entries, split_list, value, value_of,
};
use crate::numbers::{decimal, render_u64};
use crate::path::{components, joined, path_after, path_texts, within, FsPath};
use crate::spawn_broker::{
    copy_env, lemma_variable_place, set_env, set_variable, variable_place,
};
use crate::text::{
    chars_of, concat, concat3, ends_with, find_from, first_index, has_prefix, has_suffix, join,
    join_texts, lemma_first_index, lemma_selected, lemma_views_push, selected,
    starts_with, text_eq, text_of, texts,
};
use vstd::prelude::*;

verus! {

/// The value that a variable has where it first stands.
pub open spec fn first_value(env: Seq<(Seq<char>, Seq<char>)>, key: Seq<char>) -> Option<
    Seq<char>,
> {
    match variable_place(env, key, 0) {
        Some(i) => Some(env[i].1),
        None => None,
    }
}

/// The value that a variable has where it first stands.
fn first_env_value(env: &[(String, String)], key: &str) -> (r: Option<String>)
    ensures
        match r {
            Some(value) => first_value(pair_texts(env@), key@) == Some(value@),
            None => first_value(pair_texts(env@), key@) is None,
        },
{
    let ghost all = pair_texts(env@);
    let mut i: usize = 0;
    while i < env.len()
        invariant
            i <= env@.len(),
            all == pair_texts(env@),
            variable_place(all, key@, 0) == variable_place(all, key@, i as int),
        decreases env@.len() - i,
    {
        assert(all[i as int] == (env@[i as int].0@, env@[i as int].1@));
        if text_eq(&env[i].0, key) {
            return Some(env[i].1.clone());
        }
        i += 1;
    }
    None
}

/// The value that a variable has where it last stands.
pub fn env_value(env: &[(String, String)], key: &str) -> (r: Option<String>)
    ensures
        match r {
            Some(value) => last_value(pair_texts(env@), key@) == Some(value@),
            None => last_value(pair_texts(env@), key@) is None,
        },
{
    let ghost all = pair_texts(env@);
    let mut i: usize = env.len();
    assert(all.take(i as int) =~= all);
    while i > 0
        invariant
            i <= env@.len(),
            all == pair_texts(env@),
            last_value(all, key@) == last_value(all.take(i as int), key@),
        decreases i,
    {
        let ghost now = all.take(i as int);
        assert(now.drop_last() =~= all.take(i - 1));
        assert(now.last() == (env@[i - 1].0@, env@[i - 1].1@));
        if text_eq(&env[i - 1].0, key) {
            return Some(env[i - 1].1.clone());
        }
        i -= 1;
    }
    None
}

/// Adds a variable at the end.
pub fn push_env(env: &mut Vec<(String, String)>, key: &str, value: &str)
    ensures
        pair_texts(final(env)@) == pair_texts(old(env)@).push((key@, value@)),
{
    let pair = (key.to_string(), value.to_string());
    proof {
        lemma_pair_texts_push(env@, pair);
    }
    env.push(pair);
}

/// Adds variables at the end.
pub fn extend_env(env: &mut Vec<(String, String)>, more: &[(String, String)])
    ensures
        pair_texts(final(env)@) == pair_texts(old(env)@) + pair_texts(more@),
{
    let ghost start = pair_texts(env@);
    let ghost all = pair_texts(more@);
    let mut i: usize = 0;
    assert(start + all.take(0) =~= start);
    while i < more.len()
        invariant
            i <= more@.len(),
            all == pair_texts(more@),
            pair_texts(env@) == start + all.take(i as int),
        decreases more@.len() - i,
    {
        push_env(env, &more[i].0, &more[i].1);
        assert(all[i as int] == (more@[i as int].0@, more@[i as int].1@));
        assert(pair_texts(env@) =~= start + all.take(i + 1));
        i += 1;
    }
    assert(all.take(i as int) =~= all);
}

/// The variables after each update has taken the place of what was there.
pub open spec fn merged_env(
    env: Seq<(Seq<char>, Seq<char>)>,
    updates: Seq<(Seq<char>, Seq<char>)>,
) -> Seq<(Seq<char>, Seq<char>)>
    decreases updates.len(),
{
    if updates.len() == 0 {
        env
    } else {
        set_variable(
            merged_env(env, updates.drop_last()),
            updates.last().0,
            updates.last().1,
        )
    }
}

/// Gives each variable of the updates its value there.
pub fn merge_env(env: &mut Vec<(String, String)>, updates: &[(String, String)])
    ensures
        pair_texts(final(env)@) == merged_env(pair_texts(old(env)@), pair_texts(updates@)),
{
    let ghost start = pair_texts(env@);
    let ghost all = pair_texts(updates@);
    let mut i: usize = 0;
    while i < updates.len()
        invariant
            i <= updates@.len(),
            all == pair_texts(updates@),
            pair_texts(env@) == merged_env(start, all.take(i as int)),
        decreases updates@.len() - i,
    {
        let ghost next = all.take(i + 1);
        assert(next.drop_last() =~= all.take(i as int));
        assert(next.last() == (updates@[i as int].0@, updates@[i as int].1@));
        set_env(env, updates[i].0.clone(), updates[i].1.clone());
        i += 1;
    }
    assert(all.take(i as int) =~= all);
}

/// Whether a character may stand in the name of a variable.
pub open spec fn is_variable_char(c: char) -> bool {
    c == '_' || 'a' <= c <= 'z' || 'A' <= c <= 'Z' || '0' <= c <= '9'
}

/// The length of the variable name that a text begins with.
pub open spec fn variable_length(s: Seq<char>) -> nat
    decreases s.len(),
{
    if s.len() == 0 || !is_variable_char(s[0]) {
        0
    } else {
        1 + variable_length(s.skip(1))
    }
}

pub proof fn lemma_variable_length(s: Seq<char>)
    ensures
        variable_length(s) <= s.len(),
    decreases s.len(),
{
    if s.len() != 0 && is_variable_char(s[0]) {
        lemma_variable_length(s.skip(1));
    }
}

/// The value of a variable, empty where it is not set.
pub open spec fn value_or_empty(env: Seq<(Seq<char>, Seq<char>)>, key: Seq<char>) -> Seq<char> {
    match last_value(env, key) {
        Some(value) => value,
        None => Seq::empty(),
    }
}

/// A value with `$NAME` and `${NAME}` replaced by what the variables hold. A dollar sign that no
/// name follows stands for itself; a brace that is not closed reaches to the end.
pub open spec fn expanded(s: Seq<char>, env: Seq<(Seq<char>, Seq<char>)>) -> Seq<char>
    decreases s.len(),
{
    if s.len() == 0 {
        Seq::empty()
    } else if s[0] != '$' {
        seq![s[0]] + expanded(s.skip(1), env)
    } else if s.len() > 1 && s[1] == '{' {
        let rest = s.skip(2);
        let n = first_index(rest, '}') as int;
        proof {
            lemma_first_index(rest, '}');
        }
        value_or_empty(env, rest.take(n)) + (if n < rest.len() {
            expanded(rest.skip(n + 1), env)
        } else {
            Seq::empty()
        })
    } else {
        let rest = s.skip(1);
        let n = variable_length(rest) as int;
        proof {
            lemma_variable_length(rest);
        }
        if n == 0 {
            seq!['$'] + expanded(rest, env)
        } else {
            value_or_empty(env, rest.take(n)) + expanded(rest.skip(n), env)
        }
    }
}

fn is_variable_character(c: char) -> (r: bool)
    ensures
        r == is_variable_char(c),
{
    c == '_' || ('a' <= c && c <= 'z') || ('A' <= c && c <= 'Z') || ('0' <= c && c <= '9')
}

/// Where the variable name that begins at a place ends.
fn variable_end(chars: &[char], from: usize) -> (r: usize)
    requires
        from <= chars@.len(),
    ensures
        from <= r <= chars@.len(),
        r == from + variable_length(chars@.skip(from as int)),
{
    let mut i: usize = from;
    while i < chars.len() && is_variable_character(chars[i])
        invariant
            from <= i <= chars@.len(),
            variable_length(chars@.skip(from as int)) == i - from + variable_length(
                chars@.skip(i as int),
            ),
        decreases chars@.len() - i,
    {
        assert(chars@.skip(i as int).skip(1) =~= chars@.skip(i + 1));
        i += 1;
    }
    i
}

/// Adds what a variable holds.
fn push_value(out: &mut String, env: &[(String, String)], name: &str)
    ensures
        final(out)@ == old(out)@ + value_or_empty(pair_texts(env@), name@),
{
    match env_value(env, name) {
        Some(value) => {
            out.append(&value);
        },
        None => {
            assert(out@ + Seq::<char>::empty() =~= out@);
        },
    }
}

/// A value with `$NAME` and `${NAME}` replaced by what the variables hold.
pub fn expand_env_value(value: &str, env: &[(String, String)]) -> (r: String)
    ensures
        r@ == expanded(value@, pair_texts(env@)),
{
    let x = chars_of(value);
    let ghost vars = pair_texts(env@);
    let mut out = String::new();
    let mut i: usize = 0;
    assert(x@.skip(0) =~= x@);
    assert(out@ + expanded(value@, vars) =~= expanded(value@, vars));
    while i < x.len()
        invariant
            x@ == value@,
            vars == pair_texts(env@),
            i <= x@.len(),
            out@ + expanded(x@.skip(i as int), vars) == expanded(value@, vars),
        decreases x@.len() - i,
    {
        let ghost rest = x@.skip(i as int);
        let ghost before = out@;
        assert(rest[0] == x@[i as int]);
        assert(rest.skip(1) =~= x@.skip(i + 1));
        if x[i] != '$' {
            out.push(x[i]);
            assert(before + expanded(rest, vars) =~= out@ + expanded(x@.skip(i + 1), vars));
            i += 1;
        } else if i + 1 < x.len() && x[i + 1] == '{' {
            assert(rest[1] == x@[i + 1]);
            assert(rest.skip(2) =~= x@.skip(i + 2));
            proof {
                lemma_first_index(rest.skip(2), '}');
            }
            let end: usize = find_from(x.as_slice(), '}', i + 2);
            let name = text_of(x.as_slice(), i + 2, end);
            assert(name@ =~= rest.skip(2).take(end - (i + 2)));
            push_value(&mut out, env, &name);
            if end < x.len() {
                assert(rest.skip(2).skip(end - (i + 2) + 1) =~= x@.skip(end + 1));
                assert(before + expanded(rest, vars) =~= out@ + expanded(x@.skip(end + 1), vars));
                i = end + 1;
            } else {
                assert(x@.skip(end as int) =~= Seq::<char>::empty());
                assert(before + expanded(rest, vars) =~= out@ + expanded(
                    x@.skip(end as int),
                    vars,
                ));
                i = end;
            }
        } else {
            assert(rest.len() > 1 ==> rest[1] == x@[i + 1]);
            let end: usize = variable_end(x.as_slice(), i + 1);
            if end == i + 1 {
                out.push('$');
                assert(before + expanded(rest, vars) =~= out@ + expanded(x@.skip(i + 1), vars));
            } else {
                let name = text_of(x.as_slice(), i + 1, end);
                assert(name@ =~= rest.skip(1).take(end - (i + 1)));
                assert(rest.skip(1).skip(end - (i + 1)) =~= x@.skip(end as int));
                push_value(&mut out, env, &name);
                assert(before + expanded(rest, vars) =~= out@ + expanded(
                    x@.skip(end as int),
                    vars,
                ));
            }
            i = end;
        }
    }
    assert(x@.skip(i as int) =~= Seq::<char>::empty());
    assert(out@ + expanded(x@.skip(i as int), vars) =~= out@);
    out
}

/// A value without a dollar sign stands for itself.
pub proof fn lemma_plain_value(s: Seq<char>, env: Seq<(Seq<char>, Seq<char>)>)
    requires
        !s.contains('$'),
    ensures
        expanded(s, env) == s,
    decreases s.len(),
{
    if s.len() > 0 {
        assert(s.contains(s[0]));
        assert forall|i: int| 0 <= i < s.skip(1).len() implies s.skip(1)[i] != '$' by {
            assert(s.contains(s[i + 1]));
        }
        lemma_plain_value(s.skip(1), env);
        assert(seq![s[0]] + s.skip(1) =~= s);
    }
}

/// The variables after the entries; each value is expanded with the variables before it.
pub open spec fn env_after(
    base: Seq<(Seq<char>, Seq<char>)>,
    entries: Seq<(Seq<char>, Seq<char>)>,
) -> Seq<(Seq<char>, Seq<char>)>
    decreases entries.len(),
{
    if entries.len() == 0 {
        base
    } else {
        let before = env_after(base, entries.drop_last());
        set_variable(before, entries.last().0, expanded(entries.last().1, before))
    }
}

/// What the entries set, each variable once.
pub open spec fn updates_of(
    base: Seq<(Seq<char>, Seq<char>)>,
    entries: Seq<(Seq<char>, Seq<char>)>,
) -> Seq<(Seq<char>, Seq<char>)>
    decreases entries.len(),
{
    if entries.len() == 0 {
        Seq::empty()
    } else {
        set_variable(
            updates_of(base, entries.drop_last()),
            entries.last().0,
            expanded(entries.last().1, env_after(base, entries.drop_last())),
        )
    }
}

/// The entries that the runtime and then the application have for the environment.
pub open spec fn environment_entries(
    runtime_metadata: Seq<char>,
    app_metadata: Seq<char>,
) -> Seq<(Seq<char>, Seq<char>)> {
    entries_of(runtime_metadata, "Environment"@) + entries_of(app_metadata, "Environment"@)
}

/// What the metadata of the runtime and of the application set.
pub fn metadata_env(
    runtime_metadata: &str,
    effective_app_metadata: &str,
    base_env: &[(String, String)],
) -> (r: Vec<(String, String)>)
    ensures
        pair_texts(r@) == updates_of(
            pair_texts(base_env@),
            environment_entries(runtime_metadata@, effective_app_metadata@),
        ),
{
    let mut entries = section_entries(runtime_metadata, "Environment");
    let more = section_entries(effective_app_metadata, "Environment");
    extend_env(&mut entries, more.as_slice());
    let ghost base = pair_texts(base_env@);
    let ghost all = pair_texts(entries@);
    let mut env = copy_env(base_env);
    let mut updates: Vec<(String, String)> = Vec::new();
    let mut i: usize = 0;
    assert(pair_texts(updates@) =~= updates_of(base, all.take(0)));
    while i < entries.len()
        invariant
            i <= entries@.len(),
            all == pair_texts(entries@),
            pair_texts(env@) == env_after(base, all.take(i as int)),
            pair_texts(updates@) == updates_of(base, all.take(i as int)),
        decreases entries@.len() - i,
    {
        let ghost next = all.take(i + 1);
        assert(next.drop_last() =~= all.take(i as int));
        assert(next.last() == (entries@[i as int].0@, entries@[i as int].1@));
        let value = expand_env_value(&entries[i].1, env.as_slice());
        let copy = value.clone();
        set_env(&mut env, entries[i].0.clone(), copy);
        set_env(&mut updates, entries[i].0.clone(), value);
        i += 1;
    }
    assert(all.take(i as int) =~= all);
    updates
}

/// Each variable stands once.
pub open spec fn keys_distinct(env: Seq<(Seq<char>, Seq<char>)>) -> bool {
    forall|i: int, j: int| 0 <= i < j < env.len() ==> (#[trigger] env[i]).0 != (#[trigger] env[j]).0
}

proof fn lemma_set_distinct(env: Seq<(Seq<char>, Seq<char>)>, key: Seq<char>, value: Seq<char>)
    requires
        keys_distinct(env),
    ensures
        keys_distinct(set_variable(env, key, value)),
        forall|other: Seq<char>| #[trigger]
            first_value(set_variable(env, key, value), other) == (if other == key {
                Some(value)
            } else {
                first_value(env, other)
            }),
{
    lemma_variable_place(env, key, 0);
    assert forall|other: Seq<char>| #[trigger]
        first_value(set_variable(env, key, value), other) == (if other == key {
            Some(value)
        } else {
            first_value(env, other)
        }) by {
        lemma_set_first(env, key, value, other);
    }
}

/// Setting a variable gives it its value and leaves every other as it was.
pub proof fn lemma_set_first(
    env: Seq<(Seq<char>, Seq<char>)>,
    key: Seq<char>,
    value: Seq<char>,
    other: Seq<char>,
)
    ensures
        first_value(set_variable(env, key, value), other) == (if other == key {
            Some(value)
        } else {
            first_value(env, other)
        }),
{
    let after = set_variable(env, key, value);
    lemma_variable_place(env, key, 0);
    lemma_variable_place(env, other, 0);
    lemma_variable_place(after, other, 0);
    lemma_place_first(env, key, 0);
    lemma_place_first(env, other, 0);
    lemma_place_first(after, other, 0);
    match variable_place(env, other, 0) {
        Some(i) => {
            assert(after[i].0 == other);
        },
        None => {},
    }
    match variable_place(after, other, 0) {
        Some(i) => {
            if i < env.len() {
                assert(env[i].0 == other);
            }
        },
        None => {
            if other == key {
                match variable_place(env, key, 0) {
                    Some(i) => {
                        assert(after[i].0 == key);
                    },
                    None => {
                        assert(after[env.len() as int].0 == key);
                    },
                }
            }
        },
    }
}

/// Before the place where a variable first stands there is no other.
proof fn lemma_place_first(env: Seq<(Seq<char>, Seq<char>)>, key: Seq<char>, from: int)
    requires
        0 <= from,
    ensures
        variable_place(env, key, from) matches Some(i) ==> forall|j: int|
            from <= j < i ==> (#[trigger] env[j]).0 != key,
    decreases env.len() - from,
{
    if from < env.len() && env[from].0 != key {
        lemma_place_first(env, key, from + 1);
    }
}

/// A variable has the value of the last entry that sets it, whether that entry is one of the
/// runtime or of the application, whose entries come later. Each variable stands once.
pub proof fn lemma_last_entry_wins(
    base: Seq<(Seq<char>, Seq<char>)>,
    entries: Seq<(Seq<char>, Seq<char>)>,
    i: int,
)
    requires
        0 <= i < entries.len(),
        forall|j: int| i < j < entries.len() ==> (#[trigger] entries[j]).0 != entries[i].0,
    ensures
        keys_distinct(updates_of(base, entries)),
        first_value(updates_of(base, entries), entries[i].0) == Some(
            expanded(entries[i].1, env_after(base, entries.take(i))),
        ),
    decreases entries.len(),
{
    let before = entries.drop_last();
    lemma_updates_distinct(base, before);
    lemma_set_distinct(
        updates_of(base, before),
        entries.last().0,
        expanded(entries.last().1, env_after(base, before)),
    );
    if i == entries.len() - 1 {
        assert(entries.take(i) =~= before);
    } else {
        lemma_last_entry_wins(base, before, i);
        assert(before.take(i) =~= entries.take(i));
        assert(entries[entries.len() - 1].0 != entries[i].0);
    }
}

proof fn lemma_updates_distinct(
    base: Seq<(Seq<char>, Seq<char>)>,
    entries: Seq<(Seq<char>, Seq<char>)>,
)
    ensures
        keys_distinct(updates_of(base, entries)),
    decreases entries.len(),
{
    if entries.len() > 0 {
        let before = entries.drop_last();
        lemma_updates_distinct(base, before);
        lemma_set_distinct(
            updates_of(base, before),
            entries.last().0,
            expanded(entries.last().1, env_after(base, before)),
        );
    }
}

/// Whether the metadata takes a variable out of the environment.
pub open spec fn unset_by(metadata: Seq<char>, key: Seq<char>) -> bool {
    match value_of(metadata, "Context"@, "unset-environment"@) {
        Some(names) => list_items(names).contains(key) && !starts_with(key, "!"@),
        None => false,
    }
}

/// The variables that the metadata does not take out.
pub open spec fn without_unset(
    env: Seq<(Seq<char>, Seq<char>)>,
    metadata: Seq<char>,
) -> Seq<(Seq<char>, Seq<char>)> {
    selected(env, |pair: (Seq<char>, Seq<char>)| !unset_by(metadata, pair.0))
}

/// Takes the variables out that the metadata names.
pub fn apply_unset_environment(env: &mut Vec<(String, String)>, metadata: &str)
    ensures
        pair_texts(final(env)@) == without_unset(pair_texts(old(env)@), metadata@),
{
    let ghost all = pair_texts(env@);
    let ghost keep = |pair: (Seq<char>, Seq<char>)| !unset_by(metadata@, pair.0);
    let names: Vec<String> = match value(metadata, "Context", "unset-environment") {
        Some(unset) => split_list(&unset),
        None => Vec::new(),
    };
    let mut out: Vec<(String, String)> = Vec::new();
    let mut i: usize = 0;
    assert(pair_texts(out@) =~= selected(all.take(0), keep));
    while i < env.len()
        invariant
            i <= env@.len(),
            env@ == old(env)@,
            all == pair_texts(env@),
            keep == (|pair: (Seq<char>, Seq<char>)| !unset_by(metadata@, pair.0)),
            match value_of(metadata@, "Context"@, "unset-environment"@) {
                Some(unset) => texts(names@) == list_items(unset),
                None => names@.len() == 0,
            },
            pair_texts(out@) == selected(all.take(i as int), keep),
        decreases env@.len() - i,
    {
        let ghost next = all.take(i + 1);
        assert(next.drop_last() =~= all.take(i as int));
        assert(next.last() == (env@[i as int].0@, env@[i as int].1@));
        let removed = contains_text(names.as_slice(), &env[i].0) && !has_prefix(&env[i].0, "!");
        assert(removed == unset_by(metadata@, env@[i as int].0@));
        if !removed {
            push_env(&mut out, &env[i].0, &env[i].1);
        }
        i += 1;
    }
    assert(all.take(i as int) =~= all);
    *env = out;
}

/// No variable remains that the metadata takes out.
pub proof fn lemma_unset_are_gone(
    env: Seq<(Seq<char>, Seq<char>)>,
    metadata: Seq<char>,
    pair: (Seq<char>, Seq<char>),
)
    ensures
        without_unset(env, metadata).contains(pair) <==> env.contains(pair) && !unset_by(
            metadata,
            pair.0,
        ),
{
    lemma_selected(env, |pair: (Seq<char>, Seq<char>)| !unset_by(metadata, pair.0));
}

/// The variables without those of a name.
pub open spec fn without_variable(env: Seq<(Seq<char>, Seq<char>)>, key: Seq<char>) -> Seq<
    (Seq<char>, Seq<char>),
> {
    selected(env, |pair: (Seq<char>, Seq<char>)| pair.0 != key)
}

/// Takes every variable of a name out.
pub fn remove_env(env: &mut Vec<(String, String)>, key: &str)
    ensures
        pair_texts(final(env)@) == without_variable(pair_texts(old(env)@), key@),
{
    let ghost all = pair_texts(env@);
    let ghost keep = |pair: (Seq<char>, Seq<char>)| pair.0 != key@;
    let mut out: Vec<(String, String)> = Vec::new();
    let mut i: usize = 0;
    assert(pair_texts(out@) =~= selected(all.take(0), keep));
    while i < env.len()
        invariant
            i <= env@.len(),
            env@ == old(env)@,
            all == pair_texts(env@),
            keep == (|pair: (Seq<char>, Seq<char>)| pair.0 != key@),
            pair_texts(out@) == selected(all.take(i as int), keep),
        decreases env@.len() - i,
    {
        let ghost next = all.take(i + 1);
        assert(next.drop_last() =~= all.take(i as int));
        assert(next.last() == (env@[i as int].0@, env@[i as int].1@));
        if !text_eq(&env[i].0, key) {
            push_env(&mut out, &env[i].0, &env[i].1);
        }
        i += 1;
    }
    assert(all.take(i as int) =~= all);
    *env = out;
}

/// The variables with paths put before what a variable holds.
pub open spec fn with_paths_before(
    env: Seq<(Seq<char>, Seq<char>)>,
    key: Seq<char>,
    paths: Seq<Seq<char>>,
) -> Seq<(Seq<char>, Seq<char>)> {
    if paths.len() == 0 {
        env
    } else {
        let prefix = join(paths, ":"@);
        match first_value(env, key) {
            Some(existing) => set_variable(
                env,
                key,
                if existing.len() == 0 {
                    prefix
                } else {
                    prefix + ":"@ + existing
                },
            ),
            None => env.push((key, prefix)),
        }
    }
}

/// The variables with paths put behind what a variable holds.
pub open spec fn with_paths_behind(
    env: Seq<(Seq<char>, Seq<char>)>,
    key: Seq<char>,
    paths: Seq<Seq<char>>,
) -> Seq<(Seq<char>, Seq<char>)> {
    if paths.len() == 0 {
        env
    } else {
        let suffix = join(paths, ":"@);
        match first_value(env, key) {
            Some(existing) => set_variable(
                env,
                key,
                if existing.len() == 0 {
                    suffix
                } else {
                    existing + ":"@ + suffix
                },
            ),
            None => env.push((key, suffix)),
        }
    }
}

/// Puts paths before what a variable holds.
pub fn prepend_env_paths(env: &mut Vec<(String, String)>, key: &str, paths: &[String])
    ensures
        pair_texts(final(env)@) == with_paths_before(pair_texts(old(env)@), key@, texts(paths@)),
{
    assert(texts(paths@).len() == paths@.len());
    if paths.len() == 0 {
        return;
    }
    let prefix = join_texts(paths, ":");
    match first_env_value(env.as_slice(), key) {
        Some(existing) => {
            if existing.unicode_len() == 0 {
                set_env(env, key.to_string(), prefix);
            } else {
                let value = concat3(&prefix, ":", &existing);
                set_env(env, key.to_string(), value);
            }
        },
        None => {
            push_env(env, key, &prefix);
        },
    }
}

/// Puts paths behind what a variable holds.
pub fn append_env_paths(env: &mut Vec<(String, String)>, key: &str, paths: &[String])
    ensures
        pair_texts(final(env)@) == with_paths_behind(pair_texts(old(env)@), key@, texts(paths@)),
{
    assert(texts(paths@).len() == paths@.len());
    if paths.len() == 0 {
        return;
    }
    let suffix = join_texts(paths, ":");
    match first_env_value(env.as_slice(), key) {
        Some(existing) => {
            if existing.unicode_len() == 0 {
                set_env(env, key.to_string(), suffix);
            } else {
                let value = concat3(&existing, ":", &suffix);
                set_env(env, key.to_string(), value);
            }
        },
        None => {
            push_env(env, key, &suffix);
        },
    }
}

/// Paths put before or behind what a variable holds leave every other variable as it was.
pub proof fn lemma_paths_keep_others(
    env: Seq<(Seq<char>, Seq<char>)>,
    key: Seq<char>,
    paths: Seq<Seq<char>>,
    other: Seq<char>,
)
    requires
        other != key,
    ensures
        first_value(with_paths_before(env, key, paths), other) == first_value(env, other),
        first_value(with_paths_behind(env, key, paths), other) == first_value(env, other),
{
    if paths.len() > 0 {
        let text = join(paths, ":"@);
        match first_value(env, key) {
            Some(existing) => {
                lemma_set_first(env, key, text, other);
                lemma_set_first(env, key, text + ":"@ + existing, other);
                lemma_set_first(env, key, existing + ":"@ + text, other);
            },
            None => {
                lemma_set_first(env, key, text, other);
            },
        }
    }
}

/// The variables with the libraries that graphics need; those that the Zypak launcher preloads
/// are kept apart from those of every other program.
pub open spec fn with_graphics_preloads(
    env: Seq<(Seq<char>, Seq<char>)>,
    ld_preload_paths: Seq<Seq<char>>,
    zypak_ld_preload_paths: Seq<Seq<char>>,
) -> Seq<(Seq<char>, Seq<char>)> {
    with_paths_before(
        with_paths_before(env, "LD_PRELOAD"@, ld_preload_paths),
        "ZYPAK_LD_PRELOAD"@,
        zypak_ld_preload_paths,
    )
}

pub fn apply_graphics_preloads(
    env: &mut Vec<(String, String)>,
    ld_preload_paths: &[String],
    zypak_ld_preload_paths: &[String],
)
    ensures
        pair_texts(final(env)@) == with_graphics_preloads(
            pair_texts(old(env)@),
            texts(ld_preload_paths@),
            texts(zypak_ld_preload_paths@),
        ),
{
    prepend_env_paths(env, "LD_PRELOAD", ld_preload_paths);
    prepend_env_paths(env, "ZYPAK_LD_PRELOAD", zypak_ld_preload_paths);
}

/// What is preloaded by every program does not depend on what Zypak preloads, nor the other way
/// round.
pub proof fn lemma_preloads_independent(
    env: Seq<(Seq<char>, Seq<char>)>,
    ld_preload_paths: Seq<Seq<char>>,
    zypak_ld_preload_paths: Seq<Seq<char>>,
)
    ensures
        first_value(
            with_graphics_preloads(env, ld_preload_paths, zypak_ld_preload_paths),
            "LD_PRELOAD"@,
        ) == first_value(
            with_paths_before(env, "LD_PRELOAD"@, ld_preload_paths),
            "LD_PRELOAD"@,
        ),
        first_value(
            with_paths_before(env, "LD_PRELOAD"@, ld_preload_paths),
            "ZYPAK_LD_PRELOAD"@,
        ) == first_value(env, "ZYPAK_LD_PRELOAD"@),
{
    reveal_strlit("LD_PRELOAD");
    reveal_strlit("ZYPAK_LD_PRELOAD");
    assert("LD_PRELOAD"@.len() != "ZYPAK_LD_PRELOAD"@.len());
    lemma_paths_keep_others(
        with_paths_before(env, "LD_PRELOAD"@, ld_preload_paths),
        "ZYPAK_LD_PRELOAD"@,
        zypak_ld_preload_paths,
        "LD_PRELOAD"@,
    );
    lemma_paths_keep_others(env, "LD_PRELOAD"@, ld_preload_paths, "ZYPAK_LD_PRELOAD"@);
}

/// The directory that the sandbox shows to a user at run time.
pub open spec fn runtime_prefix(uid: u32) -> Seq<char> {
    "/run/user/"@ + decimal(uid as nat)
}

/// The host directories behind the variables that name a directory of the application at run time.
pub open spec fn runtime_dirs(
    env: Seq<(Seq<char>, Seq<char>)>,
    host_runtime_dir: Seq<char>,
    uid: u32,
    app_id: Seq<char>,
) -> Seq<Seq<char>>
    decreases env.len(),
{
    if env.len() == 0 {
        Seq::empty()
    } else {
        let before = runtime_dirs(env.drop_last(), host_runtime_dir, uid, app_id);
        let value = env.last().1;
        if ends_with(env.last().0, "_DIR"@) && within(
            value,
            runtime_prefix(uid) + "/app/"@ + app_id,
        ) && within(value, runtime_prefix(uid)) {
            before.push(
                joined(
                    host_runtime_dir,
                    path_after(value, components(runtime_prefix(uid)).len()),
                ),
            )
        } else {
            before
        }
    }
}

/// The host directories that have to be made for the variables that name a directory of the
/// application at run time.
pub fn metadata_runtime_dirs(
    env: &[(String, String)],
    host_runtime_dir: &FsPath,
    uid: u32,
    app_id: &str,
) -> (r: Vec<FsPath>)
    ensures
        path_texts(r@) == runtime_dirs(pair_texts(env@), host_runtime_dir@, uid, app_id@),
{
    let id = render_u64(uid as u64);
    let user_dir = FsPath { text: concat("/run/user/", &id) };
    let prefix = FsPath { text: concat3(user_dir.as_str(), "/app/", app_id) };
    let ghost all = pair_texts(env@);
    let mut out: Vec<FsPath> = Vec::new();
    let mut i: usize = 0;
    assert(path_texts(out@) =~= runtime_dirs(all.take(0), host_runtime_dir@, uid, app_id@));
    while i < env.len()
        invariant
            i <= env@.len(),
            all == pair_texts(env@),
            user_dir@ == runtime_prefix(uid),
            prefix@ == runtime_prefix(uid) + "/app/"@ + app_id@,
            path_texts(out@) == runtime_dirs(
                all.take(i as int),
                host_runtime_dir@,
                uid,
                app_id@,
            ),
        decreases env@.len() - i,
    {
        let ghost next = all.take(i + 1);
        assert(next.drop_last() =~= all.take(i as int));
        assert(next.last() == (env@[i as int].0@, env@[i as int].1@));
        let path = FsPath::new(&env[i].1);
        if has_suffix(&env[i].0, "_DIR") && path.starts_with(&prefix) {
            if let Some(relative) = path.strip_prefix(&user_dir) {
                let host_path = host_runtime_dir.join_path(&relative);
                proof {
                    lemma_views_push(out@, host_path);
                }
                out.push(host_path);
            }
        }
        i += 1;
    }
    assert(all.take(i as int) =~= all);
    out
}

/// The desktop session that an application is shown in.
#[derive(Debug)]
pub struct SessionSettings {
    pub wayland_display: String,
    pub display: Option<String>,
    /// The session bus as the sandbox reaches it.
    pub bus_address: Option<String>,
    /// Variables that are handed on from the host, where they are set.
    pub current_desktop: Option<String>,
    pub session_desktop: Option<String>,
    pub moz_enable_wayland: Option<String>,
    pub trace_linux_compat: Option<String>,
}

/// The variables with one more, if it has a value.
pub open spec fn with_option(
    env: Seq<(Seq<char>, Seq<char>)>,
    key: Seq<char>,
    value: Option<String>,
) -> Seq<(Seq<char>, Seq<char>)> {
    match value {
        Some(text) => env.push((key, text@)),
        None => env,
    }
}

/// The variables with one more, if it has a value that is not empty.
pub open spec fn with_host_value(
    env: Seq<(Seq<char>, Seq<char>)>,
    key: Seq<char>,
    value: Option<String>,
) -> Seq<(Seq<char>, Seq<char>)> {
    match value {
        Some(text) => if text@.len() == 0 {
            env
        } else {
            env.push((key, text@))
        },
        None => env,
    }
}

fn push_optional_env(env: &mut Vec<(String, String)>, key: &str, value: &Option<String>)
    ensures
        pair_texts(final(env)@) == with_option(pair_texts(old(env)@), key@, *value),
{
    if let Some(text) = value {
        push_env(env, key, text);
    }
}

fn push_host_env(env: &mut Vec<(String, String)>, key: &str, value: &Option<String>)
    ensures
        pair_texts(final(env)@) == with_host_value(pair_texts(old(env)@), key@, *value),
{
    if let Some(text) = value {
        if text.unicode_len() != 0 {
            push_env(env, key, text);
        }
    }
}

/// Where the libraries of a runtime lie.
pub open spec fn library_dirs(architecture: FlatpakArchitecture) -> Seq<Seq<char>> {
    seq!["/usr/"@ + architecture.spec_runtime_libdir(), "/usr/lib"@, "/usr/lib64"@]
}

/// Where the libraries of a runtime lie.
pub fn runtime_library_paths(runtime_ref: &str) -> (r: Result<
    Vec<String>,
    UnsupportedArchitecture,
>)
    ensures
        match (r, runtime_architecture(runtime_ref@)) {
            (Ok(paths), Some(architecture)) => texts(paths@) == library_dirs(architecture),
            (Err(_), None) => true,
            _ => false,
        },
{
    let architecture = FlatpakArchitecture::from_runtime_ref(runtime_ref)?;
    let libdir = architecture.runtime_libdir();
    let mut out: Vec<String> = Vec::new();
    out.push(concat("/usr/", &libdir));
    out.push("/usr/lib".to_string());
    out.push("/usr/lib64".to_string());
    assert(texts(out@) =~= library_dirs(architecture));
    Ok(out)
}

/// The variables that every application gets.
pub open spec fn base_variables(
    app_id: Seq<char>,
    wayland_display: Seq<char>,
    architecture: FlatpakArchitecture,
    uid: u32,
    user: Seq<char>,
    host_data_home: Seq<char>,
) -> Seq<(Seq<char>, Seq<char>)> {
    seq![
        ("HOME"@, "/var/data"@),
        ("USER"@, user),
        ("LOGNAME"@, user),
        ("SHELL"@, "/bin/sh"@),
        ("container"@, "flatpak"@),
        ("FLATPAK_ID"@, app_id),
        ("ZYPAK_ZYGOTE_STRATEGY_SPAWN"@, "false"@),
        ("XDG_RUNTIME_DIR"@, runtime_prefix(uid)),
        ("WAYLAND_DISPLAY"@, wayland_display),
        ("XDG_SESSION_TYPE"@, "wayland"@),
        ("LANG"@, "C.UTF-8"@),
        ("LC_ALL"@, "C.UTF-8"@),
        ("GDK_BACKEND"@, "wayland"@),
        ("GSK_RENDERER"@, "cairo"@),
        ("XDG_DATA_HOME"@, "/var/data"@),
        ("HOST_XDG_DATA_HOME"@, host_data_home),
        ("XDG_CONFIG_HOME"@, "/var/config"@),
        ("XDG_CACHE_HOME"@, "/var/cache"@),
        ("XDG_CONFIG_DIRS"@, "/app/etc/xdg:/etc/xdg"@),
        (
            "XDG_DATA_DIRS"@,
            "/app/share:/usr/share:/usr/share/runtime/share:/run/host/share"@,
        ),
        (
            "GI_TYPELIB_PATH"@,
            "/app/lib/girepository-1.0:/usr/"@ + architecture.spec_runtime_libdir()
                + "/girepository-1.0:/usr/lib/girepository-1.0"@,
        ),
        ("LD_LIBRARY_PATH"@, "/app/lib:/app/lib64:"@ + join(library_dirs(architecture), ":"@)),
        ("PATH"@, "/app/bin:/usr/bin:/bin"@),
    ]
}

/// The variables that an application gets in a session.
pub open spec fn session_variables(
    base: Seq<(Seq<char>, Seq<char>)>,
    session: SessionSettings,
) -> Seq<(Seq<char>, Seq<char>)> {
    let with_display = with_option(base, "DISPLAY"@, session.display);
    let with_desktop = with_host_value(
        with_display,
        "XDG_CURRENT_DESKTOP"@,
        session.current_desktop,
    );
    let with_session = with_host_value(
        with_desktop,
        "XDG_SESSION_DESKTOP"@,
        session.session_desktop,
    );
    let with_moz = with_host_value(
        with_session,
        "MOZ_ENABLE_WAYLAND"@,
        session.moz_enable_wayland,
    );
    let with_trace = with_host_value(
        with_moz,
        "FREEBSD_FLATPAK_TRACE_LINUX_COMPAT"@,
        session.trace_linux_compat,
    );
    with_option(with_trace, "DBUS_SESSION_BUS_ADDRESS"@, session.bus_address)
}

/// The variables that every application gets.
#[verifier::rlimit(60)]
fn base_env(
    app_id: &str,
    wayland_display: &str,
    architecture: FlatpakArchitecture,
    runtime_dir: &str,
    library_path: &str,
    user: &str,
    host_data_home: &FsPath,
    Ghost(uid): Ghost<u32>,
) -> (r: Vec<(String, String)>)
    requires
        runtime_dir@ == runtime_prefix(uid),
        library_path@ == "/app/lib:/app/lib64:"@ + join(library_dirs(architecture), ":"@),
    ensures
        pair_texts(r@) == base_variables(
            app_id@,
            wayland_display@,
            architecture,
            uid,
            user@,
            host_data_home@,
        ),
{
    let libdir = architecture.runtime_libdir();
    let typelib_path = concat3(
        "/app/lib/girepository-1.0:/usr/",
        &libdir,
        "/girepository-1.0:/usr/lib/girepository-1.0",
    );
    let mut env: Vec<(String, String)> = Vec::new();
    assert(pair_texts(env@) =~= Seq::<(Seq<char>, Seq<char>)>::empty());
    push_env(&mut env, "HOME", "/var/data");
    push_env(&mut env, "USER", user);
    push_env(&mut env, "LOGNAME", user);
    push_env(&mut env, "SHELL", "/bin/sh");
    push_env(&mut env, "container", "flatpak");
    push_env(&mut env, "FLATPAK_ID", app_id);
    push_env(&mut env, "ZYPAK_ZYGOTE_STRATEGY_SPAWN", "false");
    push_env(&mut env, "XDG_RUNTIME_DIR", runtime_dir);
    push_env(&mut env, "WAYLAND_DISPLAY", wayland_display);
    push_env(&mut env, "XDG_SESSION_TYPE", "wayland");
    push_env(&mut env, "LANG", "C.UTF-8");
    push_env(&mut env, "LC_ALL", "C.UTF-8");
    push_env(&mut env, "GDK_BACKEND", "wayland");
    push_env(&mut env, "GSK_RENDERER", "cairo");
    push_env(&mut env, "XDG_DATA_HOME", "/var/data");
    push_env(&mut env, "HOST_XDG_DATA_HOME", host_data_home.as_str());
    push_env(&mut env, "XDG_CONFIG_HOME", "/var/config");
    push_env(&mut env, "XDG_CACHE_HOME", "/var/cache");
    push_env(&mut env, "XDG_CONFIG_DIRS", "/app/etc/xdg:/etc/xdg");
    push_env(
        &mut env,
        "XDG_DATA_DIRS",
        "/app/share:/usr/share:/usr/share/runtime/share:/run/host/share",
    );
    push_env(&mut env, "GI_TYPELIB_PATH", &typelib_path);
    push_env(&mut env, "LD_LIBRARY_PATH", library_path);
    push_env(&mut env, "PATH", "/app/bin:/usr/bin:/bin");
    env
}

/// The environment that an application is started with, before the metadata is read. Zypak keeps
/// to the strategy that does not need the process namespaces of Linux.
pub fn launch_env(
    app: &FlatpakApp,
    session: &SessionSettings,
    uid: u32,
    user: &str,
    host_data_home: &FsPath,
) -> (r: Result<Vec<(String, String)>, UnsupportedArchitecture>)
    ensures
        match (r, runtime_architecture(app.runtime_ref@)) {
            (Ok(env), Some(architecture)) => pair_texts(env@) == session_variables(
                base_variables(
                    app.app_id@,
                    session.wayland_display@,
                    architecture,
                    uid,
                    user@,
                    host_data_home@,
                ),
                *session,
            ),
            (Err(_), None) => true,
            _ => false,
        },
{
    let architecture = FlatpakArchitecture::from_runtime_ref(&app.runtime_ref)?;
    let libraries = runtime_library_paths(&app.runtime_ref)?;
    let library_path = join_texts(libraries.as_slice(), ":");
    let library_path = concat("/app/lib:/app/lib64:", &library_path);
    let id = render_u64(uid as u64);
    let runtime_dir = concat("/run/user/", &id);
    let mut env = base_env(
        &app.app_id,
        &session.wayland_display,
        architecture,
        &runtime_dir,
        &library_path,
        user,
        host_data_home,
        Ghost(uid),
    );
    push_optional_env(&mut env, "DISPLAY", &session.display);
    push_host_env(&mut env, "XDG_CURRENT_DESKTOP", &session.current_desktop);
    push_host_env(&mut env, "XDG_SESSION_DESKTOP", &session.session_desktop);
    push_host_env(&mut env, "MOZ_ENABLE_WAYLAND", &session.moz_enable_wayland);
    push_host_env(&mut env, "FREEBSD_FLATPAK_TRACE_LINUX_COMPAT", &session.trace_linux_compat);
    push_optional_env(&mut env, "DBUS_SESSION_BUS_ADDRESS", &session.bus_address);
    Ok(env)
}

} // verus!
