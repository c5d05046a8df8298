//! What the broker decides that starts programs for a sandbox.

use crate::bytes::{byte_views, bytes_text, text_in};
use crate::flatpak_metadata::pair_texts;
use crate::launch_request::{bytes_view, LaunchRequest};
use crate::mount_operations::{MountView, OwnedMount};
use crate::override_laws::{lemma_lines_no_break, lemma_lines_of_chomped, no_break};
use crate::numbers::{decimal, render_u64};
use crate::order::{sort_by, sorted};
use crate::path::{components, file_name_of, joined, parent_of, path_after, within, FsPath};
use crate::secure_launch::map_nested_fds;
use crate::spawn_protocol::{byte_pairs, SpawnRequest, SpawnView};
use crate::static_overrides::ended_lines;
use crate::text::{
    chomp, concat, concat3, last_index, lemma_trim, lemma_views_push, lines, rsplit_text_once,
    split_lines, text_eq, texts, trim, trim_text, views,
};
use vstd::prelude::*;

verus! {

pub const SPAWN_CLEAR_ENVIRONMENT: u32 = 0x01;

pub const SPAWN_SANDBOX: u32 = 0x04;

pub const SPAWN_NO_NETWORK: u32 = 0x08;

pub const SPAWN_WATCH_BUS: u32 = 0x10;

pub const SPAWN_EXPOSE_PIDS: u32 = 0x20;

pub const SPAWN_NOTIFY_START: u32 = 0x40;

pub const SPAWN_SUPPORTED_FLAGS: u32 = 0x7f;

/// Whether a program can be started with the flags.
pub fn spawn_flags_supported(flags: u32) -> (r: bool)
    ensures
        r == (flags & !SPAWN_SUPPORTED_FLAGS == 0),
        r == (flags < 0x80),
{
    assert((flags & !0x7fu32 == 0) == (flags < 0x80)) by (bit_vector);
    flags & !SPAWN_SUPPORTED_FLAGS == 0
}

/// Whether all flags in `bit` are set.
pub open spec fn has_flag(flags: u32, bit: u32) -> bool {
    flags & bit != 0
}

/// The value that the last addition gives a variable.
pub open spec fn set_variable(
    environment: Seq<(Seq<char>, Seq<char>)>,
    key: Seq<char>,
    value: Seq<char>,
) -> Seq<(Seq<char>, Seq<char>)> {
    match variable_place(environment, key, 0) {
        Some(i) => environment.update(i, (environment[i].0, value)),
        None => environment.push((key, value)),
    }
}

/// Where a variable first stands.
pub open spec fn variable_place(
    environment: Seq<(Seq<char>, Seq<char>)>,
    key: Seq<char>,
    from: int,
) -> Option<int>
    decreases environment.len() - from,
{
    if from >= environment.len() {
        None
    } else if environment[from].0 == key {
        Some(from)
    } else {
        variable_place(environment, key, from + 1)
    }
}

/// The inherited variables with the additions; an addition takes the place of what was there. None
/// where an addition is not UTF-8.
pub open spec fn merged_variables(
    inherited: Seq<(Seq<char>, Seq<char>)>,
    additions: Seq<(Seq<u8>, Seq<u8>)>,
) -> Option<Seq<(Seq<char>, Seq<char>)>>
    decreases additions.len(),
{
    if additions.len() == 0 {
        Some(inherited)
    } else {
        match (
            merged_variables(inherited, additions.drop_last()),
            text_in(additions.last().0),
            text_in(additions.last().1),
        ) {
            (Some(before), Some(key), Some(value)) => Some(set_variable(before, key, value)),
            _ => None,
        }
    }
}

/// Gives a variable a value in place of the one it may have had.
pub fn set_env(environment: &mut Vec<(String, String)>, key: String, value: String)
    ensures
        pair_texts(final(environment)@) == set_variable(
            pair_texts(old(environment)@),
            key@,
            value@,
        ),
{
    let ghost all = pair_texts(environment@);
    let mut i: usize = 0;
    while i < environment.len()
        invariant
            i <= environment@.len(),
            pair_texts(environment@) == all,
            all == pair_texts(old(environment)@),
            variable_place(all, key@, 0) == variable_place(all, key@, i as int),
        decreases environment@.len() - i,
    {
        assert(all[i as int] == (environment@[i as int].0@, environment@[i as int].1@));
        if text_eq(&environment[i].0, &key) {
            let pair = (environment[i].0.clone(), value);
            environment.set(i, pair);
            assert(pair_texts(environment@) =~= all.update(i as int, (pair.0@, pair.1@)));
            return;
        }
        i += 1;
    }
    assert(all.len() == environment@.len());
    let pair = (key, value);
    environment.push(pair);
    assert(pair_texts(environment@) =~= all.push((pair.0@, pair.1@)));
}

pub fn copy_env(environment: &[(String, String)]) -> (r: Vec<(String, String)>)
    ensures
        pair_texts(r@) == pair_texts(environment@),
{
    let ghost all = pair_texts(environment@);
    let mut out: Vec<(String, String)> = Vec::new();
    let mut i: usize = 0;
    assert(pair_texts(out@) =~= all.take(0));
    while i < environment.len()
        invariant
            i <= environment@.len(),
            all == pair_texts(environment@),
            pair_texts(out@) == all.take(i as int),
        decreases environment@.len() - i,
    {
        let pair = (environment[i].0.clone(), environment[i].1.clone());
        let ghost before = out@;
        out.push(pair);
        assert(pair_texts(out@) =~= pair_texts(before).push((pair.0@, pair.1@)));
        assert(all.take(i + 1) =~= all.take(i as int).push((pair.0@, pair.1@)));
        i += 1;
    }
    assert(all.take(i as int) =~= all);
    out
}

proof fn lemma_merge_fails(
    inherited: Seq<(Seq<char>, Seq<char>)>,
    additions: Seq<(Seq<u8>, Seq<u8>)>,
    n: int,
)
    requires
        0 <= n <= additions.len(),
        merged_variables(inherited, additions.take(n)) is None,
    ensures
        merged_variables(inherited, additions) is None,
    decreases additions.len() - n,
{
    if n == additions.len() {
        assert(additions.take(n) =~= additions);
    } else {
        assert(additions.take(n + 1).drop_last() =~= additions.take(n));
        lemma_merge_fails(inherited, additions, n + 1);
    }
}

/// The inherited variables with the additions, if those are UTF-8.
pub fn merge_environment(
    inherited: &[(String, String)],
    additions: &[(Vec<u8>, Vec<u8>)],
) -> (r: Option<Vec<(String, String)>>)
    ensures
        r is Some <==> merged_variables(
            pair_texts(inherited@),
            byte_pairs(additions@),
        ) is Some,
        r matches Some(merged) ==> merged_variables(
            pair_texts(inherited@),
            byte_pairs(additions@),
        ) == Some(pair_texts(merged@)),
{
    let ghost start = pair_texts(inherited@);
    let ghost all = byte_pairs(additions@);
    let mut environment = copy_env(inherited);
    let mut i: usize = 0;
    assert(all.take(0) =~= Seq::<(Seq<u8>, Seq<u8>)>::empty());
    while i < additions.len()
        invariant
            i <= additions@.len(),
            all == byte_pairs(additions@),
            start == pair_texts(inherited@),
            merged_variables(start, all.take(i as int)) == Some(pair_texts(environment@)),
        decreases additions@.len() - i,
    {
        proof {
            let next = all.take(i + 1);
            assert(next.drop_last() =~= all.take(i as int));
            assert(next.last() == (additions@[i as int].0@, additions@[i as int].1@));
        }
        match (
            bytes_text(additions[i].0.as_slice()),
            bytes_text(additions[i].1.as_slice()),
        ) {
            (Some(key), Some(value)) => {
                set_env(&mut environment, key, value);
            },
            _ => {
                proof {
                    lemma_merge_fails(start, all, i + 1);
                }
                return None;
            },
        }
        i += 1;
    }
    assert(all.take(i as int) =~= all);
    Some(environment)
}

/// A variable that was set has the value, and no other variable is changed.
pub proof fn lemma_set_variable(
    environment: Seq<(Seq<char>, Seq<char>)>,
    key: Seq<char>,
    value: Seq<char>,
)
    ensures
        exists|i: int|
            0 <= i < set_variable(environment, key, value).len() && #[trigger] set_variable(
                environment,
                key,
                value,
            )[i] == (key, value),
        forall|i: int|
            0 <= i < environment.len() && (#[trigger] environment[i]).0 != key ==> set_variable(
                environment,
                key,
                value,
            )[i] == environment[i],
{
    lemma_variable_place(environment, key, 0);
    let after = set_variable(environment, key, value);
    match variable_place(environment, key, 0) {
        Some(i) => {
            assert(after[i] == (key, value));
        },
        None => {
            assert(after[environment.len() as int] == (key, value));
        },
    }
}

pub proof fn lemma_variable_place(
    environment: Seq<(Seq<char>, Seq<char>)>,
    key: Seq<char>,
    from: int,
)
    requires
        0 <= from,
    ensures
        match variable_place(environment, key, from) {
            Some(i) => from <= i < environment.len() && environment[i].0 == key,
            None => forall|i: int|
                from <= i < environment.len() ==> (#[trigger] environment[i]).0 != key,
        },
    decreases environment.len() - from,
{
    if from < environment.len() && environment[from].0 != key {
        lemma_variable_place(environment, key, from + 1);
    }
}

/// Whether a line marks an instance as restricted.
pub open spec fn marks_restricted(line: Seq<char>) -> bool {
    trim(line) == "sandbox=true"@
}

/// The lines, each ended by a line feed; the mark follows the first line that opens the section
/// of the instance.
pub open spec fn marked_lines(ls: Seq<Seq<char>>) -> Seq<char>
    decreases ls.len(),
{
    if ls.len() == 0 {
        Seq::empty()
    } else {
        let before = marked_lines(ls.drop_last()) + ls.last() + "\n"@;
        if trim(ls.last()) == "[Instance]"@ && !opens_instance(ls.drop_last()) {
            before + "sandbox=true\n"@
        } else {
            before
        }
    }
}

/// Whether a line opens the section of the instance.
pub open spec fn opens_instance(ls: Seq<Seq<char>>) -> bool {
    exists|i: int| 0 <= i < ls.len() && trim(#[trigger] ls[i]) == "[Instance]"@
}

/// Whether the lines mark the instance as restricted.
pub open spec fn is_marked(ls: Seq<Seq<char>>) -> bool {
    exists|i: int| 0 <= i < ls.len() && marks_restricted(#[trigger] ls[i])
}

/// The description of an instance, marked as restricted.
pub open spec fn restricted(info: Seq<char>) -> Seq<char> {
    let ls = lines(info);
    if is_marked(ls) {
        info
    } else if opens_instance(ls) {
        marked_lines(ls)
    } else {
        marked_lines(ls) + "[Instance]\nsandbox=true\n"@
    }
}

/// The description of an instance, marked as restricted.
pub fn restricted_flatpak_info(info: &str) -> (r: String)
    ensures
        r@ == restricted(info@),
{
    let ls = split_lines(info);
    let ghost all = texts(ls@);
    let mut i: usize = 0;
    while i < ls.len()
        invariant
            i <= ls@.len(),
            all == texts(ls@),
            all == lines(info@),
            forall|j: int| 0 <= j < i ==> !marks_restricted(#[trigger] all[j]),
        decreases ls@.len() - i,
    {
        assert(all[i as int] == ls@[i as int]@);
        let line = trim_text(&ls[i]);
        if text_eq(&line, "sandbox=true") {
            assert(marks_restricted(all[i as int]));
            return info.to_owned();
        }
        i += 1;
    }
    let mut out = String::new();
    let mut inserted = false;
    let mut k: usize = 0;
    assert(all.take(0) =~= Seq::<Seq<char>>::empty());
    while k < ls.len()
        invariant
            k <= ls@.len(),
            all == texts(ls@),
            out@ == marked_lines(all.take(k as int)),
            inserted == opens_instance(all.take(k as int)),
        decreases ls@.len() - k,
    {
        let ghost before = all.take(k as int);
        let ghost next = all.take(k + 1);
        proof {
            assert(next.drop_last() =~= before);
            assert(next.last() == ls@[k as int]@);
            assert(opens_instance(next) <==> opens_instance(before) || trim(ls@[k as int]@)
                == "[Instance]"@) by {
                if opens_instance(before) {
                    let j = choose|j: int|
                        0 <= j < before.len() && trim(#[trigger] before[j]) == "[Instance]"@;
                    assert(next[j] == before[j]);
                }
                if trim(ls@[k as int]@) == "[Instance]"@ {
                    assert(trim(next[k as int]) == "[Instance]"@);
                }
                if opens_instance(next) {
                    let j = choose|j: int|
                        0 <= j < next.len() && trim(#[trigger] next[j]) == "[Instance]"@;
                    if j < k {
                        assert(before[j] == next[j]);
                    }
                }
            }
        }
        out.append(&ls[k]);
        out.append("\n");
        let line = trim_text(&ls[k]);
        if !inserted && text_eq(&line, "[Instance]") {
            out.append("sandbox=true\n");
            inserted = true;
        }
        k += 1;
    }
    assert(all.take(k as int) =~= all);
    if !inserted {
        out.append("[Instance]\nsandbox=true\n");
    }
    out
}

/// The lines with the mark after the first that opens the section of the instance.
spec fn with_mark(ls: Seq<Seq<char>>) -> Seq<Seq<char>>
    decreases ls.len(),
{
    if ls.len() == 0 {
        ls
    } else {
        let before = with_mark(ls.drop_last()).push(ls.last());
        if trim(ls.last()) == "[Instance]"@ && !opens_instance(ls.drop_last()) {
            before.push("sandbox=true"@)
        } else {
            before
        }
    }
}

proof fn lemma_with_mark(ls: Seq<Seq<char>>)
    requires
        forall|i: int| 0 <= i < ls.len() ==> no_break(#[trigger] ls[i]),
    ensures
        marked_lines(ls) == ended_lines(with_mark(ls)),
        forall|i: int| 0 <= i < with_mark(ls).len() ==> no_break(#[trigger] with_mark(ls)[i]),
        opens_instance(ls) ==> with_mark(ls).contains("sandbox=true"@),
    decreases ls.len(),
{
    reveal_strlit("sandbox=true");
    reveal_strlit("sandbox=true\n");
    reveal_strlit("\n");
    if ls.len() > 0 {
        let head = ls.drop_last();
        assert forall|i: int| 0 <= i < head.len() implies no_break(#[trigger] head[i]) by {
            assert(head[i] == ls[i]);
        }
        lemma_with_mark(head);
        let before = with_mark(head).push(ls.last());
        assert(before.drop_last() =~= with_mark(head));
        assert(no_break(ls[ls.len() - 1]));
        let after = before.push("sandbox=true"@);
        assert(after.drop_last() =~= before);
        assert("sandbox=true\n"@ =~= "sandbox=true"@ + "\n"@);
        assert(ended_lines(after) =~= ended_lines(before) + "sandbox=true\n"@);
        let all = with_mark(ls);
        assert forall|i: int| 0 <= i < all.len() implies no_break(#[trigger] all[i]) by {
            if i < with_mark(head).len() {
                assert(all[i] == with_mark(head)[i]);
            }
        }
        if opens_instance(ls) {
            if opens_instance(head) {
                let i = choose|i: int|
                    0 <= i < with_mark(head).len() && with_mark(head)[i] == "sandbox=true"@;
                assert(all[i] == "sandbox=true"@);
            } else {
                let i = choose|i: int| 0 <= i < ls.len() && trim(#[trigger] ls[i])
                    == "[Instance]"@;
                if i < head.len() {
                    assert(head[i] == ls[i]);
                }
                assert(all[all.len() - 1] == "sandbox=true"@);
            }
        }
    } else {
        assert(ended_lines(with_mark(ls)) =~= Seq::<char>::empty());
    }
}

proof fn lemma_mark_is_read(ls: Seq<Seq<char>>, i: int)
    requires
        forall|i: int| 0 <= i < ls.len() ==> no_break(#[trigger] ls[i]),
        0 <= i < ls.len(),
        ls[i] == "sandbox=true"@,
    ensures
        restricted(ended_lines(ls)) == ended_lines(ls),
{
    reveal_strlit("sandbox=true");
    lemma_lines_of_chomped(ls);
    let mark = "sandbox=true"@;
    let read = lines(ended_lines(ls));
    assert(mark[0] == 's' && mark[11] == 'e' && mark.len() == 12);
    lemma_trim(mark);
    assert(read[i] == mark);
    assert(marks_restricted(read[i]));
}

proof fn lemma_section_ended(all: Seq<Seq<char>>)
    ensures
        ended_lines(all.push("[Instance]"@).push("sandbox=true"@)) == ended_lines(all)
            + "[Instance]\nsandbox=true\n"@,
{
    reveal_strlit("sandbox=true");
    reveal_strlit("[Instance]");
    reveal_strlit("[Instance]\nsandbox=true\n");
    reveal_strlit("\n");
    let first = all.push("[Instance]"@);
    let more = first.push("sandbox=true"@);
    assert(first.drop_last() =~= all);
    assert(more.drop_last() =~= first);
    assert("[Instance]\nsandbox=true\n"@ =~= "[Instance]"@ + "\n"@ + "sandbox=true"@ + "\n"@);
    assert(ended_lines(first) == ended_lines(all) + "[Instance]"@ + "\n"@);
    assert(ended_lines(more) == ended_lines(first) + "sandbox=true"@ + "\n"@);
    assert(ended_lines(more) =~= ended_lines(all) + "[Instance]\nsandbox=true\n"@);
}

/// A description that was marked as restricted is not changed by marking it again.
pub proof fn lemma_restricted_idempotent(info: Seq<char>)
    ensures
        restricted(restricted(info)) == restricted(info),
{
    let ls = lines(info);
    lemma_lines_no_break(info);
    if !is_marked(ls) {
        lemma_with_mark(ls);
        let all = with_mark(ls);
        if opens_instance(ls) {
            let i = choose|i: int| 0 <= i < all.len() && all[i] == "sandbox=true"@;
            lemma_mark_is_read(all, i);
        } else {
            reveal_strlit("sandbox=true");
            reveal_strlit("[Instance]");
            let more = all.push("[Instance]"@).push("sandbox=true"@);
            lemma_section_ended(all);
            assert forall|i: int| 0 <= i < more.len() implies no_break(#[trigger] more[i]) by {
                if i < all.len() {
                    assert(more[i] == all[i]);
                }
            }
            lemma_mark_is_read(more, more.len() - 1);
        }
    }
}

/// The lines that marking an instance as restricted adds to those that describe it.
pub open spec fn added_lines(ls: Seq<Seq<char>>) -> Seq<Seq<char>> {
    if is_marked(ls) {
        Seq::empty()
    } else if opens_instance(ls) {
        seq!["sandbox=true"@]
    } else {
        seq!["[Instance]"@, "sandbox=true"@]
    }
}

/// Whether the added lines stand behind the first `at` lines: these end with the first line that
/// opens the section of the instance, or are all, where none opens it.
pub open spec fn stand_behind(ls: Seq<Seq<char>>, at: int) -> bool {
    &&& 0 <= at <= ls.len()
    &&& if opens_instance(ls) {
        at > 0 && trim(ls[at - 1]) == "[Instance]"@ && !opens_instance(ls.take(at - 1))
    } else {
        at == ls.len()
    }
}

proof fn lemma_opens_extended(ls: Seq<Seq<char>>)
    requires
        ls.len() > 0,
    ensures
        opens_instance(ls) <==> opens_instance(ls.drop_last()) || trim(ls.last())
            == "[Instance]"@,
{
    let head = ls.drop_last();
    if opens_instance(head) {
        let j = choose|j: int| 0 <= j < head.len() && trim(#[trigger] head[j]) == "[Instance]"@;
        assert(ls[j] == head[j]);
    }
    if trim(ls.last()) == "[Instance]"@ {
        assert(trim(ls[ls.len() - 1]) == "[Instance]"@);
    }
    if opens_instance(ls) {
        let j = choose|j: int| 0 <= j < ls.len() && trim(#[trigger] ls[j]) == "[Instance]"@;
        if j < head.len() {
            assert(head[j] == ls[j]);
        }
    }
}

proof fn lemma_mark_place(ls: Seq<Seq<char>>) -> (at: int)
    ensures
        stand_behind(ls, at),
        with_mark(ls) == ls.take(at) + (if opens_instance(ls) {
            seq!["sandbox=true"@]
        } else {
            Seq::empty()
        }) + ls.skip(at),
    decreases ls.len(),
{
    if ls.len() == 0 {
        assert(!opens_instance(ls));
        assert(with_mark(ls) =~= ls.take(0) + Seq::<Seq<char>>::empty() + ls.skip(0));
        0
    } else {
        let head = ls.drop_last();
        let n = ls.len() as int;
        lemma_opens_extended(ls);
        let at = lemma_mark_place(head);
        if opens_instance(head) {
            assert(ls.take(at - 1) =~= head.take(at - 1));
            assert(with_mark(ls) =~= ls.take(at) + seq!["sandbox=true"@] + ls.skip(at));
            at
        } else {
            assert(ls.take(n - 1) =~= head);
            assert(with_mark(head) =~= head);
            if opens_instance(ls) {
                assert(with_mark(ls) =~= ls.take(n) + seq!["sandbox=true"@] + ls.skip(n));
            } else {
                assert(with_mark(ls) =~= ls.take(n) + Seq::<Seq<char>>::empty() + ls.skip(n));
            }
            n
        }
    }
}

/// A description that was marked as restricted says so on a line of its own. Every line that it
/// had is still there, in the same order; at most the mark is new, and before it the line that
/// opens its section. Only a carriage return at the end of a line can get lost with that.
pub proof fn lemma_restricted_is_marked(info: Seq<char>)
    ensures
        is_marked(lines(restricted(info))),
        is_marked(lines(info)) || (forall|i: int|
            0 <= i < lines(info).len() ==> chomp(#[trigger] lines(info)[i]) == lines(info)[i])
            ==> exists|at: int| #[trigger]
            stand_behind(lines(info), at) && lines(restricted(info)) == lines(info).take(at)
                + added_lines(lines(info)) + lines(info).skip(at),
{
    reveal_strlit("sandbox=true");
    reveal_strlit("[Instance]");
    let ls = lines(info);
    let mark = "sandbox=true"@;
    let section = "[Instance]"@;
    assert(mark[0] == 's' && mark[11] == 'e' && mark.len() == 12);
    assert(section[0] == '[' && section[9] == ']' && section.len() == 10);
    lemma_trim(mark);
    lemma_lines_no_break(info);
    let at = lemma_mark_place(ls);
    if is_marked(ls) {
        assert(ls.take(at) + Seq::<Seq<char>>::empty() + ls.skip(at) =~= ls);
    } else {
        lemma_with_mark(ls);
        let all = with_mark(ls);
        let written = if opens_instance(ls) {
            all
        } else {
            all.push(section).push(mark)
        };
        let m = if opens_instance(ls) {
            at
        } else {
            all.len() as int + 1
        };
        if !opens_instance(ls) {
            lemma_section_ended(all);
        }
        assert(restricted(info) == ended_lines(written));
        assert forall|i: int| 0 <= i < written.len() implies no_break(#[trigger] written[i]) by {
            if i < all.len() {
                assert(written[i] == all[i]);
            }
        }
        lemma_lines_of_chomped(written);
        let read = lines(restricted(info));
        assert(written[m] == mark);
        assert(read[m] == mark);
        assert(marks_restricted(read[m]));
        if forall|i: int| 0 <= i < ls.len() ==> chomp(#[trigger] ls[i]) == ls[i] {
            let wanted = ls.take(at) + added_lines(ls) + ls.skip(at);
            assert(written =~= wanted);
            assert forall|i: int| 0 <= i < wanted.len() implies chomp(#[trigger] wanted[i])
                == wanted[i] by {
                if i < at {
                    assert(wanted[i] == ls[i]);
                } else if i >= at + added_lines(ls).len() {
                    assert(wanted[i] == ls[i - added_lines(ls).len()]);
                }
            }
            assert(read =~= wanted);
        }
    }
}

/// A running sandbox, as far as starting programs in it needs to know.
#[derive(Debug)]
pub struct SandboxExecutionContext {
    pub app_id: String,
    pub root: FsPath,
    pub runtime_root: FsPath,
    pub uid: u32,
    pub gid: u32,
    pub supplementary_gids: Vec<u32>,
    pub environment: Vec<(String, String)>,
    pub mounts: Vec<OwnedMount>,
    pub nested_mounts: Vec<OwnedMount>,
}

/// Why a root directory has no broker.
#[derive(Debug, Clone, Copy, PartialEq, Eq, Structural)]
pub enum BrokerPathError {
    OutsideChroots,
    NoAppId,
    NoInstanceId,
    NotInstanceRoot,
}

impl BrokerPathError {
    pub fn message(self) -> (r: &'static str)
        ensures
            r@ == (match self {
                BrokerPathError::OutsideChroots => "broker root is outside chroots"@,
                BrokerPathError::NoAppId => "broker root has no app id"@,
                BrokerPathError::NoInstanceId => "broker root has no instance id"@,
                BrokerPathError::NotInstanceRoot => "broker root is not an instance root"@,
            }),
    {
        match self {
            BrokerPathError::OutsideChroots => "broker root is outside chroots",
            BrokerPathError::NoAppId => "broker root has no app id",
            BrokerPathError::NoInstanceId => "broker root has no instance id",
            BrokerPathError::NotInstanceRoot => "broker root is not an instance root",
        }
    }
}

/// A name without what follows its last dot; a dot at the front is part of the name.
pub open spec fn stem(name: Seq<char>) -> Seq<char> {
    if last_index(name, '.') > 0 {
        name.take(last_index(name, '.'))
    } else {
        name
    }
}

/// The name of the socket of an instance. A component that leads to the parent directory names no
/// file, so nothing is put behind it.
pub open spec fn socket_name(instance: Seq<char>) -> Seq<char> {
    if instance == ".."@ {
        instance
    } else {
        stem(instance) + ".sock"@
    }
}

/// The socket of the broker of an instance.
pub open spec fn socket_path(
    chroots: Seq<char>,
    brokers: Seq<char>,
    root: Seq<char>,
) -> Result<Seq<char>, BrokerPathError> {
    if !within(root, chroots) {
        Err(BrokerPathError::OutsideChroots)
    } else {
        let parts = components(root).skip(components(chroots).len() as int);
        if parts.len() == 0 {
            Err(BrokerPathError::NoAppId)
        } else if parts.len() == 1 {
            Err(BrokerPathError::NoInstanceId)
        } else if parts.len() > 2 {
            Err(BrokerPathError::NotInstanceRoot)
        } else {
            Ok(joined(brokers, socket_name(parts[1])))
        }
    }
}

/// The socket of the broker of an instance. It lies outside the instance's root directory.
pub fn broker_path(chroots: &FsPath, brokers: &FsPath, root: &FsPath) -> (r: Result<
    FsPath,
    BrokerPathError,
>)
    ensures
        match socket_path(chroots@, brokers@, root@) {
            Ok(p) => r matches Ok(path) && path@ == p,
            Err(e) => r matches Err(got) && got == e,
        },
{
    let relative = match root.strip_prefix(chroots) {
        Some(relative) => relative,
        None => {
            return Err(BrokerPathError::OutsideChroots);
        },
    };
    let parts = relative.components();
    let ghost all = components(root@).skip(components(chroots@).len() as int);
    assert(texts(parts@) == all);
    assert(all.len() == parts@.len());
    if parts.len() == 0 {
        return Err(BrokerPathError::NoAppId);
    }
    if parts.len() == 1 {
        return Err(BrokerPathError::NoInstanceId);
    }
    if parts.len() > 2 {
        return Err(BrokerPathError::NotInstanceRoot);
    }
    assert(all[1] == parts@[1]@);
    if text_eq(&parts[1], "..") {
        return Ok(brokers.join(&parts[1]));
    }
    let name = match rsplit_text_once(&parts[1], '.') {
        Some((before, _)) => if before.as_str().unicode_len() > 0 {
            before
        } else {
            parts[1].clone()
        },
        None => parts[1].clone(),
    };
    proof {
        crate::text::lemma_last_index(parts@[1]@, '.');
        assert(name@ == stem(parts@[1]@));
    }
    let file = concat(&name, ".sock");
    Ok(brokers.join(&file))
}

/// Instances whose names hold no dot have sockets of their own.
pub proof fn lemma_sockets_distinct(a: Seq<char>, b: Seq<char>)
    requires
        !a.contains('.'),
        !b.contains('.'),
        a != b,
    ensures
        socket_name(a) != socket_name(b),
{
    reveal_strlit("..");
    if a == ".."@ {
        assert(a.contains(a[0]));
    }
    if b == ".."@ {
        assert(b.contains(b[0]));
    }
    crate::text::lemma_last_index(a, '.');
    crate::text::lemma_last_index(b, '.');
    if last_index(a, '.') >= 0 {
        assert(a.contains(a[last_index(a, '.')]));
    }
    if last_index(b, '.') >= 0 {
        assert(b.contains(b[last_index(b, '.')]));
    }
    if stem(a) + ".sock"@ == stem(b) + ".sock"@ {
        let s = ".sock"@;
        assert((a + s).len() == (b + s).len());
        assert(a =~= (a + s).take(a.len() as int));
        assert(b =~= (b + s).take(a.len() as int));
    }
}

/// How a program is started in a running sandbox.
#[derive(Debug)]
pub struct SpawnPlan {
    pub nested_sandbox: bool,
    pub no_network: bool,
    pub notify_start: bool,
    pub cwd: Option<Vec<u8>>,
    pub argv: Vec<Vec<u8>>,
    pub environment: Vec<(String, String)>,
    /// The first number from which on descriptors are kept before they are put in their places.
    pub minimum_source: i32,
    pub targets: Vec<i32>,
}

/// Why a program is not started.
#[derive(Debug, Clone, Copy, PartialEq, Eq, Structural)]
pub enum SpawnRefusal {
    UnsupportedFlags,
    RelativeDirectory,
    EnvironmentNotUtf8,
}

impl SpawnRefusal {
    pub fn message(self) -> (r: &'static str)
        ensures
            r@ == (match self {
                SpawnRefusal::UnsupportedFlags => "unsupported nested Spawn flags"@,
                SpawnRefusal::RelativeDirectory => "Spawn cwd must be absolute"@,
                SpawnRefusal::EnvironmentNotUtf8 => "Spawn environment is not UTF-8"@,
            }),
    {
        match self {
            SpawnRefusal::UnsupportedFlags => "unsupported nested Spawn flags",
            SpawnRefusal::RelativeDirectory => "Spawn cwd must be absolute",
            SpawnRefusal::EnvironmentNotUtf8 => "Spawn environment is not UTF-8",
        }
    }
}

/// The variables that a program inherits from the sandbox.
pub open spec fn inherited(
    environment: Seq<(Seq<char>, Seq<char>)>,
    flags: u32,
) -> Seq<(Seq<char>, Seq<char>)> {
    if has_flag(flags, SPAWN_CLEAR_ENVIRONMENT) {
        Seq::empty()
    } else {
        environment
    }
}

/// Why a request is refused.
pub open spec fn spawn_refusal(
    environment: Seq<(Seq<char>, Seq<char>)>,
    request: SpawnView,
) -> Option<SpawnRefusal> {
    if request.flags & !SPAWN_SUPPORTED_FLAGS != 0 {
        Some(SpawnRefusal::UnsupportedFlags)
    } else if request.cwd matches Some(cwd) && !(cwd.len() > 0 && cwd[0] == 0x2f) {
        Some(SpawnRefusal::RelativeDirectory)
    } else if merged_variables(
        inherited(environment, request.flags),
        request.environment,
    ) is None {
        Some(SpawnRefusal::EnvironmentNotUtf8)
    } else {
        None
    }
}

/// How a request to start a program is carried out.
pub fn spawn_in_existing_sandbox(
    context: &SandboxExecutionContext,
    request: SpawnRequest,
) -> (r: Result<SpawnPlan, SpawnRefusal>)
    ensures
        match spawn_refusal(pair_texts(context.environment@), request@) {
            Some(refusal) => r matches Err(e) && e == refusal,
            None => r matches Ok(plan) && {
                &&& plan.nested_sandbox == has_flag(request@.flags, SPAWN_SANDBOX)
                &&& plan.no_network == has_flag(request@.flags, SPAWN_NO_NETWORK)
                &&& plan.notify_start == has_flag(request@.flags, SPAWN_NOTIFY_START)
                &&& bytes_view(plan.cwd) == request@.cwd
                &&& byte_views(plan.argv@) == request@.argv
                &&& merged_variables(
                    inherited(pair_texts(context.environment@), request@.flags),
                    request@.environment,
                ) == Some(pair_texts(plan.environment@))
                &&& plan.targets@ == request@.targets
                &&& plan.minimum_source == (if crate::secure_launch::largest(request@.targets)
                    == i32::MAX || crate::secure_launch::largest(request@.targets) < 2 {
                    3int
                } else {
                    crate::secure_launch::largest(request@.targets) + 1
                })
            },
        },
{
    if !spawn_flags_supported(request.flags) {
        return Err(SpawnRefusal::UnsupportedFlags);
    }
    if let Some(cwd) = &request.cwd {
        if !(cwd.len() > 0 && cwd[0] == 0x2f) {
            return Err(SpawnRefusal::RelativeDirectory);
        }
    }
    let nested_sandbox = request.flags & SPAWN_SANDBOX != 0;
    let no_network = request.flags & SPAWN_NO_NETWORK != 0;
    let notify_start = request.flags & SPAWN_NOTIFY_START != 0;
    let merged = if request.flags & SPAWN_CLEAR_ENVIRONMENT != 0 {
        let none: Vec<(String, String)> = Vec::new();
        assert(pair_texts(none@) =~= Seq::<(Seq<char>, Seq<char>)>::empty());
        merge_environment(none.as_slice(), request.environment.as_slice())
    } else {
        merge_environment(context.environment.as_slice(), request.environment.as_slice())
    };
    let environment = match merged {
        Some(environment) => environment,
        None => {
            return Err(SpawnRefusal::EnvironmentNotUtf8);
        },
    };
    let minimum_source: i32 = map_nested_fds(request.targets.as_slice());
    Ok(
        SpawnPlan {
            nested_sandbox,
            no_network,
            notify_start,
            cwd: request.cwd,
            argv: request.argv,
            environment,
            minimum_source,
            targets: request.targets,
        },
    )
}

/// The request to the launch helper that carries out a plan in the root directory.
pub fn spawn_launch_request(
    context: &SandboxExecutionContext,
    plan: SpawnPlan,
    root: Vec<u8>,
    runtime_root: Vec<u8>,
    root_device: u64,
    root_inode: u64,
) -> (r: LaunchRequest)
    ensures
        r.root@ == root@,
        r.runtime_root@ == runtime_root@,
        r.root_device == root_device,
        r.root_inode == root_inode,
        r.uid == context.uid,
        r.gid == context.gid,
        r.supplementary_gids@ == context.supplementary_gids@,
        r.mapped_fds@ == plan.targets@,
        bytes_view(r.cwd) == bytes_view(plan.cwd),
        r.nested_sandbox == plan.nested_sandbox,
        r.no_network == plan.no_network,
        r.environment@ == plan.environment@,
        r.argv@ == plan.argv@,
{
    let mut groups: Vec<u32> = Vec::new();
    groups.extend_from_slice(context.supplementary_gids.as_slice());
    assert(groups@ =~= context.supplementary_gids@);
    LaunchRequest {
        root,
        runtime_root,
        root_device,
        root_inode,
        uid: context.uid,
        gid: context.gid,
        supplementary_gids: groups,
        mapped_fds: plan.targets,
        cwd: plan.cwd,
        nested_sandbox: plan.nested_sandbox,
        no_network: plan.no_network,
        environment: plan.environment,
        argv: plan.argv,
    }
}

/// The name of a nested instance.
pub open spec fn nested_name(parent: Seq<char>, pid: nat, sequence: nat) -> Seq<char> {
    parent + "-nested-"@ + decimal(pid) + "-"@ + decimal(sequence)
}

/// Where a nested instance of a sandbox has its root directory: beside that of the sandbox.
#[derive(Debug)]
pub struct NestedInstance {
    pub instance_id: String,
    pub root: FsPath,
}

/// The nested instance with a number; none where the sandbox's root directory has no name or no
/// parent.
pub fn nested_instance(context_root: &FsPath, pid: u32, sequence: u64) -> (r: Option<
    NestedInstance,
>)
    ensures
        r is Some <==> parent_of(context_root@) is Some && file_name_of(context_root@) is Some,
        r matches Some(n) ==> n.instance_id@ == nested_name(
            file_name_of(context_root@)->0,
            pid as nat,
            sequence as nat,
        ) && n.root@ == joined(parent_of(context_root@)->0, n.instance_id@),
{
    let app_root = match context_root.parent() {
        Some(parent) => parent,
        None => {
            return None;
        },
    };
    let name = match context_root.file_name() {
        Some(name) => name,
        None => {
            return None;
        },
    };
    let mut id = concat3(&name, "-nested-", &render_u64(pid as u64));
    id.append("-");
    id.append(&render_u64(sequence));
    let root = app_root.join(&id);
    Some(NestedInstance { instance_id: id, root })
}

/// A mount of a nested sandbox.
#[derive(Debug)]
pub enum NestedStep {
    /// Put the private places on a file system of their own.
    Tmpfs { target: FsPath, options: String },
    /// Show a mount of the parent at a private place.
    Stage { source: FsPath, target: FsPath, read_only: bool },
    /// Show what is at the private place where the parent has it.
    Clone { source: FsPath, target: FsPath, read_only: bool },
}

pub ghost enum NestedStepView {
    Tmpfs(Seq<char>, Seq<char>),
    Stage(Seq<char>, Seq<char>, bool),
    Clone(Seq<char>, Seq<char>, bool),
}

impl View for NestedStep {
    type V = NestedStepView;

    open spec fn view(&self) -> NestedStepView {
        match self {
            NestedStep::Tmpfs { target, options } => NestedStepView::Tmpfs(target@, options@),
            NestedStep::Stage { source, target, read_only } => NestedStepView::Stage(
                source@,
                target@,
                *read_only,
            ),
            NestedStep::Clone { source, target, read_only } => NestedStepView::Clone(
                source@,
                target@,
                *read_only,
            ),
        }
    }
}

/// Why the mounts of a sandbox cannot be shown in a nested one.
#[derive(Debug)]
pub enum NestedMountError {
    OutsideRoot(FsPath),
    OverRoot,
}

impl NestedMountError {
    pub fn message(&self) -> (r: String)
        ensures
            r@ == (match self {
                NestedMountError::OutsideRoot(path) => "parent mount is outside sandbox root: "@
                    + path@,
                NestedMountError::OverRoot =>
                    "nested Spawn cannot clone a mount over the sandbox root"@,
            }),
    {
        match self {
            NestedMountError::OutsideRoot(path) => concat(
                "parent mount is outside sandbox root: ",
                path.as_str(),
            ),
            NestedMountError::OverRoot =>
                "nested Spawn cannot clone a mount over the sandbox root".to_owned(),
        }
    }
}

/// The directory of a sandbox in which mounts are kept at private places.
pub open spec fn staging() -> Seq<char> {
    ".freebsd-flatpak-mount-sources"@
}

/// Whether a place in a sandbox is one of the private ones.
pub fn is_internal_mount_staging(target: &FsPath) -> (r: bool)
    ensures
        r == within(target@, staging()),
{
    target.starts_with(&FsPath::new(".freebsd-flatpak-mount-sources"))
}

pub open spec fn shallow_le(a: MountView, b: MountView) -> bool {
    components(a.path).len() <= components(b.path).len()
}

fn shallow_at_most(a: &OwnedMount, b: &OwnedMount) -> (r: bool)
    ensures
        r == shallow_le(a@, b@),
{
    a.path.depth() <= b.path.depth()
}

pub ghost enum NestedPlanError {
    OutsideRoot(Seq<char>),
    OverRoot,
}

/// The steps that show the first `n` mounts of the parent in a nested sandbox, each through a
/// private place, which only its owner can reach.
pub open spec fn nested_steps(
    parent_root: Seq<char>,
    nested_root: Seq<char>,
    mounts: Seq<MountView>,
    n: int,
) -> Result<Seq<NestedStepView>, NestedPlanError>
    decreases n,
{
    if n <= 0 {
        Ok(seq![NestedStepView::Tmpfs(staging(), "mode=0700"@)])
    } else {
        match nested_steps(parent_root, nested_root, mounts, n - 1) {
            Err(e) => Err(e),
            Ok(before) => {
                let mount = mounts[n - 1];
                let target = path_after(mount.path, components(parent_root).len());
                if !within(mount.path, parent_root) {
                    Err(NestedPlanError::OutsideRoot(mount.path))
                } else if target.len() == 0 {
                    Err(NestedPlanError::OverRoot)
                } else if within(target, staging()) {
                    Ok(before)
                } else {
                    let place = joined(staging(), decimal((n - 1) as nat));
                    Ok(
                        before.push(
                            NestedStepView::Stage(mount.path, place, mount.read_only),
                        ).push(
                            NestedStepView::Clone(
                                joined(nested_root, place),
                                target,
                                mount.read_only,
                            ),
                        ),
                    )
                }
            },
        }
    }
}

proof fn lemma_nested_steps_fail(
    parent_root: Seq<char>,
    nested_root: Seq<char>,
    mounts: Seq<MountView>,
    n: int,
    m: int,
)
    requires
        n <= m,
        nested_steps(parent_root, nested_root, mounts, n) is Err,
    ensures
        nested_steps(parent_root, nested_root, mounts, m) == nested_steps(
            parent_root,
            nested_root,
            mounts,
            n,
        ),
    decreases m - n,
{
    if n < m {
        lemma_nested_steps_fail(parent_root, nested_root, mounts, n + 1, m);
    }
}

/// The steps that show the parent's mounts in a nested sandbox, shallow mounts first.
pub fn populate(
    parent_root: &FsPath,
    nested_root: &FsPath,
    nested_mounts: Vec<OwnedMount>,
) -> (r: Result<Vec<NestedStep>, NestedMountError>)
    ensures
        match nested_steps(
            parent_root@,
            nested_root@,
            sorted(views(nested_mounts@), |a: MountView, b: MountView| shallow_le(a, b)),
            nested_mounts@.len() as int,
        ) {
            Ok(steps) => r matches Ok(got) && views(got@) == steps,
            Err(NestedPlanError::OutsideRoot(path)) => r matches Err(
                NestedMountError::OutsideRoot(p),
            ) && p@ == path,
            Err(NestedPlanError::OverRoot) => r matches Err(NestedMountError::OverRoot),
        },
{
    let ghost count = nested_mounts@.len();
    let mounts = sort_by(
        nested_mounts,
        shallow_at_most,
        Ghost(|a: MountView, b: MountView| shallow_le(a, b)),
    );
    let ghost all = views(mounts@);
    proof {
        crate::order::lemma_sorted(
            views(nested_mounts@),
            |a: MountView, b: MountView| shallow_le(a, b),
        );
        assert(all.len() == count);
    }
    let mut out: Vec<NestedStep> = Vec::new();
    out.push(
        NestedStep::Tmpfs {
            target: FsPath::new(".freebsd-flatpak-mount-sources"),
            options: "mode=0700".to_owned(),
        },
    );
    let mut i: usize = 0;
    assert(views(out@) =~= seq![NestedStepView::Tmpfs(staging(), "mode=0700"@)]);
    while i < mounts.len()
        invariant
            i <= mounts@.len() == count,
            all == views(mounts@),
            nested_steps(parent_root@, nested_root@, all, i as int) == Ok::<
                Seq<NestedStepView>,
                NestedPlanError,
            >(views(out@)),
            all == sorted(views(nested_mounts@), |a: MountView, b: MountView| shallow_le(a, b)),
            count == nested_mounts@.len(),
        decreases mounts@.len() - i,
    {
        let mount = &mounts[i];
        assert(all[i as int] == mount@);
        let target = match mount.path.strip_prefix(parent_root) {
            Some(target) => target,
            None => {
                proof {
                    lemma_nested_steps_fail(
                        parent_root@,
                        nested_root@,
                        all,
                        i + 1,
                        count as int,
                    );
                }
                return Err(NestedMountError::OutsideRoot(mount.path.clone()));
            },
        };
        if target.as_str().unicode_len() == 0 {
            proof {
                lemma_nested_steps_fail(parent_root@, nested_root@, all, i + 1, count as int);
            }
            return Err(NestedMountError::OverRoot);
        }
        if !is_internal_mount_staging(&target) {
            let place = FsPath::new(".freebsd-flatpak-mount-sources").join(
                &render_u64(i as u64),
            );
            let stage = NestedStep::Stage {
                source: mount.path.clone(),
                target: place.clone(),
                read_only: mount.read_only,
            };
            let clone = NestedStep::Clone {
                source: nested_root.join_path(&place),
                target,
                read_only: mount.read_only,
            };
            proof {
                lemma_views_push(out@, stage);
                lemma_views_push(out@.push(stage), clone);
            }
            out.push(stage);
            out.push(clone);
        }
        i += 1;
    }
    Ok(out)
}

/// The mount that a step makes.
pub fn step_mount(nested_root: &FsPath, step: &NestedStep) -> (r: OwnedMount)
    ensures
        r@ == (match step@ {
            NestedStepView::Tmpfs(target, _) => MountView {
                path: joined(nested_root@, target),
                read_only: false,
            },
            NestedStepView::Stage(_, target, read_only) => MountView {
                path: joined(nested_root@, target),
                read_only,
            },
            NestedStepView::Clone(_, target, read_only) => MountView {
                path: joined(nested_root@, target),
                read_only,
            },
        }),
{
    match step {
        NestedStep::Tmpfs { target, options: _ } => OwnedMount {
            path: nested_root.join_path(target),
            read_only: false,
        },
        NestedStep::Stage { source: _, target, read_only } => OwnedMount {
            path: nested_root.join_path(target),
            read_only: *read_only,
        },
        NestedStep::Clone { source: _, target, read_only } => OwnedMount {
            path: nested_root.join_path(target),
            read_only: *read_only,
        },
    }
}

/// A nested sandbox shows only what its parent shows, each part with the parent's access.
pub proof fn lemma_nested_shows_parent(
    parent_root: Seq<char>,
    nested_root: Seq<char>,
    mounts: Seq<MountView>,
    n: int,
    k: int,
)
    requires
        0 <= n <= mounts.len(),
        nested_steps(parent_root, nested_root, mounts, n) is Ok,
        0 <= k < (nested_steps(parent_root, nested_root, mounts, n)->Ok_0).len(),
    ensures
        (nested_steps(parent_root, nested_root, mounts, n)->Ok_0)[k] matches NestedStepView::Stage(
            source,
            _,
            read_only,
        ) ==> exists|i: int|
            0 <= i < n && #[trigger] mounts[i] == (MountView { path: source, read_only }),
        (nested_steps(parent_root, nested_root, mounts, n)->Ok_0)[k] matches NestedStepView::Clone(
            source,
            _,
            read_only,
        ) ==> k > 0 && ((nested_steps(parent_root, nested_root, mounts, n)->Ok_0)[k
            - 1] matches NestedStepView::Stage(_, place, staged) && staged == read_only && source
            == joined(nested_root, place)),
    decreases n,
{
    if n > 0 {
        let before = nested_steps(parent_root, nested_root, mounts, n - 1)->Ok_0;
        let all = nested_steps(parent_root, nested_root, mounts, n)->Ok_0;
        if k < before.len() {
            lemma_nested_shows_parent(parent_root, nested_root, mounts, n - 1, k);
            assert(all[k] == before[k]);
            if k > 0 {
                assert(all[k - 1] == before[k - 1]);
            }
        } else {
            assert(mounts[n - 1] == (MountView {
                path: mounts[n - 1].path,
                read_only: mounts[n - 1].read_only,
            }));
        }
    }
}

/// What an entry of a directory is.
#[derive(Debug, Clone, Copy, PartialEq, Eq, Structural)]
pub enum EntryKind {
    Symlink,
    Directory,
    File,
    Other,
}

/// What is done for an entry when the tree of a sandbox is made anew for a nested one.
#[derive(Debug, Clone, Copy, PartialEq, Eq, Structural)]
pub enum CopyAction {
    Skip,
    CopySymlink,
    /// Make the directory, and copy what is in it unless it is covered by a mount.
    MakeDirectory { recurse: bool },
    CopyFile,
    /// Make an empty file, for a mount to cover.
    MakeEmptyFile,
}

/// Whether a path is the place of one of the mounts.
pub open spec fn is_mount_place(mounts: Seq<MountView>, path: Seq<char>) -> bool {
    exists|i: int| 0 <= i < mounts.len() && crate::path::same_path((#[trigger] mounts[i]).path, path)
}

/// What is done for an entry. The description of the instance is written anew, not copied; what
/// mounts cover is not copied.
pub fn copy_unmounted_tree(
    name: &str,
    source_path: &FsPath,
    kind: EntryKind,
    mounts: &[OwnedMount],
) -> (r: CopyAction)
    ensures
        r == (if name@ == ".flatpak-info"@ {
            CopyAction::Skip
        } else {
            let covered = is_mount_place(views(mounts@), source_path@);
            match kind {
                EntryKind::Symlink => CopyAction::CopySymlink,
                EntryKind::Directory => CopyAction::MakeDirectory { recurse: !covered },
                EntryKind::File => if covered {
                    CopyAction::MakeEmptyFile
                } else {
                    CopyAction::CopyFile
                },
                EntryKind::Other => CopyAction::Skip,
            }
        }),
{
    if text_eq(name, ".flatpak-info") {
        return CopyAction::Skip;
    }
    let ghost all = views(mounts@);
    let mut covered = false;
    let mut i: usize = 0;
    while i < mounts.len()
        invariant
            i <= mounts@.len(),
            all == views(mounts@),
            covered <==> exists|j: int|
                0 <= j < i && crate::path::same_path((#[trigger] all[j]).path, source_path@),
        decreases mounts@.len() - i,
    {
        assert(all[i as int] == mounts@[i as int]@);
        if mounts[i].path.same_as(source_path) {
            covered = true;
        }
        i += 1;
    }
    assert(all.len() == mounts@.len());
    match kind {
        EntryKind::Symlink => CopyAction::CopySymlink,
        EntryKind::Directory => CopyAction::MakeDirectory { recurse: !covered },
        EntryKind::File => if covered {
            CopyAction::MakeEmptyFile
        } else {
            CopyAction::CopyFile
        },
        EntryKind::Other => CopyAction::Skip,
    }
}

} // verus!
