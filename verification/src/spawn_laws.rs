//! How a program is started in a running sandbox: what its flags mean, what it finds in its
//! environment, and where the broker is that starts it.

use crate::bytes::text_in;
use crate::launch_environment::{first_value, lemma_set_first};
use crate::path::{components, joined, within};
use crate::spawn_broker::{
    has_flag, inherited, merged_variables, socket_path,
    spawn_refusal, BrokerPathError, SPAWN_CLEAR_ENVIRONMENT,
    SPAWN_EXPOSE_PIDS, SPAWN_NOTIFY_START, SPAWN_NO_NETWORK, SPAWN_SANDBOX, SPAWN_SUPPORTED_FLAGS,
    SPAWN_WATCH_BUS,
};
use crate::spawn_protocol::SpawnView;
use crate::text::{last_index, lemma_last_index};
use vstd::prelude::*;

verus! {

/// The flags are read one by one, as the binary digits of a number. From the lowest on they ask for
/// an empty environment, for the latest version, for a sandbox of its own, for no network, for an
/// end with the bus connection, for process numbers to be told and for a word at the start. A
/// number with any higher digit is refused.
pub proof fn lemma_flags_are_digits(flags: u32)
    ensures
        has_flag(flags, SPAWN_CLEAR_ENVIRONMENT) <==> flags % 2 == 1,
        has_flag(flags, SPAWN_SANDBOX) <==> (flags / 4) % 2 == 1,
        has_flag(flags, SPAWN_NO_NETWORK) <==> (flags / 8) % 2 == 1,
        has_flag(flags, SPAWN_WATCH_BUS) <==> (flags / 16) % 2 == 1,
        has_flag(flags, SPAWN_EXPOSE_PIDS) <==> (flags / 32) % 2 == 1,
        has_flag(flags, SPAWN_NOTIFY_START) <==> (flags / 64) % 2 == 1,
        flags & !SPAWN_SUPPORTED_FLAGS != 0 <==> flags >= 128,
{
    assert(flags & 0x01 != 0 <==> flags % 2 == 1) by (bit_vector);
    assert(flags & 0x04 != 0 <==> (flags / 4) % 2 == 1) by (bit_vector);
    assert(flags & 0x08 != 0 <==> (flags / 8) % 2 == 1) by (bit_vector);
    assert(flags & 0x10 != 0 <==> (flags / 16) % 2 == 1) by (bit_vector);
    assert(flags & 0x20 != 0 <==> (flags / 32) % 2 == 1) by (bit_vector);
    assert(flags & 0x40 != 0 <==> (flags / 64) % 2 == 1) by (bit_vector);
    assert(flags & !0x7fu32 != 0 <==> flags >= 128) by (bit_vector);
}

/// The value that additions give a variable.
pub open spec fn added_value(additions: Seq<(Seq<u8>, Seq<u8>)>, key: Seq<char>) -> Option<
    Seq<char>,
>
    decreases additions.len(),
{
    if additions.len() == 0 {
        None
    } else if text_in(additions.last().0) == Some(key) {
        text_in(additions.last().1)
    } else {
        added_value(additions.drop_last(), key)
    }
}

proof fn lemma_additions_win(
    environment: Seq<(Seq<char>, Seq<char>)>,
    additions: Seq<(Seq<u8>, Seq<u8>)>,
    key: Seq<char>,
)
    ensures
        merged_variables(environment, additions) is Some <==> forall|i: int|
            0 <= i < additions.len() ==> text_in((#[trigger] additions[i]).0) is Some && text_in(
                additions[i].1,
            ) is Some,
        merged_variables(environment, additions) matches Some(all) ==> first_value(all, key) == (
        match added_value(additions, key) {
            Some(value) => Some(value),
            None => first_value(environment, key),
        }),
    decreases additions.len(),
{
    if additions.len() > 0 {
        let head = additions.drop_last();
        let last = additions[additions.len() - 1];
        lemma_additions_win(environment, head, key);
        if forall|i: int|
            0 <= i < additions.len() ==> text_in((#[trigger] additions[i]).0) is Some && text_in(
                additions[i].1,
            ) is Some {
            assert forall|i: int| 0 <= i < head.len() implies text_in((#[trigger] head[i]).0) is Some
                && text_in(head[i].1) is Some by {
                assert(head[i] == additions[i]);
            }
            assert(text_in(additions[additions.len() - 1].0) is Some);
        }
        if merged_variables(environment, additions) is Some {
            assert forall|i: int| 0 <= i < additions.len() implies text_in(
                (#[trigger] additions[i]).0,
            ) is Some && text_in(additions[i].1) is Some by {
                if i < head.len() {
                    assert(head[i] == additions[i]);
                }
            }
            lemma_set_first(
                merged_variables(environment, head)->0,
                text_in(last.0)->0,
                text_in(last.1)->0,
                key,
            );
        }
    }
}

/// A program finds in its environment what was asked for, the last word first, and otherwise what
/// the sandbox has; of that nothing, if an empty environment was asked for.
pub proof fn lemma_what_a_program_inherits(
    environment: Seq<(Seq<char>, Seq<char>)>,
    flags: u32,
    additions: Seq<(Seq<u8>, Seq<u8>)>,
    key: Seq<char>,
)
    ensures
        merged_variables(inherited(environment, flags), additions) matches Some(all)
            ==> first_value(all, key) == (match added_value(additions, key) {
            Some(value) => Some(value),
            None => if flags % 2 == 1 {
                None
            } else {
                first_value(environment, key)
            },
        }),
{
    lemma_flags_are_digits(flags);
    lemma_additions_win(inherited(environment, flags), additions, key);
}

/// A program is started if and only if nothing but known flags is asked for, its directory is
/// absolute where one is named, and its variables are texts.
pub proof fn lemma_started_unless(
    environment: Seq<(Seq<char>, Seq<char>)>,
    request: SpawnView,
)
    ensures
        spawn_refusal(environment, request) is None <==> request.flags < 128 && (
        request.cwd matches Some(cwd) ==> cwd.len() > 0 && cwd[0] as char == '/') && (forall|i: int|
            0 <= i < request.environment.len() ==> text_in(
                (#[trigger] request.environment[i]).0,
            ) is Some && text_in(request.environment[i].1) is Some),
{
    lemma_flags_are_digits(request.flags);
    lemma_additions_win(
        inherited(environment, request.flags),
        request.environment,
        Seq::empty(),
    );
    assert(0x2fu8 as char == '/');
    if let Some(cwd) = request.cwd {
        if cwd.len() > 0 {
            let b = cwd[0];
            assert(b as char == '/' <==> b == 0x2f);
        }
    }
}

/// The broker of an instance listens beside those of all others, under the name of the instance.
/// Only what lies two levels below the directory of all sandboxes is an instance.
pub proof fn lemma_where_brokers_listen(
    chroots: Seq<char>,
    brokers: Seq<char>,
    app: Seq<char>,
    instance: Seq<char>,
    root: Seq<char>,
)
    requires
        components(root) == components(chroots) + seq![app, instance],
        !instance.contains('.'),
    ensures
        socket_path(chroots, brokers, root) == Ok::<Seq<char>, BrokerPathError>(
            joined(brokers, instance + ".sock"@),
        ),
{
    reveal_strlit("..");
    let n = components(chroots).len() as int;
    assert(components(root).take(n) =~= components(chroots));
    assert(components(root).skip(n) =~= seq![app, instance]);
    lemma_last_index(instance, '.');
    if last_index(instance, '.') >= 0 {
        assert(instance.contains(instance[last_index(instance, '.')]));
    }
    if instance == ".."@ {
        assert(instance[0] == '.');
        assert(instance.contains('.'));
    }
}

/// Whatever lies elsewhere than two levels below the directory of all sandboxes has no broker.
pub proof fn lemma_no_other_brokers(chroots: Seq<char>, brokers: Seq<char>, root: Seq<char>)
    ensures
        socket_path(chroots, brokers, root) is Ok <==> within(root, chroots) && components(
            root,
        ).len() == components(chroots).len() + 2,
{
}

} // verus!
