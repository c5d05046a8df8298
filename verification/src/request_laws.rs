//! What a request to start a program can hold once it was taken.

use crate::spawn_protocol::{
    counts_in, number_at, spawn_in, string_at, strings_at, targets_at, variables_at, SpawnError,
    SpawnView,
};
use crate::service_laws::four_bytes;
use vstd::prelude::*;

verus! {

proof fn lemma_number(bytes: Seq<u8>, at: int)
    requires
        0 <= at,
    ensures
        number_at(bytes, at) is Some <==> at + 4 <= bytes.len(),
        number_at(bytes, at) matches Some((n, end)) ==> n == four_bytes(bytes, at) && end == at + 4,
{
    if at + 4 <= bytes.len() {
        let part = bytes.subrange(at, at + 4);
        assert(part[0] == bytes[at] && part[1] == bytes[at + 1] && part[2] == bytes[at + 2]
            && part[3] == bytes[at + 3]);
    }
}

/// A string is its length, four bytes with the greatest first, and then as many bytes, none of which
/// is zero.
pub proof fn lemma_strings_byte_by_byte(bytes: Seq<u8>, at: int, allow_empty: bool)
    requires
        0 <= at,
    ensures
        string_at(bytes, at, allow_empty) is Some <==> {
            &&& at + 4 <= bytes.len()
            &&& at + 4 + four_bytes(bytes, at) <= bytes.len()
            &&& allow_empty || four_bytes(bytes, at) != 0
            &&& forall|i: int| at + 4 <= i < at + 4 + four_bytes(bytes, at) ==> #[trigger] bytes[i] != 0
        },
        string_at(bytes, at, allow_empty) matches Some((value, end)) ==> {
            &&& value.len() == four_bytes(bytes, at)
            &&& end == at + 4 + value.len()
            &&& forall|i: int| 0 <= i < value.len() ==> #[trigger] value[i] == bytes[at + 4 + i]
        },
{
    lemma_number(bytes, at);
    if at + 4 <= bytes.len() && at + 4 + four_bytes(bytes, at) <= bytes.len() {
        let n = four_bytes(bytes, at);
        let value = bytes.subrange(at + 4, at + 4 + n);
        if value.contains(0) {
            let i = choose|i: int| 0 <= i < value.len() && value[i] == 0;
            assert(bytes[at + 4 + i] == 0);
        } else {
            assert forall|i: int| at + 4 <= i < at + 4 + n implies #[trigger] bytes[i] != 0 by {
                assert(value[i - at - 4] == bytes[i]);
            }
        }
    }
}

/// Whether a text can be handed to a program.
pub open spec fn is_argument(value: Seq<u8>) -> bool {
    forall|i: int| 0 <= i < value.len() ==> #[trigger] value[i] != 0
}

/// Whether a variable can be set for a program.
pub open spec fn is_variable(variable: (Seq<u8>, Seq<u8>)) -> bool {
    &&& variable.0.len() > 0
    &&& is_argument(variable.0)
    &&& is_argument(variable.1)
    &&& forall|i: int| 0 <= i < variable.0.len() ==> #[trigger] variable.0[i] != 0x3d
}

proof fn lemma_arguments(bytes: Seq<u8>, at: int, count: int)
    requires
        0 <= at,
        0 <= count,
    ensures
        strings_at(bytes, at, count) matches Some((values, end)) ==> {
            &&& at <= end
            &&& values.len() == count
            &&& forall|i: int| 0 <= i < count ==> #[trigger] values[i].len() > 0 && is_argument(
                values[i],
            )
        },
    decreases count,
{
    if count > 0 {
        lemma_arguments(bytes, at, count - 1);
        if let Some((before, from)) = strings_at(bytes, at, count - 1) {
            lemma_strings_byte_by_byte(bytes, from, false);
        }
    }
}

proof fn lemma_variables(bytes: Seq<u8>, at: int, count: int)
    requires
        0 <= at,
        0 <= count,
    ensures
        variables_at(bytes, at, count) matches Ok((values, end)) ==> {
            &&& at <= end
            &&& values.len() == count
            &&& forall|i: int| 0 <= i < count ==> is_variable(#[trigger] values[i])
        },
    decreases count,
{
    if count > 0 {
        lemma_variables(bytes, at, count - 1);
        if let Ok((before, from)) = variables_at(bytes, at, count - 1) {
            lemma_strings_byte_by_byte(bytes, from, false);
            if let Some((key, next)) = string_at(bytes, from, false) {
                lemma_strings_byte_by_byte(bytes, next, true);
                if !key.contains(0x3d) {
                    assert forall|i: int| 0 <= i < key.len() implies #[trigger] key[i] != 0x3d by {
                    }
                }
            }
        }
    }
}

proof fn lemma_targets(bytes: Seq<u8>, at: int, count: int)
    requires
        0 <= at,
        0 <= count,
    ensures
        targets_at(bytes, at, count) matches Ok((values, end)) ==> {
            &&& end == at + 4 * count
            &&& values.len() == count
            &&& forall|i: int| 0 <= i < count ==> 0 <= #[trigger] values[i] <= 65535
            &&& forall|i: int| 0 <= i < count ==> #[trigger] values[i] == four_bytes(bytes, at + 4 * i)
            &&& forall|i: int, j: int| 0 <= i < j < count ==> #[trigger] values[i] != #[trigger] values[j]
        },
    decreases count,
{
    if count > 0 {
        lemma_targets(bytes, at, count - 1);
        if let Ok((before, from)) = targets_at(bytes, at, count - 1) {
            lemma_number(bytes, from);
            if let Ok((all, end)) = targets_at(bytes, at, count) {
                assert(from == at + 4 * (count - 1));
                assert forall|i: int, j: int| 0 <= i < j < count implies #[trigger] all[i]
                    != #[trigger] all[j] by {
                    if j == count - 1 {
                        assert(before.contains(all[i])) by {
                            assert(before[i] == all[i]);
                        }
                    } else {
                        assert(before[i] == all[i] && before[j] == all[j]);
                    }
                }
                assert forall|i: int| 0 <= i < count implies #[trigger] all[i] == four_bytes(
                    bytes,
                    at + 4 * i,
                ) by {
                    if i < count - 1 {
                        assert(before[i] == all[i]);
                    }
                }
            }
        }
    }
}

/// A request that was taken names a program: it has from one to two hundred and fifty-six arguments,
/// none of them empty, at most as many variables, each with a name that is not empty and holds no
/// `=`, and for each descriptor that came with it another number that it has in the program, up to
/// sixty-five thousand five hundred and thirty-five. Nothing in it holds a zero byte. Its directory
/// stands first, behind it how many there are of all these, its flags, then all these, and the
/// process that asks at its very end.
pub proof fn lemma_what_a_request_holds(bytes: Seq<u8>, fds: int, view: SpawnView)
    requires
        spawn_in(bytes, fds) == Ok::<SpawnView, SpawnError>(view),
    ensures
        1 <= view.argv.len() <= 256,
        forall|i: int|
            0 <= i < view.argv.len() ==> #[trigger] view.argv[i].len() > 0 && is_argument(view.argv[i]),
        view.environment.len() <= 256,
        forall|i: int| 0 <= i < view.environment.len() ==> is_variable(#[trigger] view.environment[i]),
        view.targets.len() == fds,
        forall|i: int| 0 <= i < view.targets.len() ==> 0 <= #[trigger] view.targets[i] <= 65535,
        forall|i: int, j: int|
            0 <= i < j < view.targets.len() ==> #[trigger] view.targets[i]
                != #[trigger] view.targets[j],
        view.cwd is None <==> four_bytes(bytes, 0) == 0,
        view.cwd matches Some(cwd) ==> is_argument(cwd) && cwd == bytes.subrange(
            4,
            4 + four_bytes(bytes, 0),
        ),
        ({
            let at = 4 + four_bytes(bytes, 0);
            &&& view.argv.len() == four_bytes(bytes, at)
            &&& view.environment.len() == four_bytes(bytes, at + 4)
            &&& view.targets.len() == four_bytes(bytes, at + 8)
            &&& view.flags == four_bytes(bytes, at + 12)
        }),
        forall|i: int|
            0 <= i < view.targets.len() ==> #[trigger] view.targets[i] == four_bytes(
                bytes,
                bytes.len() - 4 - 4 * (fds - i),
            ),
        view.caller_pid == four_bytes(bytes, bytes.len() - 4),
{
    lemma_strings_byte_by_byte(bytes, 0, true);
    let at = 4 + four_bytes(bytes, 0);
    lemma_number(bytes, at);
    lemma_number(bytes, at + 4);
    lemma_number(bytes, at + 8);
    lemma_number(bytes, at + 12);
    let counts = counts_in(bytes)->Ok_0;
    lemma_arguments(bytes, counts.end, counts.argc as int);
    let (argv, a) = strings_at(bytes, counts.end, counts.argc as int)->0;
    lemma_variables(bytes, a, counts.envc as int);
    let (environment, b) = variables_at(bytes, a, counts.envc as int)->Ok_0;
    lemma_targets(bytes, b, fds);
    let (targets, c) = targets_at(bytes, b, fds)->Ok_0;
    lemma_number(bytes, c);
    if let Some(cwd) = view.cwd {
        assert(cwd =~= bytes.subrange(4, 4 + four_bytes(bytes, 0)));
    }
    assert forall|i: int| 0 <= i < view.targets.len() implies #[trigger] view.targets[i]
        == four_bytes(bytes, bytes.len() - 4 - 4 * (fds - i)) by {
        assert(b + 4 * i == bytes.len() - 4 - 4 * (fds - i));
    }
}

} // verus!
