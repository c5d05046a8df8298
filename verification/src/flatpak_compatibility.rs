//! The version of Flatpak whose behaviour is offered, and what applications ask of it.

use crate::flatpak_metadata::{list_items, split_list, value, value_of};
use crate::numbers::{bounded_value, parse_u32};
use crate::text::{concat3, split, split_text, texts};
use vstd::prelude::*;

verus! {

/// The version of Flatpak whose behaviour is offered.
pub const FLATPAK_COMPATIBILITY_VERSION: &'static str = "1.12.0";

const MAJOR: u32 = 1;

const MINOR: u32 = 12;

const MICRO: u32 = 0;

/// A version: major, minor and micro number.
pub open spec fn version_of(text: Seq<char>) -> Option<(nat, nat, nat)> {
    let parts = split(text, '.');
    if parts.len() != 3 {
        None
    } else {
        match (
            bounded_value(parts[0], u32::MAX as nat),
            bounded_value(parts[1], u32::MAX as nat),
            bounded_value(parts[2], u32::MAX as nat),
        ) {
            (Some(major), Some(minor), Some(micro)) => Some((major, minor, micro)),
            _ => None,
        }
    }
}

fn parse_version(text: &str) -> (r: Option<(u32, u32, u32)>)
    ensures
        match r {
            Some((a, b, c)) => version_of(text@) == Some((a as nat, b as nat, c as nat)),
            None => version_of(text@) is None,
        },
{
    let parts = split_text(text, '.');
    let ghost all = texts(parts@);
    assert(all.len() == parts@.len());
    if parts.len() != 3 {
        return None;
    }
    assert(all[0] == parts@[0]@ && all[1] == parts@[1]@ && all[2] == parts@[2]@);
    match (parse_u32(&parts[0]), parse_u32(&parts[1]), parse_u32(&parts[2])) {
        (Some(major), Some(minor), Some(micro)) => Some((major, minor, micro)),
        _ => None,
    }
}

/// Whether a version belongs to the series that is offered and asks for no more than is offered.
pub open spec fn in_series(version: (nat, nat, nat)) -> bool {
    version.0 == 1 && version.1 == 12 && version.2 <= 0
}

/// Whether a version belongs to a series before the one that is offered.
pub open spec fn earlier_series(version: (nat, nat, nat)) -> bool {
    version.0 < 1 || (version.0 == 1 && version.1 < 12)
}

/// Whether the alternatives are met: one of them lies in the series that is offered, or all of
/// them are of earlier series. A fix that a later series brought may be asked for with an
/// alternative for each series that took it over.
pub open spec fn alternatives_met(items: Seq<Seq<char>>) -> bool {
    ||| exists|i: int|
        0 <= i < items.len() && (version_of(#[trigger] items[i]) matches Some(v) && in_series(v))
    ||| forall|i: int|
        0 <= i < items.len() ==> (version_of(#[trigger] items[i]) matches Some(v)
            && earlier_series(v))
}

/// The first of the alternatives that is no version.
pub open spec fn first_invalid(items: Seq<Seq<char>>) -> Option<Seq<char>>
    decreases items.len(),
{
    if items.len() == 0 {
        None
    } else {
        match first_invalid(items.drop_last()) {
            Some(text) => Some(text),
            None => if version_of(items.last()) is None {
                Some(items.last())
            } else {
                None
            },
        }
    }
}

/// What is to be said of a requirement.
pub open spec fn diagnostic_for(required: Seq<char>, reference: Seq<char>) -> Option<Seq<char>> {
    let items = list_items(required);
    match first_invalid(items) {
        Some(text) => Some(
            reference + " has an invalid required-flatpak value \""@ + text
                + "\"; attempting launch"@,
        ),
        None => if alternatives_met(items) {
            None
        } else {
            Some(
                reference + " declares required-flatpak="@ + required
                    + ", which is above the advertised compatibility level 1.12.0; attempting launch"@,
            )
        },
    }
}

proof fn lemma_first_invalid_stays(items: Seq<Seq<char>>, n: int)
    requires
        0 <= n <= items.len(),
        first_invalid(items.take(n)) is Some,
    ensures
        first_invalid(items) == first_invalid(items.take(n)),
    decreases items.len(),
{
    if n == items.len() {
        assert(items.take(n) =~= items);
    } else {
        assert(items.drop_last().take(n) =~= items.take(n));
        lemma_first_invalid_stays(items.drop_last(), n);
    }
}

/// What is to be said to the user of the version that the metadata requires, if anything is.
pub fn required_version_diagnostic(metadata: &str, section: &str, reference: &str) -> (r: Option<
    String,
>)
    ensures
        match (r, value_of(metadata@, section@, "required-flatpak"@)) {
            (Some(text), Some(required)) => diagnostic_for(required, reference@) == Some(text@),
            (None, Some(required)) => diagnostic_for(required, reference@) is None,
            (None, None) => true,
            (Some(_), None) => false,
        },
{
    let required = match value(metadata, section, "required-flatpak") {
        Some(required) => required,
        None => {
            return None;
        },
    };
    let items = split_list(&required);
    let ghost all = texts(items@);
    let mut in_offered = false;
    let mut all_earlier = true;
    let mut i: usize = 0;
    while i < items.len()
        invariant
            i <= items@.len(),
            all == texts(items@),
            all == list_items(required@),
            value_of(metadata@, section@, "required-flatpak"@) == Some(required@),
            first_invalid(all.take(i as int)) is None,
            in_offered == exists|j: int|
                0 <= j < i && (version_of(#[trigger] all[j]) matches Some(v) && in_series(v)),
            all_earlier == forall|j: int|
                0 <= j < i ==> (version_of(#[trigger] all[j]) matches Some(v) && earlier_series(
                    v,
                )),
        decreases items@.len() - i,
    {
        let ghost next = all.take(i + 1);
        assert(next.drop_last() =~= all.take(i as int));
        assert(next.last() == items@[i as int]@);
        assert(all[i as int] == items@[i as int]@);
        match parse_version(&items[i]) {
            Some((major, minor, micro)) => {
                if major == MAJOR && minor == MINOR && micro <= MICRO {
                    in_offered = true;
                }
                if !(major < MAJOR || (major == MAJOR && minor < MINOR)) {
                    all_earlier = false;
                }
            },
            None => {
                proof {
                    lemma_first_invalid_stays(all, i + 1);
                }
                let mut text = concat3(
                    reference,
                    " has an invalid required-flatpak value \"",
                    &items[i],
                );
                text.append("\"; attempting launch");
                return Some(text);
            },
        }
        i += 1;
    }
    assert(all.take(i as int) =~= all);
    if in_offered || all_earlier {
        return None;
    }
    let mut text = concat3(reference, " declares required-flatpak=", &required);
    text.append(
        ", which is above the advertised compatibility level 1.12.0; attempting launch",
    );
    Some(text)
}

} // verus!
