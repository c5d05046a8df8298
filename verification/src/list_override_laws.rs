//! What overrides do to the permissions of an application: the lists of the section `Context` grow
//! by what an override says, item by item, and everything else is replaced.

use crate::flatpak_metadata::{clean_items, entries_of, list_items, names_in, value_of};
use crate::override_laws::{
    clean_entry, clean_view, last_about, lemma_entries_clean, lemma_lines_no_break,
    lemma_list_items_clean, lemma_list_value, lemma_merge_precedence, lemma_merged_clean,
    lemma_names_clean, lemma_open_section_named, lemma_overlaid_clean, lemma_overlaid_pairs_clean,
    lemma_overlaid_sections_clean, lemma_overlay_precedence, lemma_parsed, no_break,
};
use crate::static_overrides::{
    effective, enabled, identity, lookup, merged_items, overlaid, overlaid_pairs,
    overlaid_sections, parsed, without,
};
use crate::text::{
    last_index, lemma_first_index_unique, lemma_last_index, lines, split, starts_with,
};
use vstd::prelude::*;

verus! {

/// The text of a value; a key that is missing holds nothing.
pub open spec fn text_of(value: Option<Seq<char>>) -> Seq<char> {
    match value {
        Some(text) => text,
        None => Seq::empty(),
    }
}

/// All that pairs say of a list, item by item.
pub open spec fn said(pairs: Seq<(Seq<char>, Seq<char>)>, key: Seq<char>) -> Seq<Seq<char>>
    decreases pairs.len(),
{
    if pairs.len() == 0 {
        Seq::empty()
    } else if pairs.last().0 == key {
        said(pairs.drop_last(), key) + list_items(pairs.last().1)
    } else {
        said(pairs.drop_last(), key)
    }
}

/// All that an override, where there is one, says of a list of the section `Context`.
pub open spec fn said_by(overlay: Option<Seq<char>>, key: Seq<char>) -> Seq<Seq<char>> {
    match overlay {
        Some(text) => said(entries_of(text, "Context"@), key),
        None => Seq::empty(),
    }
}

/// The later word where there is one.
pub open spec fn later(second: Option<Seq<char>>, first: Option<Seq<char>>) -> Option<Seq<char>> {
    match second {
        Some(item) => Some(item),
        None => first,
    }
}

proof fn lemma_last_about_sum(
    a: Seq<Seq<char>>,
    b: Seq<Seq<char>>,
    id: Seq<char>,
    filesystem: bool,
)
    ensures
        last_about(a + b, id, filesystem) == later(
            last_about(b, id, filesystem),
            last_about(a, id, filesystem),
        ),
    decreases b.len(),
{
    if b.len() == 0 {
        assert(a + b =~= a);
    } else {
        assert((a + b).drop_last() =~= a + b.drop_last());
        assert((a + b).last() == b.last());
        lemma_last_about_sum(a, b.drop_last(), id, filesystem);
    }
}

proof fn lemma_without_keeps(
    items: Seq<Seq<char>>,
    id: Seq<char>,
    filesystem: bool,
    item: Seq<char>,
)
    requires
        items.contains(item),
        identity(item, filesystem) != id,
    ensures
        without(items, id, filesystem).contains(item),
    decreases items.len(),
{
    let head = items.drop_last();
    let before = without(head, id, filesystem);
    let all = without(items, id, filesystem);
    if items.last() == item {
        assert(all[before.len() as int] == item);
    } else {
        let i = choose|i: int| 0 <= i < items.len() && items[i] == item;
        assert(head[i] == item);
        lemma_without_keeps(head, id, filesystem, item);
        let k = choose|k: int| 0 <= k < before.len() && before[k] == item;
        assert(all[k] == item);
    }
}

proof fn lemma_merged_keeps(
    base: Seq<Seq<char>>,
    overlay: Seq<Seq<char>>,
    filesystem: bool,
    item: Seq<char>,
)
    requires
        base.contains(item),
        last_about(overlay, identity(item, filesystem), filesystem) is None,
    ensures
        merged_items(base, overlay, filesystem).contains(item),
    decreases overlay.len(),
{
    if overlay.len() > 0 {
        let head = overlay.drop_last();
        lemma_merged_keeps(base, head, filesystem, item);
        let merged = merged_items(base, head, filesystem);
        let gone = identity(overlay.last(), filesystem);
        lemma_without_keeps(merged, gone, filesystem, item);
        let rest = without(merged, gone, filesystem);
        let k = choose|k: int| 0 <= k < rest.len() && rest[k] == item;
        assert(merged_items(base, overlay, filesystem)[k] == item);
    }
}

/// Whether the key holds a list of permissions to which overrides add.
spec fn is_context_list(key: Seq<char>) -> bool {
    key == "shared"@ || key == "sockets"@ || key == "devices"@ || key == "features"@ || key
        == "filesystems"@ || key == "persistent"@ || key == "unset-environment"@
}

spec fn listed(
    view: Map<Seq<char>, Map<Seq<char>, Seq<char>>>,
    key: Seq<char>,
) -> Seq<Seq<char>> {
    list_items(text_of(lookup(view, "Context"@, key)))
}

spec fn pairs_clean(pairs: Seq<(Seq<char>, Seq<char>)>) -> bool {
    forall|i: int| 0 <= i < pairs.len() ==> clean_entry((#[trigger] pairs[i]).0, pairs[i].1)
}

proof fn lemma_pairs_list(
    view: Map<Seq<char>, Map<Seq<char>, Seq<char>>>,
    pairs: Seq<(Seq<char>, Seq<char>)>,
    key: Seq<char>,
    id: Seq<char>,
    item: Seq<char>,
)
    requires
        is_context_list(key),
        clean_view(view),
        pairs_clean(pairs),
    ensures
        last_about(
            listed(overlaid_pairs(view, "Context"@, pairs), key),
            id,
            key == "filesystems"@,
        ) == later(
            last_about(said(pairs, key), id, key == "filesystems"@),
            last_about(listed(view, key), id, key == "filesystems"@),
        ),
        listed(view, key).contains(item) && last_about(
            said(pairs, key),
            identity(item, key == "filesystems"@),
            key == "filesystems"@,
        ) is None ==> listed(overlaid_pairs(view, "Context"@, pairs), key).contains(item),
    decreases pairs.len(),
{
    let filesystem = key == "filesystems"@;
    if pairs.len() > 0 {
        let head = pairs.drop_last();
        assert(pairs_clean(head)) by {
            assert forall|i: int| 0 <= i < head.len() implies clean_entry(
                (#[trigger] head[i]).0,
                head[i].1,
            ) by {
                assert(head[i] == pairs[i]);
            }
        }
        lemma_pairs_list(view, head, key, id, item);
        let before = overlaid_pairs(view, "Context"@, head);
        let (name, value) = pairs.last();
        assert(clean_entry(pairs[pairs.len() - 1].0, pairs[pairs.len() - 1].1));
        let after = overlaid_pairs(view, "Context"@, pairs);
        if name != key {
            assert(lookup(after, "Context"@, key) == lookup(before, "Context"@, key));
        } else {
            lemma_overlaid_pairs_clean_here(view, head);
            let old_text = text_of(lookup(before, "Context"@, key));
            assert(no_break(old_text)) by {
                if lookup(before, "Context"@, key) is Some {
                    assert(before.dom().contains("Context"@));
                    assert(before["Context"@].dom().contains(key));
                }
            }
            let (a, b) = (list_items(old_text), list_items(value));
            lemma_list_items_clean(old_text);
            lemma_list_items_clean(value);
            lemma_merged_clean(a, b, filesystem);
            lemma_list_value(merged_items(a, b, filesystem));
            assert(listed(after, key) == merged_items(a, b, filesystem));
            lemma_merge_precedence(a, b, id, filesystem);
            lemma_last_about_sum(said(head, key), b, id, filesystem);
            let own = identity(item, filesystem);
            lemma_last_about_sum(said(head, key), b, own, filesystem);
            if listed(view, key).contains(item) && last_about(
                said(pairs, key),
                own,
                filesystem,
            ) is None {
                lemma_merged_keeps(a, b, filesystem, item);
            }
        }
    }
}

proof fn lemma_overlaid_pairs_clean_here(
    view: Map<Seq<char>, Map<Seq<char>, Seq<char>>>,
    pairs: Seq<(Seq<char>, Seq<char>)>,
)
    requires
        clean_view(view),
        pairs_clean(pairs),
    ensures
        clean_view(overlaid_pairs(view, "Context"@, pairs)),
{
    reveal_strlit("Context");
    lemma_overlaid_pairs_clean(view, "Context"@, pairs);
}

proof fn lemma_other_section(
    view: Map<Seq<char>, Map<Seq<char>, Seq<char>>>,
    section: Seq<char>,
    pairs: Seq<(Seq<char>, Seq<char>)>,
    key: Seq<char>,
)
    requires
        section != "Context"@,
    ensures
        lookup(overlaid_pairs(view, section, pairs), "Context"@, key) == lookup(
            view,
            "Context"@,
            key,
        ),
    decreases pairs.len(),
{
    if pairs.len() > 0 {
        lemma_other_section(view, section, pairs.drop_last(), key);
    }
}

proof fn lemma_sections_list(
    view: Map<Seq<char>, Map<Seq<char>, Seq<char>>>,
    overlay: Seq<char>,
    names: Seq<Seq<char>>,
    key: Seq<char>,
    id: Seq<char>,
    item: Seq<char>,
)
    requires
        is_context_list(key),
        clean_view(view),
        forall|i: int| 0 <= i < names.len() ==> no_break(#[trigger] names[i]),
    ensures
        last_about(
            listed(overlaid_sections(view, overlay, names), key),
            id,
            key == "filesystems"@,
        ) == (if names.contains("Context"@) {
            later(
                last_about(said(entries_of(overlay, "Context"@), key), id, key == "filesystems"@),
                last_about(listed(view, key), id, key == "filesystems"@),
            )
        } else {
            last_about(listed(view, key), id, key == "filesystems"@)
        }),
        listed(view, key).contains(item) && last_about(
            said(entries_of(overlay, "Context"@), key),
            identity(item, key == "filesystems"@),
            key == "filesystems"@,
        ) is None ==> listed(overlaid_sections(view, overlay, names), key).contains(item),
    decreases names.len(),
{
    if names.len() > 0 {
        let head = names.drop_last();
        assert forall|i: int| 0 <= i < head.len() implies no_break(#[trigger] head[i]) by {
            assert(head[i] == names[i]);
        }
        lemma_sections_list(view, overlay, head, key, id, item);
        lemma_overlaid_sections_clean(view, overlay, head);
        let before = overlaid_sections(view, overlay, head);
        let pairs = entries_of(overlay, names.last());
        lemma_lines_no_break(overlay);
        lemma_entries_clean(lines(overlay), names.last());
        if head.contains("Context"@) {
            let i = choose|i: int| 0 <= i < head.len() && head[i] == "Context"@;
            assert(names[i] == "Context"@);
        }
        if names.last() == "Context"@ {
            assert(names[names.len() - 1] == "Context"@);
            lemma_pairs_list(before, pairs, key, id, item);
        } else {
            lemma_other_section(before, names.last(), pairs, key);
            if names.contains("Context"@) {
                let i = choose|i: int| 0 <= i < names.len() && names[i] == "Context"@;
                assert(head[i] == "Context"@);
            }
        }
    }
}

proof fn lemma_overlay_list(
    view: Map<Seq<char>, Map<Seq<char>, Seq<char>>>,
    overlay: Seq<char>,
    key: Seq<char>,
    id: Seq<char>,
    item: Seq<char>,
)
    requires
        is_context_list(key),
        clean_view(view),
    ensures
        last_about(listed(overlaid(view, overlay), key), id, key == "filesystems"@) == later(
            last_about(said(entries_of(overlay, "Context"@), key), id, key == "filesystems"@),
            last_about(listed(view, key), id, key == "filesystems"@),
        ),
        listed(view, key).contains(item) && last_about(
            said(entries_of(overlay, "Context"@), key),
            identity(item, key == "filesystems"@),
            key == "filesystems"@,
        ) is None ==> listed(overlaid(view, overlay), key).contains(item),
{
    let names = names_in(lines(overlay));
    lemma_lines_no_break(overlay);
    lemma_names_clean(lines(overlay));
    lemma_sections_list(view, overlay, names, key, id, item);
    if !names.contains("Context"@) {
        lemma_open_section_named(lines(overlay), "Context"@);
        assert(entries_of(overlay, "Context"@).len() == 0);
        assert(said(entries_of(overlay, "Context"@), key).len() == 0);
    }
}

/// What an override says of a permission counts, and takes no other permission away. In each of
/// the lists `shared`, `sockets`, `devices`, `features`, `filesystems`, `persistent` and
/// `unset-environment` of the section `Context`: of what the application asked for, an item that
/// no override is about is still there; and of every thing, the last word is that of the override
/// for the application, then that of the override for all applications, then that of the
/// application itself.
pub proof fn lemma_lists_are_merged(
    metadata: Seq<char>,
    global: Option<Seq<char>>,
    application: Option<Seq<char>>,
    key: Seq<char>,
    id: Seq<char>,
    item: Seq<char>,
)
    requires
        key == "shared"@ || key == "sockets"@ || key == "devices"@ || key == "features"@ || key
            == "filesystems"@ || key == "persistent"@ || key == "unset-environment"@,
    ensures
        ({
            let filesystem = key == "filesystems"@;
            let asked = list_items(text_of(value_of(metadata, "Context"@, key)));
            let result = list_items(
                text_of(lookup(effective(metadata, global, application), "Context"@, key)),
            );
            &&& last_about(result, id, filesystem) == later(
                last_about(said_by(application, key), id, filesystem),
                later(
                    last_about(said_by(global, key), id, filesystem),
                    last_about(asked, id, filesystem),
                ),
            )
            &&& asked.contains(item) && last_about(
                said_by(global, key),
                identity(item, filesystem),
                filesystem,
            ) is None && last_about(
                said_by(application, key),
                identity(item, filesystem),
                filesystem,
            ) is None ==> result.contains(item)
        }),
{
    let base = parsed(metadata);
    lemma_parsed(metadata, "Context"@, key);
    let middle = match global {
        Some(overlay) => overlaid(base, overlay),
        None => base,
    };
    if let Some(overlay) = global {
        lemma_overlay_list(base, overlay, key, id, item);
        lemma_overlaid_clean(base, overlay);
    }
    if let Some(overlay) = application {
        lemma_overlay_list(middle, overlay, key, id, item);
    }
}

/// Whatever else an override says replaces what was said before: the value is that of the override
/// for the application, else that of the override for all applications, else that of the
/// application itself.
pub proof fn lemma_other_values_are_replaced(
    metadata: Seq<char>,
    global: Option<Seq<char>>,
    application: Option<Seq<char>>,
    section: Seq<char>,
    key: Seq<char>,
)
    requires
        section != "Context"@ || (key != "shared"@ && key != "sockets"@ && key != "devices"@ && key
            != "features"@ && key != "filesystems"@ && key != "persistent"@ && key
            != "unset-environment"@),
    ensures
        ({
            let own = match application {
                Some(text) => value_of(text, section, key),
                None => None,
            };
            let shared = match global {
                Some(text) => value_of(text, section, key),
                None => None,
            };
            lookup(effective(metadata, global, application), section, key) == later(
                own,
                later(shared, value_of(metadata, section, key)),
            )
        }),
{
    let base = parsed(metadata);
    lemma_parsed(metadata, section, key);
    let middle = match global {
        Some(overlay) => overlaid(base, overlay),
        None => base,
    };
    if let Some(overlay) = global {
        lemma_overlay_precedence(base, overlay, section, key);
    }
    if let Some(overlay) = application {
        lemma_overlay_precedence(middle, overlay, section, key);
    }
}

/// What an item is about. A negation is about the same as what it takes away; the qualification of
/// a feature does not count, nor does the access that a path of a filesystem is asked for with.
pub proof fn lemma_what_an_item_is_about(name: Seq<char>, more: Seq<char>, filesystem: bool)
    requires
        name.len() > 0,
        name[0] != '!',
    ensures
        identity("!"@ + name, filesystem) == identity(name, filesystem),
        !name.contains('@') ==> identity(name, false) == name && identity(
            name + "@"@ + more,
            false,
        ) == name,
        identity(name + ":ro"@, true) == name,
        identity(name + ":rw"@, true) == name,
        identity(name + ":create"@, true) == name,
        !name.contains(':') ==> identity(name, true) == name,
{
    reveal_strlit("!");
    reveal_strlit("@");
    reveal_strlit(":ro");
    reveal_strlit(":rw");
    reveal_strlit(":create");
    reveal_strlit("ro");
    reveal_strlit("rw");
    reveal_strlit("create");
    assert("!"@ =~= seq!['!']);
    let negated = "!"@ + name;
    assert(negated.take(1) =~= "!"@);
    assert(negated.skip(1) =~= name);
    assert(!starts_with(name, "!"@)) by {
        if starts_with(name, "!"@) {
            assert(name.take(1)[0] == '!');
        }
    }
    if !name.contains('@') {
        let n = name.len() as int;
        assert forall|j: int| 0 <= j < n implies name[j] != '@' by {
            assert(name.contains(name[j]));
        }
        lemma_first_index_unique(name, '@', n);
        let qualified = name + "@"@ + more;
        assert(!starts_with(qualified, "!"@)) by {
            if starts_with(qualified, "!"@) {
                assert(qualified.take(1)[0] == '!');
                assert(qualified[0] == name[0]);
            }
        }
        assert forall|j: int| 0 <= j < n implies qualified[j] != '@' by {
            assert(qualified[j] == name[j]);
        }
        assert(qualified[n] == '@');
        lemma_first_index_unique(qualified, '@', n);
        assert(qualified.take(n) =~= name);
    }
    lemma_mode(name, "ro"@);
    lemma_mode(name, "rw"@);
    lemma_mode(name, "create"@);
    assert(name + ":ro"@ =~= name + seq![':'] + "ro"@);
    assert(name + ":rw"@ =~= name + seq![':'] + "rw"@);
    assert(name + ":create"@ =~= name + seq![':'] + "create"@);
    if !name.contains(':') {
        lemma_last_index(name, ':');
        if last_index(name, ':') >= 0 {
            assert(name.contains(name[last_index(name, ':')]));
        }
    }
}

proof fn lemma_mode(name: Seq<char>, mode: Seq<char>)
    requires
        name.len() > 0,
        name[0] != '!',
        mode == "ro"@ || mode == "rw"@ || mode == "create"@,
    ensures
        identity(name + seq![':'] + mode, true) == name,
{
    reveal_strlit("!");
    reveal_strlit("ro");
    reveal_strlit("rw");
    reveal_strlit("create");
    let text = name + seq![':'] + mode;
    let n = name.len() as int;
    assert(!starts_with(text, "!"@)) by {
        if starts_with(text, "!"@) {
            assert(text.take(1)[0] == '!');
            assert(text[0] == name[0]);
        }
    }
    lemma_last_index(text, ':');
    assert forall|j: int| n < j < text.len() implies text[j] != ':' by {
        assert(text[j] == mode[j - n - 1]);
    }
    assert(text[n] == ':');
    assert(last_index(text, ':') == n);
    assert(text.take(n) =~= name);
    assert(text.skip(n + 1) =~= mode);
}

/// A permission is held if and only if the last item of its list that is about it is no negation.
pub proof fn lemma_last_word_on_a_permission(
    metadata: Seq<char>,
    section: Seq<char>,
    key: Seq<char>,
    target: Seq<char>,
)
    ensures
        ({
            let items = list_items(text_of(value_of(metadata, section, key)));
            let filesystem = key == "filesystems"@;
            enabled(metadata, section, key, target) <==> exists|k: int| #[trigger]
                is_last_word(items, target, filesystem, k) && items[k][0] != '!'
        }),
{
    let items = list_items(text_of(value_of(metadata, section, key)));
    let filesystem = key == "filesystems"@;
    lemma_last_about_place(items, target, filesystem);
    lemma_items_not_empty(text_of(value_of(metadata, section, key)));
    reveal_strlit("!");
    if value_of(metadata, section, key) is None {
        lemma_list_value(Seq::empty());
        assert(items.len() == 0);
    }
    if let Some(item) = last_about(items, target, filesystem) {
        let k = choose|k: int| #[trigger]
            is_last_word(items, target, filesystem, k) && items[k] == item;
        assert(items[k].len() > 0);
        assert(starts_with(item, "!"@) <==> item[0] == '!') by {
            if item[0] == '!' {
                assert(item.take(1) =~= "!"@);
            }
            if starts_with(item, "!"@) {
                assert(item.take(1)[0] == '!');
            }
        }
        assert forall|m: int| #[trigger] is_last_word(items, target, filesystem, m) implies m
            == k by {}
    }
}

/// Whether an item is about the thing and no later one is.
pub open spec fn is_last_word(
    items: Seq<Seq<char>>,
    id: Seq<char>,
    filesystem: bool,
    k: int,
) -> bool {
    &&& 0 <= k < items.len()
    &&& identity(items[k], filesystem) == id
    &&& forall|j: int| k < j < items.len() ==> identity(#[trigger] items[j], filesystem) != id
}

proof fn lemma_last_about_place(items: Seq<Seq<char>>, id: Seq<char>, filesystem: bool)
    ensures
        match last_about(items, id, filesystem) {
            Some(item) => exists|k: int| #[trigger]
                is_last_word(items, id, filesystem, k) && items[k] == item,
            None => forall|k: int|
                0 <= k < items.len() ==> identity(#[trigger] items[k], filesystem) != id,
        },
    decreases items.len(),
{
    if items.len() > 0 {
        let head = items.drop_last();
        lemma_last_about_place(head, id, filesystem);
        if identity(items.last(), filesystem) == id {
            assert(is_last_word(items, id, filesystem, items.len() - 1));
        } else if let Some(item) = last_about(head, id, filesystem) {
            let k = choose|k: int| #[trigger]
                is_last_word(head, id, filesystem, k) && head[k] == item;
            assert(items[k] == head[k]);
            assert forall|j: int| k < j < items.len() implies identity(
                #[trigger] items[j],
                filesystem,
            ) != id by {
                if j < head.len() {
                    assert(items[j] == head[j]);
                }
            }
            assert(is_last_word(items, id, filesystem, k));
        } else {
            assert forall|k: int| 0 <= k < items.len() implies identity(
                #[trigger] items[k],
                filesystem,
            ) != id by {
                if k < head.len() {
                    assert(items[k] == head[k]);
                }
            }
        }
    }
}

proof fn lemma_items_not_empty(value: Seq<char>)
    ensures
        forall|i: int| 0 <= i < list_items(value).len() ==> (#[trigger] list_items(value)[i]).len()
            > 0,
{
    lemma_clean_not_empty(split(value, ';'));
}

proof fn lemma_clean_not_empty(parts: Seq<Seq<char>>)
    ensures
        forall|i: int|
            0 <= i < clean_items(parts).len() ==> (#[trigger] clean_items(parts)[i]).len() > 0,
    decreases parts.len(),
{
    if parts.len() > 0 {
        let before = clean_items(parts.drop_last());
        lemma_clean_not_empty(parts.drop_last());
        assert forall|i: int| 0 <= i < clean_items(parts).len() implies (#[trigger] clean_items(
            parts,
        )[i]).len() > 0 by {
            if i < before.len() {
                assert(clean_items(parts)[i] == before[i]);
            }
        }
    }
}

} // verus!
