//! Static overrides: application metadata with the user-wide and the per-application overrides
//! applied in the order of their precedence.

use crate::flatpak_metadata::{
    entries_of, list_items, names_in, pair_texts, section_entries, section_names, split_list,
    value, value_of,
};
use crate::override_laws::{
    last_about, lemma_effective_clean, lemma_written_key_file,
};
use crate::sorted_map::SortedMap;
use crate::text::{
    concat, concat3, join, join_texts, lemma_texts_push, lines, rsplit_once,
    rsplit_text_once, split_once, split_text_once, starts_with, strip_prefix, text_eq, texts,
};
use vstd::prelude::*;

verus! {

/// Sections, each with its keys and their values.
pub type KeyFile = SortedMap<SortedMap<String>>;

pub open spec fn section_view(section: SortedMap<String>) -> Map<Seq<char>, Seq<char>> {
    section@.map_values(|s: String| s@)
}

pub open spec fn key_file_view(key_file: KeyFile) -> Map<Seq<char>, Map<Seq<char>, Seq<char>>> {
    key_file@.map_values(|section: SortedMap<String>| section_view(section))
}

pub open spec fn key_file_wf(key_file: KeyFile) -> bool {
    &&& key_file.wf()
    &&& forall|name: Seq<char>| #[trigger]
        key_file@.dom().contains(name) ==> key_file@[name].wf()
}

pub open spec fn lookup(
    view: Map<Seq<char>, Map<Seq<char>, Seq<char>>>,
    section: Seq<char>,
    key: Seq<char>,
) -> Option<Seq<char>> {
    if view.dom().contains(section) && view[section].dom().contains(key) {
        Some(view[section][key])
    } else {
        None
    }
}

/// The view with a key set; the section is made where it is missing.
pub open spec fn with_entry(
    view: Map<Seq<char>, Map<Seq<char>, Seq<char>>>,
    section: Seq<char>,
    key: Seq<char>,
    value: Seq<char>,
) -> Map<Seq<char>, Map<Seq<char>, Seq<char>>> {
    let old_section = if view.dom().contains(section) {
        view[section]
    } else {
        Map::empty()
    };
    view.insert(section, old_section.insert(key, value))
}

/// The pairs as a map, in which the last of several pairs with one key counts.
pub open spec fn filled(pairs: Seq<(Seq<char>, Seq<char>)>) -> Map<Seq<char>, Seq<char>>
    decreases pairs.len(),
{
    if pairs.len() == 0 {
        Map::empty()
    } else {
        filled(pairs.drop_last()).insert(pairs.last().0, pairs.last().1)
    }
}

/// The first `names` of the metadata's sections with all their entries.
pub open spec fn sections_named(metadata: Seq<char>, names: Seq<Seq<char>>) -> Map<
    Seq<char>,
    Map<Seq<char>, Seq<char>>,
> {
    Map::new(
        |section: Seq<char>| names.contains(section),
        |section: Seq<char>| filled(entries_of(metadata, section)),
    )
}

/// What metadata says.
pub open spec fn parsed(metadata: Seq<char>) -> Map<Seq<char>, Map<Seq<char>, Seq<char>>> {
    sections_named(metadata, names_in(lines(metadata)))
}

/// Whether an override adds to the list that the key holds instead of replacing it.
pub open spec fn is_list_key(section: Seq<char>, key: Seq<char>) -> bool {
    section == "Context"@ && (key == "shared"@ || key == "sockets"@ || key == "devices"@ || key
        == "features"@ || key == "filesystems"@ || key == "persistent"@ || key
        == "unset-environment"@)
}

/// What a list item is about: its name without the negation and without what qualifies it.
pub open spec fn identity(item: Seq<char>, filesystem: bool) -> Seq<char> {
    let plain = if starts_with(item, "!"@) {
        item.skip(1)
    } else {
        item
    };
    if !filesystem {
        match split_once(plain, '@') {
            Some((name, _)) => name,
            None => plain,
        }
    } else {
        match rsplit_once(plain, ':') {
            Some((path, mode)) => if mode == "ro"@ || mode == "rw"@ || mode == "create"@ {
                path
            } else {
                plain
            },
            None => plain,
        }
    }
}

/// The items that are not about `id`.
pub open spec fn without(items: Seq<Seq<char>>, id: Seq<char>, filesystem: bool) -> Seq<Seq<char>>
    decreases items.len(),
{
    if items.len() == 0 {
        items
    } else {
        let before = without(items.drop_last(), id, filesystem);
        if identity(items.last(), filesystem) == id {
            before
        } else {
            before.push(items.last())
        }
    }
}

/// The items with each item of the overlay put at the end in place of what was said of it.
pub open spec fn merged_items(
    base: Seq<Seq<char>>,
    overlay: Seq<Seq<char>>,
    filesystem: bool,
) -> Seq<Seq<char>>
    decreases overlay.len(),
{
    if overlay.len() == 0 {
        base
    } else {
        without(
            merged_items(base, overlay.drop_last(), filesystem),
            identity(overlay.last(), filesystem),
            filesystem,
        ).push(overlay.last())
    }
}

/// A list value that holds the items.
pub open spec fn list_value(items: Seq<Seq<char>>) -> Seq<char> {
    if items.len() == 0 {
        Seq::empty()
    } else {
        join(items, ";"@) + ";"@
    }
}

/// The value that a key gets from an overlay.
pub open spec fn merged_value(
    base: Option<Seq<char>>,
    section: Seq<char>,
    key: Seq<char>,
    overlay: Seq<char>,
) -> Seq<char> {
    if is_list_key(section, key) {
        list_value(
            merged_items(
                list_items(
                    match base {
                        Some(v) => v,
                        None => Seq::empty(),
                    },
                ),
                list_items(overlay),
                key == "filesystems"@,
            ),
        )
    } else {
        overlay
    }
}

/// The view after the overlay's pairs for one section.
pub open spec fn overlaid_pairs(
    view: Map<Seq<char>, Map<Seq<char>, Seq<char>>>,
    section: Seq<char>,
    pairs: Seq<(Seq<char>, Seq<char>)>,
) -> Map<Seq<char>, Map<Seq<char>, Seq<char>>>
    decreases pairs.len(),
{
    if pairs.len() == 0 {
        view
    } else {
        let before = overlaid_pairs(view, section, pairs.drop_last());
        let (key, value) = pairs.last();
        with_entry(
            before,
            section,
            key,
            merged_value(lookup(before, section, key), section, key, value),
        )
    }
}

/// The view after the overlay's sections with the names.
pub open spec fn overlaid_sections(
    view: Map<Seq<char>, Map<Seq<char>, Seq<char>>>,
    overlay: Seq<char>,
    names: Seq<Seq<char>>,
) -> Map<Seq<char>, Map<Seq<char>, Seq<char>>>
    decreases names.len(),
{
    if names.len() == 0 {
        view
    } else {
        overlaid_pairs(
            overlaid_sections(view, overlay, names.drop_last()),
            names.last(),
            entries_of(overlay, names.last()),
        )
    }
}

/// The view after the whole overlay.
pub open spec fn overlaid(
    view: Map<Seq<char>, Map<Seq<char>, Seq<char>>>,
    overlay: Seq<char>,
) -> Map<Seq<char>, Map<Seq<char>, Seq<char>>> {
    overlaid_sections(view, overlay, names_in(lines(overlay)))
}

/// What the metadata says once the overrides that there are have been applied.
pub open spec fn effective(
    metadata: Seq<char>,
    global: Option<Seq<char>>,
    application: Option<Seq<char>>,
) -> Map<Seq<char>, Map<Seq<char>, Seq<char>>> {
    let base = parsed(metadata);
    let with_global = match global {
        Some(overlay) => overlaid(base, overlay),
        None => base,
    };
    match application {
        Some(overlay) => overlaid(with_global, overlay),
        None => with_global,
    }
}

/// The lines that write a section's entries.
pub open spec fn entry_lines(entries: Seq<(String, String)>) -> Seq<Seq<char>> {
    Seq::new(entries.len(), |i: int| entries[i].0@ + "="@ + entries[i].1@)
}

/// The lines that write the sections, with an empty line after each.
pub open spec fn key_file_lines(sections: Seq<(String, SortedMap<String>)>) -> Seq<Seq<char>>
    decreases sections.len(),
{
    if sections.len() == 0 {
        Seq::empty()
    } else {
        let (name, section) = sections.last();
        key_file_lines(sections.drop_last()) + seq!["["@ + name@ + "]"@] + entry_lines(
            section.entries@,
        ) + seq![Seq::<char>::empty()]
    }
}

/// The lines as a text in which each is ended by a line feed.
pub open spec fn ended_lines(ls: Seq<Seq<char>>) -> Seq<char>
    decreases ls.len(),
{
    if ls.len() == 0 {
        Seq::empty()
    } else {
        ended_lines(ls.drop_last()) + ls.last() + "\n"@
    }
}

/// Sets a key; the section is made where it is missing.
fn set_entry(key_file: &mut KeyFile, section: &str, key: String, value: String)
    requires
        key_file_wf(*old(key_file)),
    ensures
        key_file_wf(*final(key_file)),
        key_file_view(*final(key_file)) == with_entry(
            key_file_view(*old(key_file)),
            section@,
            key@,
            value@,
        ),
{
    let ghost before = *key_file;
    let mut entries: SortedMap<String> = match key_file.remove(section) {
        Some(entries) => entries,
        None => SortedMap::new(),
    };
    let ghost old_entries = entries;
    let ghost k = key@;
    let ghost v = value@;
    entries.insert(key, value);
    let ghost new_entries = entries;
    key_file.insert(section.to_owned(), entries);
    proof {
        let goal = with_entry(key_file_view(before), section@, k, v);
        let got = key_file_view(*key_file);
        assert(section_view(old_entries) =~= (if before@.dom().contains(section@) {
            key_file_view(before)[section@]
        } else {
            Map::empty()
        }));
        assert(section_view(new_entries) =~= section_view(old_entries).insert(k, v));
        assert(got.dom() =~= goal.dom());
        assert forall|name: Seq<char>| #[trigger] got.dom().contains(name) implies got[name]
            == goal[name] by {
            if name != section@ {
                assert(key_file@[name] == before@[name]);
            }
        }
        assert(got =~= goal);
        assert forall|name: Seq<char>| #[trigger] key_file@.dom().contains(name) implies key_file@[
            name
        ].wf() by {
            if name != section@ {
                assert(before@.dom().contains(name));
            }
        }
    }
}

/// Reads metadata into sections.
pub fn parse_key_file(data: &str) -> (r: KeyFile)
    ensures
        key_file_wf(r),
        key_file_view(r) == parsed(data@),
{
    let names = section_names(data);
    let ghost all = texts(names@);
    let mut out: KeyFile = SortedMap::new();
    let mut i: usize = 0;
    assert(key_file_view(out) =~= sections_named(data@, all.take(0)));
    while i < names.len()
        invariant
            i <= names@.len(),
            all == texts(names@),
            key_file_wf(out),
            key_file_view(out) == sections_named(data@, all.take(i as int)),
        decreases names@.len() - i,
    {
        let pairs = section_entries(data, &names[i]);
        let entries = collect_pairs(pairs);
        let ghost before = out;
        let name = names[i].clone();
        out.insert(name, entries);
        proof {
            let got = key_file_view(out);
            let goal = sections_named(data@, all.take(i + 1));
            assert(all.take(i + 1) =~= all.take(i as int).push(all[i as int]));
            assert forall|s: Seq<char>| all.take(i + 1).contains(s) <==> all.take(
                i as int,
            ).contains(s) || s == all[i as int] by {
                if all.take(i as int).contains(s) {
                    let j = choose|j: int| 0 <= j < i && all.take(i as int)[j] == s;
                    assert(all.take(i + 1)[j] == s);
                }
                assert(all.take(i + 1)[i as int] == all[i as int]);
            }
            assert(all[i as int] == name@);
            assert forall|s: Seq<char>| #[trigger] got.dom().contains(s) <==> goal.dom().contains(
                s,
            ) by {
                assert(all.take(i + 1).contains(s) <==> all.take(i as int).contains(s) || s
                    == name@);
                assert(key_file_view(before).dom().contains(s) <==> all.take(i as int).contains(
                    s,
                ));
            }
            assert(got.dom() =~= goal.dom());
            assert forall|s: Seq<char>| #[trigger] got.dom().contains(s) implies got[s]
                == goal[s] by {
                if s != name@ {
                    assert(key_file_view(before).dom().contains(s));
                    assert(out@[s] == before@[s]);
                    assert(key_file_view(before)[s] == filled(entries_of(data@, s)));
                } else {
                    assert(out@[s] == entries);
                }
            }
            assert(got =~= goal);
        }
        i += 1;
    }
    assert(all.take(i as int) =~= all);
    out
}

/// The pairs as a map.
fn collect_pairs(pairs: Vec<(String, String)>) -> (r: SortedMap<String>)
    ensures
        r.wf(),
        section_view(r) == filled(pair_texts(pairs@)),
{
    let mut out: SortedMap<String> = SortedMap::new();
    let ghost all = pair_texts(pairs@);
    let mut i: usize = 0;
    assert(section_view(out) =~= filled(all.take(0)));
    while i < pairs.len()
        invariant
            i <= pairs@.len(),
            all == pair_texts(pairs@),
            out.wf(),
            section_view(out) == filled(all.take(i as int)),
        decreases pairs@.len() - i,
    {
        let key = pairs[i].0.clone();
        let value = pairs[i].1.clone();
        let ghost before = out;
        out.insert(key, value);
        proof {
            let next = all.take(i + 1);
            assert(next.drop_last() =~= all.take(i as int));
            assert(next.last() == (key@, value@));
            assert(section_view(out) =~= section_view(before).insert(key@, value@));
        }
        i += 1;
    }
    assert(all.take(i as int) =~= all);
    out
}

fn is_list(section: &str, key: &str) -> (r: bool)
    ensures
        r == is_list_key(section@, key@),
{
    text_eq(section, "Context") && (text_eq(key, "shared") || text_eq(key, "sockets") || text_eq(
        key,
        "devices",
    ) || text_eq(key, "features") || text_eq(key, "filesystems") || text_eq(key, "persistent")
        || text_eq(key, "unset-environment"))
}

/// What a list item is about.
pub fn list_identity(item: &str, filesystem: bool) -> (r: String)
    ensures
        r@ == identity(item@, filesystem),
{
    proof {
        reveal_strlit("!");
    }
    let plain = match strip_prefix(item, "!") {
        Some(rest) => rest,
        None => item.to_owned(),
    };
    if !filesystem {
        return match split_text_once(&plain, '@') {
            Some((name, _)) => name,
            None => plain,
        };
    }
    match rsplit_text_once(&plain, ':') {
        Some((path, mode)) => if text_eq(&mode, "ro") || text_eq(&mode, "rw") || text_eq(
            &mode,
            "create",
        ) {
            path
        } else {
            plain
        },
        None => plain,
    }
}

/// The items that are not about `id`.
fn retain_others(items: Vec<String>, id: &str, filesystem: bool) -> (r: Vec<String>)
    ensures
        texts(r@) == without(texts(items@), id@, filesystem),
{
    let mut out: Vec<String> = Vec::new();
    let ghost all = texts(items@);
    let mut i: usize = 0;
    assert(texts(out@) =~= without(all.take(0), id@, filesystem));
    while i < items.len()
        invariant
            i <= items@.len(),
            all == texts(items@),
            texts(out@) == without(all.take(i as int), id@, filesystem),
        decreases items@.len() - i,
    {
        proof {
            let next = all.take(i + 1);
            assert(next.drop_last() =~= all.take(i as int));
            assert(next.last() == items@[i as int]@);
        }
        let other = list_identity(&items[i], filesystem);
        if !text_eq(&other, id) {
            let item = items[i].clone();
            proof {
                lemma_texts_push(out@, item);
            }
            out.push(item);
        }
        i += 1;
    }
    assert(all.take(i as int) =~= all);
    out
}

/// Merges an overlay's list into a list.
pub fn merge_list(base: Option<&str>, overlay: &str, filesystem: bool) -> (r: String)
    ensures
        r@ == list_value(
            merged_items(
                list_items(
                    match base {
                        Some(v) => v@,
                        None => Seq::empty(),
                    },
                ),
                list_items(overlay@),
                filesystem,
            ),
        ),
{
    let mut values: Vec<String> = match base {
        Some(v) => split_list(v),
        None => {
            let empty = String::new();
            split_list(&empty)
        },
    };
    let ghost start = texts(values@);
    let items = split_list(overlay);
    let ghost all = texts(items@);
    let mut i: usize = 0;
    assert(all.take(0) =~= Seq::<Seq<char>>::empty());
    while i < items.len()
        invariant
            i <= items@.len(),
            all == texts(items@),
            texts(values@) == merged_items(start, all.take(i as int), filesystem),
        decreases items@.len() - i,
    {
        proof {
            let next = all.take(i + 1);
            assert(next.drop_last() =~= all.take(i as int));
            assert(next.last() == items@[i as int]@);
        }
        let id = list_identity(&items[i], filesystem);
        values = retain_others(values, &id, filesystem);
        let item = items[i].clone();
        proof {
            lemma_texts_push(values@, item);
        }
        values.push(item);
        i += 1;
    }
    assert(all.take(i as int) =~= all);
    assert(texts(values@).len() == values@.len());
    if values.len() == 0 {
        String::new()
    } else {
        let joined = join_texts(values.as_slice(), ";");
        concat(&joined, ";")
    }
}

fn current_value(key_file: &KeyFile, section: &str, key: &str) -> (r: Option<String>)
    requires
        key_file_wf(*key_file),
    ensures
        r is Some <==> lookup(key_file_view(*key_file), section@, key@) is Some,
        r matches Some(v) ==> Some(v@) == lookup(key_file_view(*key_file), section@, key@),
{
    match key_file.get(section) {
        Some(entries) => match entries.get(key) {
            Some(value) => Some(value.clone()),
            None => None,
        },
        None => None,
    }
}

/// Applies an overlay.
pub fn apply_overlay(base: &mut KeyFile, overlay: &str)
    requires
        key_file_wf(*old(base)),
    ensures
        key_file_wf(*final(base)),
        key_file_view(*final(base)) == overlaid(key_file_view(*old(base)), overlay@),
{
    let names = section_names(overlay);
    let ghost all = texts(names@);
    let ghost start = key_file_view(*base);
    let mut i: usize = 0;
    assert(all.take(0) =~= Seq::<Seq<char>>::empty());
    while i < names.len()
        invariant
            i <= names@.len(),
            all == texts(names@),
            key_file_wf(*base),
            key_file_view(*base) == overlaid_sections(start, overlay@, all.take(i as int)),
        decreases names@.len() - i,
    {
        let pairs = section_entries(overlay, &names[i]);
        proof {
            let next = all.take(i + 1);
            assert(next.drop_last() =~= all.take(i as int));
            assert(next.last() == names@[i as int]@);
        }
        apply_pairs(base, &names[i], pairs);
        i += 1;
    }
    assert(all.take(i as int) =~= all);
}

fn apply_pairs(base: &mut KeyFile, section: &str, pairs: Vec<(String, String)>)
    requires
        key_file_wf(*old(base)),
    ensures
        key_file_wf(*final(base)),
        key_file_view(*final(base)) == overlaid_pairs(
            key_file_view(*old(base)),
            section@,
            pair_texts(pairs@),
        ),
{
    let ghost all = pair_texts(pairs@);
    let ghost start = key_file_view(*base);
    let mut i: usize = 0;
    assert(all.take(0) =~= Seq::<(Seq<char>, Seq<char>)>::empty());
    while i < pairs.len()
        invariant
            i <= pairs@.len(),
            all == pair_texts(pairs@),
            key_file_wf(*base),
            key_file_view(*base) == overlaid_pairs(start, section@, all.take(i as int)),
        decreases pairs@.len() - i,
    {
        proof {
            let next = all.take(i + 1);
            assert(next.drop_last() =~= all.take(i as int));
            assert(next.last() == (pairs@[i as int].0@, pairs@[i as int].1@));
        }
        let key = pairs[i].0.clone();
        let given = pairs[i].1.clone();
        let value = if is_list(section, &key) {
            let current = current_value(base, section, &key);
            let filesystem = text_eq(&key, "filesystems");
            match current {
                Some(text) => merge_list(Some(text.as_str()), &given, filesystem),
                None => merge_list(None, &given, filesystem),
            }
        } else {
            given
        };
        set_entry(base, section, key, value);
        i += 1;
    }
    assert(all.take(i as int) =~= all);
}

/// Writes the sections in the order of their names, each with its keys in order.
pub fn render_key_file(key_file: &KeyFile) -> (r: String)
    ensures
        r@ == ended_lines(key_file_lines(key_file.entries@)),
{
    let mut out = String::new();
    let ghost all = key_file.entries@;
    let mut i: usize = 0;
    assert(all.take(0) =~= Seq::<(String, SortedMap<String>)>::empty());
    while i < key_file.entries.len()
        invariant
            i <= key_file.entries@.len(),
            all == key_file.entries@,
            out@ == ended_lines(key_file_lines(all.take(i as int))),
        decreases key_file.entries@.len() - i,
    {
        let ghost next = all.take(i + 1);
        let ghost head = key_file_lines(all.take(i as int));
        proof {
            assert(next.drop_last() =~= all.take(i as int));
            assert(next.last() == all[i as int]);
        }
        let header = concat3("[", &key_file.entries[i].0, "]");
        let ghost h = header@;
        proof {
            lemma_ended_push(head, h);
        }
        out.append(&header);
        out.append("\n");
        let ghost first = head.push(h);
        let section = &key_file.entries[i].1;
        let ghost body = entry_lines(section.entries@);
        let mut j: usize = 0;
        assert(first + body.take(0) =~= first);
        while j < section.entries.len()
            invariant
                j <= section.entries@.len(),
                body == entry_lines(section.entries@),
                out@ == ended_lines(first + body.take(j as int)),
            decreases section.entries@.len() - j,
        {
            let line = concat3(&section.entries[j].0, "=", &section.entries[j].1);
            proof {
                lemma_ended_push(first + body.take(j as int), line@);
                assert((first + body.take(j as int)).push(line@) =~= first + body.take(j + 1));
            }
            out.append(&line);
            out.append("\n");
            j += 1;
        }
        proof {
            assert(body.take(j as int) =~= body);
            lemma_ended_push(first + body, Seq::empty());
            assert(key_file_lines(next) =~= (first + body).push(Seq::<char>::empty()));
            assert(ended_lines(first + body) + Seq::<char>::empty() =~= ended_lines(first + body));
        }
        out.append("\n");
        i += 1;
    }
    assert(all.take(i as int) =~= all);
    out
}

proof fn lemma_ended_push(ls: Seq<Seq<char>>, line: Seq<char>)
    ensures
        ended_lines(ls.push(line)) == ended_lines(ls) + line + "\n"@,
{
    assert(ls.push(line).drop_last() =~= ls);
}

/// The metadata with the overrides applied: first the user-wide ones, then those of the
/// application.
pub fn effective_metadata_from_sources(
    metadata: &str,
    global: Option<&str>,
    application: Option<&str>,
) -> (r: String)
    ensures
        forall|section: Seq<char>, key: Seq<char>| #[trigger]
            value_of(r@, section, key) == lookup(
                effective(
                    metadata@,
                    match global {
                        Some(g) => Some(g@),
                        None => None,
                    },
                    match application {
                        Some(a) => Some(a@),
                        None => None,
                    },
                ),
                section,
                key,
            ),
        exists|key_file: KeyFile| #[trigger]
            key_file_wf(key_file) && key_file_view(key_file) == effective(
                metadata@,
                match global {
                    Some(g) => Some(g@),
                    None => None,
                },
                match application {
                    Some(a) => Some(a@),
                    None => None,
                },
            ) && r@ == ended_lines(key_file_lines(key_file.entries@)),
{
    let mut key_file = parse_key_file(metadata);
    if let Some(overlay) = global {
        apply_overlay(&mut key_file, overlay);
    }
    if let Some(overlay) = application {
        apply_overlay(&mut key_file, overlay);
    }
    let out = render_key_file(&key_file);
    proof {
        let g = match global {
            Some(g) => Some(g@),
            None => None,
        };
        let a = match application {
            Some(a) => Some(a@),
            None => None,
        };
        lemma_effective_clean(metadata@, g, a);
        assert forall|section: Seq<char>, key: Seq<char>| #[trigger]
            value_of(out@, section, key) == lookup(
                effective(metadata@, g, a),
                section,
                key,
            ) by {
            lemma_written_key_file(key_file, section, key);
        }
    }
    out
}

/// Whether a list grants what is named: the last item about it counts, and a negated item denies.
pub open spec fn grants(items: Seq<Seq<char>>, target: Seq<char>, filesystem: bool) -> bool {
    match last_about(items, target, filesystem) {
        Some(item) => !starts_with(item, "!"@),
        None => false,
    }
}

/// Whether a list in the metadata grants what is named.
pub open spec fn enabled(
    metadata: Seq<char>,
    section: Seq<char>,
    key: Seq<char>,
    target: Seq<char>,
) -> bool {
    match value_of(metadata, section, key) {
        Some(value) => grants(list_items(value), target, key == "filesystems"@),
        None => false,
    }
}

/// Whether a list in the metadata grants what is named.
pub fn permission_enabled(metadata: &str, section: &str, key: &str, target: &str) -> (r: bool)
    ensures
        r == enabled(metadata@, section@, key@, target@),
{
    let listed = match value(metadata, section, key) {
        Some(text) => text,
        None => {
            return false;
        },
    };
    let items = split_list(&listed);
    let filesystem = text_eq(key, "filesystems");
    let ghost all = texts(items@);
    let mut i: usize = items.len();
    assert(all.take(i as int) =~= all);
    while i > 0
        invariant
            i <= items@.len(),
            all == texts(items@),
            enabled(metadata@, section@, key@, target@) == grants(
                all.take(i as int),
                target@,
                filesystem,
            ),
        decreases i,
    {
        proof {
            let here = all.take(i as int);
            assert(here.last() == items@[i - 1]@);
            assert(here.drop_last() =~= all.take(i - 1));
        }
        let id = list_identity(&items[i - 1], filesystem);
        if text_eq(&id, target) {
            return !crate::text::has_prefix(&items[i - 1], "!");
        }
        i -= 1;
    }
    false
}

} // verus!
