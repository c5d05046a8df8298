//! What holds of key files that are read, merged and written again.

use crate::flatpak_metadata::{
    clean_items, entries_in, entries_of, last_value, list_items, names_in, pair_texts, read_line,
    section_at, value_of, LineView,
};
use crate::sorted_map::{
    holds_at, keys_ascend, lemma_map_of, lemma_map_of_place, map_of, SortedMap,
};
use crate::static_overrides::{
    effective, ended_lines, entry_lines, filled, identity, is_list_key, key_file_lines,
    key_file_view, key_file_wf, list_value, lookup, merged_items, merged_value, overlaid,
    overlaid_pairs, overlaid_sections, parsed, section_view, with_entry, without, KeyFile,
};
use crate::text::{
    chomp, first_index, is_trimmed, join, lemma_first_index, lemma_first_index_unique,
    lemma_join_split, lemma_split_join, lemma_trim, lines, split, trim,
};
use vstd::prelude::*;

verus! {

/// Whether the text fits on one line.
pub open spec fn no_break(s: Seq<char>) -> bool {
    !s.contains('\n')
}

/// Whether a line can hold the key and the value so that they are read back.
pub open spec fn clean_entry(key: Seq<char>, value: Seq<char>) -> bool {
    &&& is_trimmed(key)
    &&& is_trimmed(value)
    &&& no_break(key)
    &&& no_break(value)
    &&& !key.contains('=')
    &&& key.len() > 0 ==> key[0] != '#'
    &&& key.len() > 0 && key[0] == '[' && value.len() > 0 ==> value.last() != ']'
}

pub open spec fn clean_section(section: Map<Seq<char>, Seq<char>>) -> bool {
    forall|key: Seq<char>| #[trigger]
        section.dom().contains(key) ==> clean_entry(key, section[key])
}

pub open spec fn clean_view(view: Map<Seq<char>, Map<Seq<char>, Seq<char>>>) -> bool {
    forall|name: Seq<char>| #[trigger]
        view.dom().contains(name) ==> no_break(name) && clean_section(view[name])
}

proof fn lemma_ended_cons(line: Seq<char>, rest: Seq<Seq<char>>)
    ensures
        ended_lines(seq![line] + rest) == line + "\n"@ + ended_lines(rest),
    decreases rest.len(),
{
    let all = seq![line] + rest;
    if rest.len() == 0 {
        assert(all.drop_last() =~= Seq::<Seq<char>>::empty());
        assert(all.last() == line);
        assert(ended_lines(all.drop_last()) =~= Seq::<char>::empty());
        assert(ended_lines(rest) =~= Seq::<char>::empty());
        assert(ended_lines(all) =~= line + "\n"@ + ended_lines(rest));
    } else {
        lemma_ended_cons(line, rest.drop_last());
        assert(all.drop_last() =~= seq![line] + rest.drop_last());
        assert(all.last() == rest.last());
        assert(ended_lines(all) =~= line + "\n"@ + ended_lines(rest));
    }
}

/// Lines that are written one after another are read back, without a carriage return at the end
/// of any.
pub proof fn lemma_lines_of_chomped(ls: Seq<Seq<char>>)
    requires
        forall|i: int| 0 <= i < ls.len() ==> no_break(#[trigger] ls[i]),
    ensures
        lines(ended_lines(ls)) == Seq::new(ls.len(), |i: int| chomp(ls[i])),
    decreases ls.len(),
{
    reveal_strlit("\n");
    if ls.len() > 0 {
        let line = ls[0];
        let rest = ls.skip(1);
        assert(ls =~= seq![line] + rest);
        lemma_ended_cons(line, rest);
        let text = ended_lines(ls);
        assert("\n"@ =~= seq!['\n']);
        assert forall|j: int| 0 <= j < line.len() implies text[j] != '\n' by {
            assert(text[j] == line[j]);
            assert(line.contains(line[j]));
        }
        assert(text[line.len() as int] == '\n');
        lemma_first_index_unique(text, '\n', line.len() as int);
        assert(text.take(line.len() as int) =~= line);
        assert(text.skip(line.len() as int + 1) =~= ended_lines(rest));
        assert forall|i: int| 0 <= i < rest.len() implies no_break(#[trigger] rest[i]) by {
            assert(rest[i] == ls[i + 1]);
        }
        lemma_lines_of_chomped(rest);
        assert(lines(text) =~= Seq::new(ls.len(), |i: int| chomp(ls[i])));
    } else {
        assert(lines(ended_lines(ls)) =~= Seq::new(ls.len(), |i: int| chomp(ls[i])));
    }
}

/// Lines that are written one after another are read back.
pub proof fn lemma_lines_of_ended(ls: Seq<Seq<char>>)
    requires
        forall|i: int| 0 <= i < ls.len() ==> no_break(#[trigger] ls[i]) && chomp(ls[i]) == ls[i],
    ensures
        lines(ended_lines(ls)) == ls,
{
    lemma_lines_of_chomped(ls);
    assert(lines(ended_lines(ls)) =~= ls);
}

pub proof fn lemma_lines_no_break(s: Seq<char>)
    ensures
        forall|i: int| 0 <= i < lines(s).len() ==> no_break(#[trigger] lines(s)[i]),
    decreases s.len(),
{
    let i = first_index(s, '\n') as int;
    lemma_first_index(s, '\n');
    if s.len() > 0 {
        if i >= s.len() {
            assert(no_break(s));
        } else {
            let rest = s.skip(i + 1);
            lemma_lines_no_break(rest);
            let line = chomp(s.take(i));
            assert(no_break(line)) by {
                if line.contains('\n') {
                    let j = choose|j: int| 0 <= j < line.len() && line[j] == '\n';
                    assert(s[j] == '\n');
                }
            }
            assert forall|k: int| 0 <= k < lines(s).len() implies no_break(
                #[trigger] lines(s)[k],
            ) by {
                if k > 0 {
                    assert(lines(s)[k] == lines(rest)[k - 1]);
                }
            }
        }
    }
}

/// A clean entry is read back from its line.
proof fn lemma_read_entry(key: Seq<char>, value: Seq<char>)
    requires
        clean_entry(key, value),
    ensures
        read_line(key + "="@ + value) == LineView::Entry(key, value),
        no_break(key + "="@ + value),
        chomp(key + "="@ + value) == key + "="@ + value,
{
    reveal_strlit("=");
    assert("="@ =~= seq!['=']);
    let line = key + "="@ + value;
    let n = key.len() as int;
    assert(line[n] == '=');
    if key.len() > 0 {
        assert(line[0] == key[0]);
    }
    if value.len() > 0 {
        assert(line.last() == value.last());
    }
    lemma_trim(line);
    assert(trim(line) == line);
    assert forall|j: int| 0 <= j < n implies line[j] != '=' by {
        assert(line[j] == key[j]);
        assert(key.contains(key[j]));
    }
    lemma_first_index_unique(line, '=', n);
    assert(line.take(n) =~= key);
    assert(line.skip(n + 1) =~= value);
    lemma_trim(key);
    lemma_trim(value);
    if line.contains('\n') {
        let j = choose|j: int| 0 <= j < line.len() && line[j] == '\n';
        if j < n {
            assert(key[j] == '\n');
        } else if j > n {
            assert(value[j - n - 1] == '\n');
        }
    }
}

proof fn lemma_read_header(name: Seq<char>)
    requires
        no_break(name),
    ensures
        read_line("["@ + name + "]"@) == LineView::Header(name),
        no_break("["@ + name + "]"@),
        chomp("["@ + name + "]"@) == "["@ + name + "]"@,
{
    reveal_strlit("[");
    reveal_strlit("]");
    let line = "["@ + name + "]"@;
    assert(line[0] == '[');
    assert(line.last() == ']');
    lemma_trim(line);
    assert(line.subrange(1, line.len() - 1) =~= name);
    if line.contains('\n') {
        let j = choose|j: int| 0 <= j < line.len() && line[j] == '\n';
        assert(name[j - 1] == '\n');
    }
}

/// What a line says can be written on a line.
proof fn lemma_read_line_clean(raw: Seq<char>)
    requires
        no_break(raw),
    ensures
        read_line(raw) matches LineView::Entry(key, value) ==> clean_entry(key, value),
        read_line(raw) matches LineView::Header(name) ==> no_break(name),
{
    let line = trim(raw);
    lemma_trim(raw);
    match read_line(raw) {
        LineView::Entry(key, value) => {
            let i = first_index(line, '=') as int;
            lemma_first_index(line, '=');
            let (k, v) = (line.take(i), line.skip(i + 1));
            lemma_trim(k);
            lemma_trim(v);
            assert(!k.contains('=')) by {
                if k.contains('=') {
                    let j = choose|j: int| 0 <= j < k.len() && k[j] == '=';
                    assert(line[j] == '=');
                }
            }
            assert(forall|c: char| k.contains(c) ==> line.contains(c)) by {
                assert forall|c: char| k.contains(c) implies line.contains(c) by {
                    let j = choose|j: int| 0 <= j < k.len() && k[j] == c;
                    assert(line[j] == c);
                }
            }
            assert(forall|c: char| v.contains(c) ==> line.contains(c)) by {
                assert forall|c: char| v.contains(c) implies line.contains(c) by {
                    let j = choose|j: int| 0 <= j < v.len() && v[j] == c;
                    assert(line[i + 1 + j] == c);
                }
            }
            if k.len() > 0 {
                assert(k[0] == line[0]);
            }
            if v.len() > 0 {
                assert(v.last() == line.last());
            }
        },
        LineView::Header(name) => {
            if name.contains('\n') {
                let j = choose|j: int| 0 <= j < name.len() && name[j] == '\n';
                assert(line[j + 1] == '\n');
                assert(line.contains('\n'));
            }
        },
        LineView::Nothing => {},
    }
}

pub proof fn lemma_entries_clean(ls: Seq<Seq<char>>, section: Seq<char>)
    requires
        forall|i: int| 0 <= i < ls.len() ==> no_break(#[trigger] ls[i]),
    ensures
        forall|i: int|
            0 <= i < entries_in(ls, section).len() ==> clean_entry(
                (#[trigger] entries_in(ls, section)[i]).0,
                entries_in(ls, section)[i].1,
            ),
    decreases ls.len(),
{
    if ls.len() > 0 {
        let head = ls.drop_last();
        assert forall|i: int| 0 <= i < head.len() implies no_break(#[trigger] head[i]) by {
            assert(head[i] == ls[i]);
        }
        lemma_entries_clean(head, section);
        assert(no_break(ls[ls.len() - 1]));
        lemma_read_line_clean(ls.last());
        let (all, before) = (entries_in(ls, section), entries_in(head, section));
        assert forall|i: int| 0 <= i < all.len() implies clean_entry(
            (#[trigger] all[i]).0,
            all[i].1,
        ) by {
            if i < before.len() {
                assert(all[i] == before[i]);
            }
        }
    }
}

pub proof fn lemma_names_clean(ls: Seq<Seq<char>>)
    requires
        forall|i: int| 0 <= i < ls.len() ==> no_break(#[trigger] ls[i]),
    ensures
        forall|i: int| 0 <= i < names_in(ls).len() ==> no_break(#[trigger] names_in(ls)[i]),
    decreases ls.len(),
{
    if ls.len() > 0 {
        let head = ls.drop_last();
        assert forall|i: int| 0 <= i < head.len() implies no_break(#[trigger] head[i]) by {
            assert(head[i] == ls[i]);
        }
        lemma_names_clean(head);
        assert(no_break(ls[ls.len() - 1]));
        lemma_read_line_clean(ls.last());
        let (all, before) = (names_in(ls), names_in(head));
        assert forall|i: int| 0 <= i < all.len() implies no_break(#[trigger] all[i]) by {
            if i < before.len() {
                assert(all[i] == before[i]);
            }
        }
    }
}

/// A section that is open has a name.
pub proof fn lemma_open_section_named(ls: Seq<Seq<char>>, section: Seq<char>)
    ensures
        section_at(ls) == Some(section) ==> names_in(ls).contains(section),
        entries_in(ls, section).len() > 0 ==> names_in(ls).contains(section),
    decreases ls.len(),
{
    if ls.len() > 0 {
        let head = ls.drop_last();
        lemma_open_section_named(head, section);
        let before = names_in(head);
        if before.contains(section) {
            let i = choose|i: int| 0 <= i < before.len() && before[i] == section;
            assert(names_in(ls)[i] == section);
        }
        match read_line(ls.last()) {
            LineView::Header(name) => {
                if name == section && !before.contains(name) {
                    assert(names_in(ls)[before.len() as int] == section);
                }
            },
            _ => {},
        }
    }
}

/// What the pairs say of a key is what the map says that they fill.
pub proof fn lemma_filled(pairs: Seq<(Seq<char>, Seq<char>)>, key: Seq<char>)
    ensures
        filled(pairs).dom().contains(key) <==> last_value(pairs, key) is Some,
        last_value(pairs, key) matches Some(v) ==> filled(pairs)[key] == v,
        last_value(pairs, key) matches Some(v) ==> exists|i: int|
            0 <= i < pairs.len() && #[trigger] pairs[i] == (key, v),
        last_value(pairs, key) is None ==> forall|i: int|
            0 <= i < pairs.len() ==> (#[trigger] pairs[i]).0 != key,
    decreases pairs.len(),
{
    if pairs.len() > 0 {
        let head = pairs.drop_last();
        lemma_filled(head, key);
        if pairs.last().0 == key {
            assert(pairs[pairs.len() - 1] == (key, pairs.last().1));
        } else {
            match last_value(head, key) {
                Some(v) => {
                    let i = choose|i: int| 0 <= i < head.len() && #[trigger] head[i] == (key, v);
                    assert(pairs[i] == (key, v));
                },
                None => {
                    assert forall|i: int| 0 <= i < pairs.len() implies (#[trigger] pairs[i]).0
                        != key by {
                        if i < head.len() {
                            assert(head[i] == pairs[i]);
                        }
                    }
                },
            }
        }
    }
}

/// Reading metadata into sections keeps what it says.
pub proof fn lemma_parsed(metadata: Seq<char>, section: Seq<char>, key: Seq<char>)
    ensures
        lookup(parsed(metadata), section, key) == value_of(metadata, section, key),
        clean_view(parsed(metadata)),
{
    let ls = lines(metadata);
    lemma_lines_no_break(metadata);
    lemma_open_section_named(ls, section);
    lemma_filled(entries_of(metadata, section), key);
    lemma_names_clean(ls);
    assert forall|name: Seq<char>| #[trigger] parsed(metadata).dom().contains(name) implies no_break(
        name,
    ) && clean_section(parsed(metadata)[name]) by {
        let i = choose|i: int| 0 <= i < names_in(ls).len() && names_in(ls)[i] == name;
        assert(no_break(names_in(ls)[i]));
        lemma_entries_clean(ls, name);
        let pairs = entries_of(metadata, name);
        assert forall|k: Seq<char>| #[trigger] filled(pairs).dom().contains(k) implies clean_entry(
            k,
            filled(pairs)[k],
        ) by {
            lemma_filled(pairs, k);
            let v = last_value(pairs, k)->0;
            let i = choose|i: int| 0 <= i < pairs.len() && #[trigger] pairs[i] == (k, v);
            assert(clean_entry(pairs[i].0, pairs[i].1));
        }
    }
    if !names_in(ls).contains(section) {
        assert(entries_of(metadata, section).len() == 0);
    }
}

/// The items of a value are trimmed, not empty, and made of what the value is made of.
pub open spec fn clean_list(items: Seq<Seq<char>>) -> bool {
    forall|i: int|
        0 <= i < items.len() ==> (#[trigger] items[i]).len() > 0 && is_trimmed(items[i])
            && !items[i].contains(';') && no_break(items[i])
}

proof fn lemma_clean_items(parts: Seq<Seq<char>>)
    requires
        forall|i: int|
            0 <= i < parts.len() ==> !(#[trigger] parts[i]).contains(';') && no_break(parts[i]),
    ensures
        clean_list(clean_items(parts)),
    decreases parts.len(),
{
    if parts.len() > 0 {
        let head = parts.drop_last();
        assert forall|i: int| 0 <= i < head.len() implies !(#[trigger] head[i]).contains(';')
            && no_break(head[i]) by {
            assert(head[i] == parts[i]);
        }
        lemma_clean_items(head);
        assert(!parts[parts.len() - 1].contains(';'));
        lemma_trim(parts.last());
    }
}

proof fn lemma_split_chars(s: Seq<char>, sep: char, c: char)
    ensures
        forall|i: int|
            0 <= i < split(s, sep).len() && (#[trigger] split(s, sep)[i]).contains(c)
                ==> s.contains(c),
    decreases s.len(),
{
    let i = first_index(s, sep) as int;
    lemma_first_index(s, sep);
    if i < s.len() {
        let rest = s.skip(i + 1);
        lemma_split_chars(rest, sep, c);
        assert forall|k: int|
            0 <= k < split(s, sep).len() && (#[trigger] split(s, sep)[k]).contains(
                c,
            ) implies s.contains(c) by {
            if k == 0 {
                let j = choose|j: int| 0 <= j < i && s.take(i)[j] == c;
                assert(s[j] == c);
            } else {
                assert(split(s, sep)[k] == split(rest, sep)[k - 1]);
                let j = choose|j: int| 0 <= j < rest.len() && rest[j] == c;
                assert(s[i + 1 + j] == c);
            }
        }
    }
}

pub proof fn lemma_list_items_clean(value: Seq<char>)
    requires
        no_break(value),
    ensures
        clean_list(list_items(value)),
{
    let parts = split(value, ';');
    lemma_split_join(value, ';');
    lemma_split_chars(value, ';', '\n');
    assert forall|i: int| 0 <= i < parts.len() implies !(#[trigger] parts[i]).contains(';')
        && no_break(parts[i]) by {
        if parts[i].contains(';') {
            let j = choose|j: int| 0 <= j < parts[i].len() && parts[i][j] == ';';
            assert(split(value, ';')[i][j] != ';');
        }
    }
    lemma_clean_items(parts);
}

proof fn lemma_clean_items_id(items: Seq<Seq<char>>)
    requires
        clean_list(items),
    ensures
        clean_items(items) == items,
    decreases items.len(),
{
    if items.len() > 0 {
        let head = items.drop_last();
        assert(clean_list(head)) by {
            assert forall|i: int| 0 <= i < head.len() implies (#[trigger] head[i]).len() > 0
                && is_trimmed(head[i]) && !head[i].contains(';') && no_break(head[i]) by {
                assert(head[i] == items[i]);
            }
        }
        lemma_clean_items_id(head);
        assert(items[items.len() - 1].len() > 0);
        lemma_trim(items.last());
        assert(items =~= head.push(items.last()));
    } else {
        assert(clean_items(items) =~= items);
    }
}

/// A list value is read back as the items that it was made of.
pub proof fn lemma_list_value(items: Seq<Seq<char>>)
    requires
        clean_list(items),
    ensures
        list_items(list_value(items)) == items,
        no_break(list_value(items)),
        is_trimmed(list_value(items)),
        list_value(items).len() > 0 ==> list_value(items).last() == ';',
{
    reveal_strlit(";");
    assert(";"@ =~= seq![';']);
    let none = Seq::<char>::empty();
    if items.len() == 0 {
        lemma_first_index_unique(none, ';', 0);
        assert(split(none, ';') =~= seq![none]);
        lemma_trim(none);
        assert(seq![none].drop_last() =~= Seq::<Seq<char>>::empty());
        assert(clean_items(seq![none].drop_last()) =~= Seq::<Seq<char>>::empty());
        assert(clean_items(seq![none]) =~= items);
    } else {
        let all = items.push(none);
        assert(all.drop_last() =~= items);
        assert(join(all, seq![';']) =~= list_value(items));
        assert forall|i: int| 0 <= i < all.len() implies !(#[trigger] all[i]).contains(';') by {
            if i < items.len() {
                assert(all[i] == items[i]);
            }
        }
        lemma_join_split(all, ';');
        lemma_trim(none);
        lemma_clean_items_id(items);
        lemma_join_chars(items, '\n');
        lemma_join_first(items);
        let v = list_value(items);
        assert(v.last() == ';');
        assert(items[0].len() > 0);
        assert(v[0] == items[0][0]);
        if v.contains('\n') {
            let j = choose|j: int| 0 <= j < v.len() && v[j] == '\n';
            assert(join(items, ";"@)[j] == '\n');
        }
    }
}

proof fn lemma_join_first(items: Seq<Seq<char>>)
    requires
        items.len() > 0,
        items[0].len() > 0,
    ensures
        join(items, ";"@).len() > 0,
        join(items, ";"@)[0] == items[0][0],
    decreases items.len(),
{
    if items.len() > 1 {
        lemma_join_first(items.drop_last());
    }
}

proof fn lemma_join_chars(items: Seq<Seq<char>>, c: char)
    requires
        c != ';',
        forall|i: int| 0 <= i < items.len() ==> !(#[trigger] items[i]).contains(c),
    ensures
        !join(items, ";"@).contains(c),
    decreases items.len(),
{
    reveal_strlit(";");
    if items.len() == 1 {
        assert(!items[0].contains(c));
    } else if items.len() > 1 {
        let head = items.drop_last();
        assert forall|i: int| 0 <= i < head.len() implies !(#[trigger] head[i]).contains(c) by {
            assert(head[i] == items[i]);
        }
        lemma_join_chars(head, c);
        assert(!items[items.len() - 1].contains(c));
        let text = join(items, ";"@);
        if text.contains(c) {
            let j = choose|j: int| 0 <= j < text.len() && text[j] == c;
            let n = join(head, ";"@).len();
            if j < n {
                assert(join(head, ";"@)[j] == c);
            } else if j > n {
                assert(items.last()[j - n - 1] == c);
            }
        }
    }
}

proof fn lemma_without_clean(items: Seq<Seq<char>>, id: Seq<char>, filesystem: bool)
    requires
        clean_list(items),
    ensures
        clean_list(without(items, id, filesystem)),
    decreases items.len(),
{
    if items.len() > 0 {
        let head = items.drop_last();
        assert forall|i: int| 0 <= i < head.len() implies (#[trigger] head[i]).len() > 0
            && is_trimmed(head[i]) && !head[i].contains(';') && no_break(head[i]) by {
            assert(head[i] == items[i]);
        }
        lemma_without_clean(head, id, filesystem);
        assert(items[items.len() - 1].len() > 0);
    }
}

pub proof fn lemma_merged_clean(base: Seq<Seq<char>>, overlay: Seq<Seq<char>>, filesystem: bool)
    requires
        clean_list(base),
        clean_list(overlay),
    ensures
        clean_list(merged_items(base, overlay, filesystem)),
    decreases overlay.len(),
{
    if overlay.len() > 0 {
        let head = overlay.drop_last();
        assert forall|i: int| 0 <= i < head.len() implies (#[trigger] head[i]).len() > 0
            && is_trimmed(head[i]) && !head[i].contains(';') && no_break(head[i]) by {
            assert(head[i] == overlay[i]);
        }
        lemma_merged_clean(base, head, filesystem);
        let id = identity(overlay.last(), filesystem);
        lemma_without_clean(merged_items(base, head, filesystem), id, filesystem);
        assert(overlay[overlay.len() - 1].len() > 0);
    }
}

/// The last item that is about `id`.
pub open spec fn last_about(items: Seq<Seq<char>>, id: Seq<char>, filesystem: bool) -> Option<
    Seq<char>,
>
    decreases items.len(),
{
    if items.len() == 0 {
        None
    } else if identity(items.last(), filesystem) == id {
        Some(items.last())
    } else {
        last_about(items.drop_last(), id, filesystem)
    }
}

proof fn lemma_last_about_without(
    items: Seq<Seq<char>>,
    gone: Seq<char>,
    id: Seq<char>,
    filesystem: bool,
)
    requires
        gone != id,
    ensures
        last_about(without(items, gone, filesystem), id, filesystem) == last_about(
            items,
            id,
            filesystem,
        ),
    decreases items.len(),
{
    if items.len() > 0 {
        let head = items.drop_last();
        lemma_last_about_without(head, gone, id, filesystem);
        let rest = without(head, gone, filesystem);
        if identity(items.last(), filesystem) != gone {
            assert(rest.push(items.last()).drop_last() =~= rest);
        }
    }
}

/// Overrides win: of what a merged list says of a thing, the overlay's last word counts, and
/// where the overlay says nothing of it, what was said before stands.
pub proof fn lemma_merge_precedence(
    base: Seq<Seq<char>>,
    overlay: Seq<Seq<char>>,
    id: Seq<char>,
    filesystem: bool,
)
    ensures
        last_about(merged_items(base, overlay, filesystem), id, filesystem) == (match last_about(
            overlay,
            id,
            filesystem,
        ) {
            Some(item) => Some(item),
            None => last_about(base, id, filesystem),
        }),
    decreases overlay.len(),
{
    if overlay.len() > 0 {
        let head = overlay.drop_last();
        lemma_merge_precedence(base, head, id, filesystem);
        let merged = merged_items(base, head, filesystem);
        let gone = identity(overlay.last(), filesystem);
        let rest = without(merged, gone, filesystem);
        assert(rest.push(overlay.last()).drop_last() =~= rest);
        if gone != id {
            lemma_last_about_without(merged, gone, id, filesystem);
        }
    }
}

/// Overrides win also in the value that is written: read again, it says of a thing what the
/// overlay says last, or what the value before said.
pub proof fn lemma_merged_value_precedence(
    base: Seq<char>,
    overlay: Seq<char>,
    section: Seq<char>,
    key: Seq<char>,
    id: Seq<char>,
)
    requires
        is_list_key(section, key),
        no_break(base),
        no_break(overlay),
    ensures
        last_about(
            list_items(merged_value(Some(base), section, key, overlay)),
            id,
            key == "filesystems"@,
        ) == (match last_about(list_items(overlay), id, key == "filesystems"@) {
            Some(item) => Some(item),
            None => last_about(list_items(base), id, key == "filesystems"@),
        }),
{
    let filesystem = key == "filesystems"@;
    lemma_list_items_clean(base);
    lemma_list_items_clean(overlay);
    lemma_merged_clean(list_items(base), list_items(overlay), filesystem);
    lemma_list_value(merged_items(list_items(base), list_items(overlay), filesystem));
    lemma_merge_precedence(list_items(base), list_items(overlay), id, filesystem);
}

proof fn lemma_with_entry_clean(
    view: Map<Seq<char>, Map<Seq<char>, Seq<char>>>,
    section: Seq<char>,
    key: Seq<char>,
    value: Seq<char>,
)
    requires
        clean_view(view),
        no_break(section),
        clean_entry(key, value),
    ensures
        clean_view(with_entry(view, section, key, value)),
{
    let after = with_entry(view, section, key, value);
    assert forall|name: Seq<char>| #[trigger] after.dom().contains(name) implies no_break(name)
        && clean_section(after[name]) by {
        if name != section {
            assert(view.dom().contains(name));
        } else {
            assert forall|k: Seq<char>| #[trigger] after[name].dom().contains(
                k,
            ) implies clean_entry(k, after[name][k]) by {
                if k != key {
                    assert(view.dom().contains(name));
                    assert(view[name].dom().contains(k));
                }
            }
        }
    }
}

pub proof fn lemma_overlaid_pairs_clean(
    view: Map<Seq<char>, Map<Seq<char>, Seq<char>>>,
    section: Seq<char>,
    pairs: Seq<(Seq<char>, Seq<char>)>,
)
    requires
        clean_view(view),
        no_break(section),
        forall|i: int|
            0 <= i < pairs.len() ==> clean_entry((#[trigger] pairs[i]).0, pairs[i].1),
    ensures
        clean_view(overlaid_pairs(view, section, pairs)),
    decreases pairs.len(),
{
    if pairs.len() > 0 {
        let head = pairs.drop_last();
        assert forall|i: int| 0 <= i < head.len() implies clean_entry(
            (#[trigger] head[i]).0,
            head[i].1,
        ) by {
            assert(head[i] == pairs[i]);
        }
        lemma_overlaid_pairs_clean(view, section, head);
        let before = overlaid_pairs(view, section, head);
        assert(clean_entry(pairs[pairs.len() - 1].0, pairs[pairs.len() - 1].1));
        let (key, value) = pairs.last();
        let base = lookup(before, section, key);
        let merged = merged_value(base, section, key, value);
        if is_list_key(section, key) {
            let text = match base {
                Some(v) => v,
                None => Seq::empty(),
            };
            assert(no_break(text)) by {
                if base is Some {
                    assert(before.dom().contains(section));
                    assert(before[section].dom().contains(key));
                }
            }
            lemma_list_items_clean(text);
            lemma_list_items_clean(value);
            let filesystem = key == "filesystems"@;
            lemma_merged_clean(list_items(text), list_items(value), filesystem);
            lemma_list_value(merged_items(list_items(text), list_items(value), filesystem));
        }
        lemma_with_entry_clean(before, section, key, merged);
    }
}

pub proof fn lemma_overlaid_sections_clean(
    view: Map<Seq<char>, Map<Seq<char>, Seq<char>>>,
    overlay: Seq<char>,
    names: Seq<Seq<char>>,
)
    requires
        clean_view(view),
        forall|i: int| 0 <= i < names.len() ==> no_break(#[trigger] names[i]),
    ensures
        clean_view(overlaid_sections(view, overlay, names)),
    decreases names.len(),
{
    if names.len() > 0 {
        let head = names.drop_last();
        assert forall|i: int| 0 <= i < head.len() implies no_break(#[trigger] head[i]) by {
            assert(head[i] == names[i]);
        }
        lemma_overlaid_sections_clean(view, overlay, head);
        assert(no_break(names[names.len() - 1]));
        lemma_lines_no_break(overlay);
        lemma_entries_clean(lines(overlay), names.last());
        lemma_overlaid_pairs_clean(
            overlaid_sections(view, overlay, head),
            names.last(),
            entries_of(overlay, names.last()),
        );
    }
}

pub proof fn lemma_overlaid_clean(
    view: Map<Seq<char>, Map<Seq<char>, Seq<char>>>,
    overlay: Seq<char>,
)
    requires
        clean_view(view),
    ensures
        clean_view(overlaid(view, overlay)),
{
    lemma_lines_no_break(overlay);
    lemma_names_clean(lines(overlay));
    lemma_overlaid_sections_clean(view, overlay, names_in(lines(overlay)));
}

/// What the overrides make of metadata can be written and read back.
pub proof fn lemma_effective_clean(
    metadata: Seq<char>,
    global: Option<Seq<char>>,
    application: Option<Seq<char>>,
)
    ensures
        clean_view(effective(metadata, global, application)),
{
    lemma_parsed(metadata, Seq::empty(), Seq::empty());
    let base = parsed(metadata);
    let with_global = match global {
        Some(overlay) => overlaid(base, overlay),
        None => base,
    };
    if global is Some {
        lemma_overlaid_clean(base, global->0);
    }
    if application is Some {
        lemma_overlaid_clean(with_global, application->0);
    }
}

/// The entries that a written section has when it is read.
proof fn lemma_read_section(
    ls: Seq<Seq<char>>,
    name: Seq<char>,
    entries: Seq<(String, String)>,
    n: int,
    section: Seq<char>,
)
    requires
        no_break(name),
        0 <= n <= entries.len(),
        forall|i: int|
            0 <= i < entries.len() ==> clean_entry((#[trigger] entries[i]).0@, entries[i].1@),
    ensures
        ({
            let all = ls + seq!["["@ + name + "]"@] + entry_lines(entries).take(n);
            &&& section_at(all) == Some(name)
            &&& entries_in(all, section) == entries_in(ls, section) + (if name == section {
                pair_texts(entries).take(n)
            } else {
                Seq::empty()
            })
        }),
    decreases n,
{
    let header = "["@ + name + "]"@;
    let all = ls + seq![header] + entry_lines(entries).take(n);
    let none = Seq::<(Seq<char>, Seq<char>)>::empty();
    if n == 0 {
        lemma_read_header(name);
        assert(all =~= ls.push(header));
        assert(all.drop_last() =~= ls);
        assert(pair_texts(entries).take(0) =~= none);
        assert(entries_in(ls, section) + none =~= entries_in(ls, section));
    } else {
        lemma_read_section(ls, name, entries, n - 1, section);
        let before = ls + seq![header] + entry_lines(entries).take(n - 1);
        let (key, value) = (entries[n - 1].0@, entries[n - 1].1@);
        assert(clean_entry(entries[n - 1].0@, entries[n - 1].1@));
        lemma_read_entry(key, value);
        assert(all =~= before.push(key + "="@ + value));
        assert(all.drop_last() =~= before);
        assert(pair_texts(entries).take(n) =~= pair_texts(entries).take(n - 1).push((key, value)));
        if name == section {
            assert(entries_in(all, section) =~= entries_in(ls, section) + pair_texts(
                entries,
            ).take(n));
        }
    }
}

/// Whether everything in the sections can be written and read back.
spec fn clean_sections(sections: Seq<(String, SortedMap<String>)>) -> bool {
    forall|i: int|
        0 <= i < sections.len() ==> no_break((#[trigger] sections[i]).0@) && clean_entries(
            sections[i].1.entries@,
        )
}

spec fn clean_entries(entries: Seq<(String, String)>) -> bool {
    forall|i: int|
        0 <= i < entries.len() ==> clean_entry((#[trigger] entries[i]).0@, entries[i].1@)
}

proof fn lemma_key_file_lines(sections: Seq<(String, SortedMap<String>)>, section: Seq<char>)
    requires
        keys_ascend(sections),
        clean_sections(sections),
    ensures
        forall|i: int|
            0 <= i < key_file_lines(sections).len() ==> no_break(
                #[trigger] key_file_lines(sections)[i],
            ) && chomp(key_file_lines(sections)[i]) == key_file_lines(sections)[i],
        forall|i: int| #[trigger]
            holds_at(sections, section, i) ==> entries_in(key_file_lines(sections), section)
                == pair_texts(sections[i].1.entries@),
        (forall|i: int| !holds_at(sections, section, i)) ==> entries_in(
            key_file_lines(sections),
            section,
        ).len() == 0,
    decreases sections.len(),
{
    if sections.len() > 0 {
        let head = sections.drop_last();
        assert(keys_ascend(head)) by {
            assert forall|i: int, j: int|
                #![trigger head[i], head[j]]
                0 <= i < j < head.len() implies crate::order::text_order(head[i].0@, head[j].0@)
                == crate::order::Relation::Before by {
                assert(head[i] == sections[i] && head[j] == sections[j]);
            }
        }
        assert(clean_sections(head)) by {
            assert forall|i: int| 0 <= i < head.len() implies no_break((#[trigger] head[i]).0@)
                && clean_entries(head[i].1.entries@) by {
                assert(head[i] == sections[i]);
            }
        }
        lemma_key_file_lines(head, section);
        let last = sections.len() - 1;
        assert(no_break(sections[last].0@));
        let name = sections[last].0@;
        let entries = sections[last].1.entries@;
        let ls = key_file_lines(head);
        let header = "["@ + name + "]"@;
        let blank = Seq::<char>::empty();
        lemma_read_section(ls, name, entries, entries.len() as int, section);
        assert(entry_lines(entries).take(entries.len() as int) =~= entry_lines(entries));
        assert(pair_texts(entries).take(entries.len() as int) =~= pair_texts(entries));
        let before = ls + seq![header] + entry_lines(entries);
        let all = key_file_lines(sections);
        assert(all =~= before.push(blank));
        assert(all.drop_last() =~= before);
        lemma_trim(blank);
        assert(read_line(blank) == LineView::Nothing);
        assert(entries_in(all, section) == entries_in(before, section));
        lemma_read_header(name);
        assert forall|i: int| 0 <= i < all.len() implies no_break(#[trigger] all[i]) && chomp(
            all[i],
        ) == all[i] by {
            if i < ls.len() {
                assert(all[i] == ls[i]);
            } else if i == ls.len() {
                assert(all[i] == header);
            } else if i < before.len() {
                let j = i - ls.len() - 1;
                assert(clean_entry(entries[j].0@, entries[j].1@));
                lemma_read_entry(entries[j].0@, entries[j].1@);
                assert(all[i] == entry_lines(entries)[j]);
            } else {
                assert(all[i] == blank);
            }
        }
        lemma_map_of(sections, last);
        if name == section {
            assert(holds_at(sections, section, last));
            assert forall|i: int| !holds_at(head, section, i) by {
                if holds_at(head, section, i) {
                    assert(head[i] == sections[i]);
                    assert(holds_at(sections, section, i));
                }
            }
            assert(entries_in(all, section) =~= pair_texts(entries));
        } else {
            assert(entries_in(all, section) =~= entries_in(ls, section));
            assert forall|i: int| #[trigger] holds_at(sections, section, i) implies entries_in(
                all,
                section,
            ) == pair_texts(sections[i].1.entries@) by {
                assert(i != last);
                assert(head[i] == sections[i]);
                assert(holds_at(head, section, i));
            }
            if forall|i: int| !holds_at(sections, section, i) {
                assert forall|i: int| !holds_at(head, section, i) by {
                    if holds_at(head, section, i) {
                        assert(head[i] == sections[i]);
                        assert(holds_at(sections, section, i));
                    }
                }
            }
        }
    }
}

/// What is looked up in sorted entries is the last value among their pairs.
pub proof fn lemma_sorted_pairs(entries: Seq<(String, String)>, key: Seq<char>)
    requires
        keys_ascend(entries),
    ensures
        last_value(pair_texts(entries), key) == (if map_of(entries).dom().contains(key) {
            Some(map_of(entries)[key]@)
        } else {
            None
        }),
{
    let pairs = pair_texts(entries);
    lemma_filled(pairs, key);
    match last_value(pairs, key) {
        Some(v) => {
            let i = choose|i: int| 0 <= i < pairs.len() && #[trigger] pairs[i] == (key, v);
            assert(entries[i].0@ == key);
            lemma_map_of(entries, i);
        },
        None => {
            if map_of(entries).dom().contains(key) {
                let i = lemma_map_of_place(entries, key);
                assert(pairs[i].0 == key);
            }
        },
    }
}

/// A key file that is written is read back with all that it says.
pub proof fn lemma_written_key_file(key_file: KeyFile, section: Seq<char>, key: Seq<char>)
    requires
        key_file_wf(key_file),
        clean_view(key_file_view(key_file)),
    ensures
        value_of(ended_lines(key_file_lines(key_file.entries@)), section, key) == lookup(
            key_file_view(key_file),
            section,
            key,
        ),
{
    let sections = key_file.entries@;
    let view = key_file_view(key_file);
    assert(clean_sections(sections)) by {
        assert forall|i: int| 0 <= i < sections.len() implies no_break(
            (#[trigger] sections[i]).0@,
        ) && clean_entries(sections[i].1.entries@) by {
            lemma_map_of(sections, i);
            let name = sections[i].0@;
            assert(view.dom().contains(name));
            assert(key_file@.dom().contains(name));
            let entries = sections[i].1.entries@;
            assert(sections[i].1.wf());
            assert forall|j: int| 0 <= j < entries.len() implies clean_entry(
                (#[trigger] entries[j]).0@,
                entries[j].1@,
            ) by {
                lemma_map_of(entries, j);
                assert(view[name].dom().contains(entries[j].0@));
            }
        }
    }
    lemma_key_file_lines(sections, section);
    lemma_lines_of_ended(key_file_lines(sections));
    if key_file@.dom().contains(section) {
        let i = lemma_map_of_place(sections, section);
        assert(holds_at(sections, section, i));
        lemma_sorted_pairs(sections[i].1.entries@, key);
        assert(view[section] == section_view(sections[i].1));
    } else {
        assert forall|i: int| !holds_at(sections, section, i) by {
            if holds_at(sections, section, i) {
                lemma_map_of(sections, i);
            }
        }
    }
}

/// Without overrides the effective metadata says what the metadata says.
pub proof fn lemma_no_overrides(metadata: Seq<char>, section: Seq<char>, key: Seq<char>)
    ensures
        lookup(effective(metadata, None, None), section, key) == value_of(metadata, section, key),
{
    lemma_parsed(metadata, section, key);
}

proof fn lemma_overlaid_pairs_lookup(
    view: Map<Seq<char>, Map<Seq<char>, Seq<char>>>,
    name: Seq<char>,
    pairs: Seq<(Seq<char>, Seq<char>)>,
    section: Seq<char>,
    key: Seq<char>,
)
    ensures
        name != section || last_value(pairs, key) is None ==> lookup(
            overlaid_pairs(view, name, pairs),
            section,
            key,
        ) == lookup(view, section, key),
        name == section && !is_list_key(section, key) && last_value(pairs, key) is Some ==> lookup(
            overlaid_pairs(view, name, pairs),
            section,
            key,
        ) == last_value(pairs, key),
    decreases pairs.len(),
{
    if pairs.len() > 0 {
        lemma_overlaid_pairs_lookup(view, name, pairs.drop_last(), section, key);
    }
}

proof fn lemma_overlaid_sections_lookup(
    view: Map<Seq<char>, Map<Seq<char>, Seq<char>>>,
    overlay: Seq<char>,
    names: Seq<Seq<char>>,
    section: Seq<char>,
    key: Seq<char>,
)
    ensures
        !names.contains(section) || value_of(overlay, section, key) is None ==> lookup(
            overlaid_sections(view, overlay, names),
            section,
            key,
        ) == lookup(view, section, key),
        names.contains(section) && !is_list_key(section, key) && value_of(
            overlay,
            section,
            key,
        ) is Some ==> lookup(overlaid_sections(view, overlay, names), section, key) == value_of(
            overlay,
            section,
            key,
        ),
    decreases names.len(),
{
    if names.len() > 0 {
        let head = names.drop_last();
        lemma_overlaid_sections_lookup(view, overlay, head, section, key);
        lemma_overlaid_pairs_lookup(
            overlaid_sections(view, overlay, head),
            names.last(),
            entries_of(overlay, names.last()),
            section,
            key,
        );
        if names.contains(section) && names.last() != section {
            let i = choose|i: int| 0 <= i < names.len() && names[i] == section;
            assert(head[i] == section);
        }
        if head.contains(section) {
            let i = choose|i: int| 0 <= i < head.len() && head[i] == section;
            assert(names[i] == section);
        }
        if names.last() == section {
            assert(names[names.len() - 1] == section);
        }
    }
}

/// What an overlay says of a key counts, unless the key holds a list; what it does not speak of
/// stays as it was.
pub proof fn lemma_overlay_precedence(
    view: Map<Seq<char>, Map<Seq<char>, Seq<char>>>,
    overlay: Seq<char>,
    section: Seq<char>,
    key: Seq<char>,
)
    ensures
        value_of(overlay, section, key) is None ==> lookup(overlaid(view, overlay), section, key)
            == lookup(view, section, key),
        value_of(overlay, section, key) is Some && !is_list_key(section, key) ==> lookup(
            overlaid(view, overlay),
            section,
            key,
        ) == value_of(overlay, section, key),
{
    let ls = lines(overlay);
    lemma_overlaid_sections_lookup(view, overlay, names_in(ls), section, key);
    lemma_open_section_named(ls, section);
}

} // verus!
