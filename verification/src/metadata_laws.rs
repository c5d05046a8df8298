//! How a key file is read, line by line.

use crate::flatpak_metadata::{
    clean_items, entries_in, last_value, list_items, names_in, read_line, section_at, LineView,
};
use crate::text::{is_space, is_trimmed, lemma_first_index_unique, split, trim};
use crate::text_laws::{all_space, lemma_split_at_a_character, lemma_trimmed_exactly};
use vstd::prelude::*;

verus! {

/// Whether a text can be the key of an entry.
pub open spec fn is_key(key: Seq<char>) -> bool {
    &&& key.len() > 0
    &&& is_trimmed(key)
    &&& !key.contains('=')
    &&& key[0] != '#'
    &&& key[0] != '['
}

proof fn lemma_space_before(space: Seq<char>, part: Seq<char>)
    requires
        all_space(space),
        is_trimmed(part),
    ensures
        trim(space + part) == part,
        trim(part + space) == part,
{
    let none = Seq::<char>::empty();
    lemma_trimmed_exactly(space, part, none);
    assert(space + part + none =~= space + part);
    lemma_trimmed_exactly(none, part, space);
    assert(none + part + space =~= part + space);
}

/// An entry is read with whatever white space stands around its key and its value. The first `=`
/// ends the key: the value may hold others.
pub proof fn lemma_entries_are_read(
    key: Seq<char>,
    value: Seq<char>,
    a: Seq<char>,
    b: Seq<char>,
    c: Seq<char>,
    d: Seq<char>,
)
    requires
        is_key(key),
        is_trimmed(value),
        all_space(a),
        all_space(b),
        all_space(c),
        all_space(d),
    ensures
        read_line(a + key + b + seq!['='] + c + value + d) == LineView::Entry(key, value),
{
    let whole = a + key + b + seq!['='] + c + value + d;
    let right = if value.len() > 0 {
        c + value
    } else {
        Seq::empty()
    };
    let tail = if value.len() > 0 {
        d
    } else {
        c + d
    };
    let middle = key + b + seq!['='] + right;
    assert(all_space(tail)) by {
        assert forall|i: int| 0 <= i < tail.len() implies is_space(#[trigger] tail[i]) by {
            if value.len() == 0 {
                if i < c.len() {
                    assert(tail[i] == c[i]);
                } else {
                    assert(tail[i] == d[i - c.len()]);
                }
            }
        }
    }
    assert(whole =~= a + middle + tail);
    assert(middle[0] == key[0]);
    assert(is_trimmed(middle)) by {
        if value.len() > 0 {
            assert(middle.last() == value.last());
        } else {
            assert(middle.last() == '=');
        }
    }
    lemma_trimmed_exactly(a, middle, tail);
    let left = key + b;
    assert(!left.contains('=')) by {
        if left.contains('=') {
            let i = choose|i: int| 0 <= i < left.len() && left[i] == '=';
            if i < key.len() {
                assert(key[i] == '=');
            } else {
                assert(b[i - key.len()] == '=');
            }
        }
    }
    assert(middle =~= left + seq!['='] + right);
    lemma_split_at_a_character(left, right, '=');
    lemma_space_before(b, key);
    if value.len() > 0 {
        lemma_space_before(c, value);
    } else {
        lemma_space_before(Seq::empty(), value);
        assert(right =~= Seq::<char>::empty() + value);
        assert(value =~= right);
    }
}

/// The name of a section stands in brackets; whatever stands between them is the name.
pub proof fn lemma_headers_are_read(name: Seq<char>, before: Seq<char>, after: Seq<char>)
    requires
        all_space(before),
        all_space(after),
    ensures
        read_line(before + seq!['['] + name + seq![']'] + after) == LineView::Header(name),
{
    let line = seq!['['] + name + seq![']'];
    assert(before + seq!['['] + name + seq![']'] + after =~= before + line + after);
    assert(line[0] == '[' && line.last() == ']');
    lemma_trimmed_exactly(before, line, after);
    assert(line.subrange(1, line.len() - 1) =~= name);
}

/// A remark says nothing, whatever it holds, and neither does white space, nor a line that is no
/// header and holds no `=`.
pub proof fn lemma_other_lines_say_nothing(line: Seq<char>, before: Seq<char>, after: Seq<char>)
    requires
        all_space(before),
        all_space(after),
        is_trimmed(line),
        line.len() == 0 || line[0] == '#' || (line[0] != '[' && !line.contains('=')),
    ensures
        read_line(before + line + after) == LineView::Nothing,
{
    lemma_trimmed_exactly(before, line, after);
    lemma_split_at_a_character(line, line, '=');
}

/// Whether the line at a place is a header.
pub open spec fn is_header(ls: Seq<Seq<char>>, at: int) -> bool {
    read_line(ls[at]) is Header
}

/// Whether the section is opened at one place and still open at another one.
pub open spec fn opened(ls: Seq<Seq<char>>, section: Seq<char>, from: int, to: int) -> bool {
    &&& 0 <= from < to
    &&& read_line(ls[from]) == LineView::Header(section)
    &&& forall|k: int| from < k < to ==> !is_header(ls, k)
}

/// Whether the line at a place belongs to the section: its header is the last one before it.
pub open spec fn belongs(ls: Seq<Seq<char>>, section: Seq<char>, at: int) -> bool {
    exists|from: int| opened(ls, section, from, at)
}

proof fn lemma_section(ls: Seq<Seq<char>>, section: Seq<char>, at: int)
    requires
        0 <= at <= ls.len(),
    ensures
        section_at(ls.take(at)) == Some(section) <==> belongs(ls, section, at),
    decreases at,
{
    if at > 0 {
        let head = ls.take(at);
        assert(head.drop_last() =~= ls.take(at - 1));
        assert(head.last() == ls[at - 1]);
        lemma_section(ls, section, at - 1);
        match read_line(ls[at - 1]) {
            LineView::Header(name) => {
                if name == section {
                    assert(opened(ls, section, at - 1, at));
                }
                if belongs(ls, section, at) {
                    let from = choose|from: int| opened(ls, section, from, at);
                    if from < at - 1 {
                        assert(is_header(ls, at - 1));
                    }
                }
            },
            _ => {
                assert(!is_header(ls, at - 1));
                if belongs(ls, section, at - 1) {
                    let t = at - 1;
                    let from = choose|from: int| opened(ls, section, from, t);
                    assert(opened(ls, section, from, at));
                }
                if belongs(ls, section, at) {
                    let from = choose|from: int| opened(ls, section, from, at);
                    assert(opened(ls, section, from, at - 1));
                }
            },
        }
    }
}

/// Whether the line at a place gives the key a value in the section.
pub open spec fn gives(
    ls: Seq<Seq<char>>,
    section: Seq<char>,
    key: Seq<char>,
    value: Seq<char>,
    at: int,
) -> bool {
    read_line(ls[at]) == LineView::Entry(key, value) && belongs(ls, section, at)
}

/// Whether no line from a place on gives the key a value in the section.
pub open spec fn silent_from(
    ls: Seq<Seq<char>>,
    section: Seq<char>,
    key: Seq<char>,
    from: int,
    to: int,
) -> bool {
    forall|k: int, v: Seq<char>| from <= k < to ==> !gives(ls, section, key, v, k)
}

/// Whether the line at a place is the last one that gives the key a value in the section.
pub open spec fn gives_last(
    ls: Seq<Seq<char>>,
    section: Seq<char>,
    key: Seq<char>,
    value: Seq<char>,
    at: int,
    to: int,
) -> bool {
    0 <= at < to && gives(ls, section, key, value, at) && silent_from(ls, section, key, at + 1, to)
}

proof fn lemma_values(
    ls: Seq<Seq<char>>,
    section: Seq<char>,
    key: Seq<char>,
    value: Seq<char>,
    to: int,
)
    requires
        0 <= to <= ls.len(),
    ensures
        last_value(entries_in(ls.take(to), section), key) == Some(value) <==> exists|at: int|
            gives_last(ls, section, key, value, at, to),
        last_value(entries_in(ls.take(to), section), key) is None <==> silent_from(
            ls,
            section,
            key,
            0,
            to,
        ),
    decreases to,
{
    if to > 0 {
        let t = to - 1;
        let head = ls.take(to);
        assert(head.drop_last() =~= ls.take(t));
        assert(head.last() == ls[t]);
        lemma_values(ls, section, key, value, t);
        lemma_section(ls, section, t);
        let before = entries_in(ls.take(t), section);
        let all = entries_in(head, section);
        let said = read_line(ls[t]) is Entry && belongs(ls, section, t);
        if said && read_line(ls[t])->Entry_0 == key {
            let own = read_line(ls[t])->Entry_1;
            assert(gives(ls, section, key, own, t));
            assert(all == before.push((key, own)));
            assert(last_value(all, key) == Some(own));
            assert(silent_from(ls, section, key, t + 1, to));
            assert(gives_last(ls, section, key, own, t, to));
            if exists|at: int| gives_last(ls, section, key, value, at, to) {
                let at = choose|at: int| gives_last(ls, section, key, value, at, to);
                if at < t {
                    assert(!gives(ls, section, key, own, t));
                }
            }
        } else {
            assert forall|v: Seq<char>| !gives(ls, section, key, v, t) by {}
            if said {
                assert(all.drop_last() =~= before);
            }
            assert(last_value(all, key) == last_value(before, key));
            if exists|at: int| gives_last(ls, section, key, value, at, t) {
                let at = choose|at: int| gives_last(ls, section, key, value, at, t);
                assert(gives_last(ls, section, key, value, at, to));
            }
            if exists|at: int| gives_last(ls, section, key, value, at, to) {
                let at = choose|at: int| gives_last(ls, section, key, value, at, to);
                assert(gives_last(ls, section, key, value, at, t));
            }
            if silent_from(ls, section, key, 0, t) {
                assert(silent_from(ls, section, key, 0, to));
            }
            if silent_from(ls, section, key, 0, to) {
                assert(silent_from(ls, section, key, 0, t));
            }
        }
    } else {
        assert(ls.take(0) =~= Seq::<Seq<char>>::empty());
    }
}

/// A key has the value of the last line that names it in the section, which is a line whose nearest
/// header before it is that of the section; and it has none if there is no such line.
pub proof fn lemma_last_lines_count(
    ls: Seq<Seq<char>>,
    section: Seq<char>,
    key: Seq<char>,
    value: Seq<char>,
)
    ensures
        last_value(entries_in(ls, section), key) == Some(value) <==> exists|at: int|
            gives_last(ls, section, key, value, at, ls.len() as int),
        last_value(entries_in(ls, section), key) is None <==> silent_from(
            ls,
            section,
            key,
            0,
            ls.len() as int,
        ),
{
    lemma_values(ls, section, key, value, ls.len() as int);
    assert(ls.take(ls.len() as int) =~= ls);
}

/// A section is there if and only if there is a header with its name, and it is named once.
pub proof fn lemma_sections_are_named_once(ls: Seq<Seq<char>>, name: Seq<char>)
    ensures
        names_in(ls).contains(name) <==> exists|i: int|
            0 <= i < ls.len() && #[trigger] read_line(ls[i]) == LineView::Header(name),
        names_in(ls).no_duplicates(),
    decreases ls.len(),
{
    if ls.len() > 0 {
        let head = ls.drop_last();
        let last = ls[ls.len() - 1];
        lemma_sections_are_named_once(head, name);
        let (before, all) = (names_in(head), names_in(ls));
        if before.contains(name) {
            let k = choose|k: int| 0 <= k < before.len() && before[k] == name;
            assert(all[k] == name);
            let i = choose|i: int|
                0 <= i < head.len() && #[trigger] read_line(head[i]) == LineView::Header(name);
            assert(read_line(ls[i]) == LineView::Header(name));
        }
        if read_line(last) == LineView::Header(name) {
            assert(read_line(ls[ls.len() - 1]) == LineView::Header(name));
            if !before.contains(name) {
                assert(all[before.len() as int] == name);
            }
        }
        if all.contains(name) && !before.contains(name) {
            let k = choose|k: int| 0 <= k < all.len() && all[k] == name;
            if k < before.len() {
                assert(before[k] == name);
            }
            assert(read_line(last) == LineView::Header(name));
        }
        if exists|i: int|
            0 <= i < ls.len() && #[trigger] read_line(ls[i]) == LineView::Header(name) {
            let i = choose|i: int|
                0 <= i < ls.len() && #[trigger] read_line(ls[i]) == LineView::Header(name);
            if i < head.len() {
                assert(read_line(head[i]) == LineView::Header(name));
            }
        }
    }
}

proof fn lemma_clean_cons(first: Seq<char>, rest: Seq<Seq<char>>)
    ensures
        clean_items(seq![first] + rest) == (if trim(first).len() > 0 {
            seq![trim(first)]
        } else {
            Seq::empty()
        }) + clean_items(rest),
    decreases rest.len(),
{
    let all = seq![first] + rest;
    if rest.len() > 0 {
        lemma_clean_cons(first, rest.drop_last());
        assert(all.drop_last() =~= seq![first] + rest.drop_last());
        assert(all.last() == rest.last());
    } else {
        assert(all.drop_last() =~= Seq::<Seq<char>>::empty());
        assert(all.last() == first);
        assert(clean_items(all.drop_last()) =~= Seq::<Seq<char>>::empty());
    }
}

/// The items of a list end at a semicolon each, the last one at the end of the value. They are taken
/// without the white space around them, and those that are then empty are no items.
pub proof fn lemma_items_one_by_one(item: Seq<char>, a: Seq<char>, b: Seq<char>, rest: Seq<char>)
    requires
        all_space(a),
        all_space(b),
        is_trimmed(item),
        !item.contains(';'),
    ensures
        list_items(a + item + b + seq![';'] + rest) == (if item.len() > 0 {
            seq![item]
        } else {
            Seq::empty()
        }) + list_items(rest),
        list_items(a + item + b) == (if item.len() > 0 {
            seq![item]
        } else {
            Seq::<Seq<char>>::empty()
        }),
{
    let piece = a + item + b;
    let s = piece + seq![';'] + rest;
    let n = piece.len() as int;
    assert(!piece.contains(';')) by {
        if piece.contains(';') {
            let i = choose|i: int| 0 <= i < piece.len() && piece[i] == ';';
            if i < a.len() {
                assert(a[i] == ';');
            } else if i < a.len() + item.len() {
                assert(item[i - a.len()] == ';');
            } else {
                assert(b[i - a.len() - item.len()] == ';');
            }
        }
    }
    assert forall|k: int| 0 <= k < n implies piece[k] != ';' by {}
    assert forall|k: int| 0 <= k < n implies s[k] != ';' by {
        assert(s[k] == piece[k]);
    }
    assert(s[n] == ';');
    lemma_first_index_unique(s, ';', n);
    assert(s.take(n) =~= piece);
    assert(s.skip(n + 1) =~= rest);
    lemma_trimmed_exactly(a, item, b);
    lemma_clean_cons(piece, split(rest, ';'));
    lemma_split_at_a_character(piece, rest, ';');
    assert(split(piece, ';') == seq![piece]);
    lemma_clean_cons(piece, Seq::empty());
    assert(seq![piece] + Seq::<Seq<char>>::empty() =~= seq![piece]);
    assert(clean_items(Seq::empty()) =~= Seq::<Seq<char>>::empty());
}

} // verus!
