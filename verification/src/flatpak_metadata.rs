//! Flatpak metadata: key files made of sections with `key=value` lines.

use crate::text::{
    chars_of, lemma_texts_push, lines, split, split_lines, split_once, split_text,
    split_text_once, text_eq, text_of, texts, trim, trim_text,
};
use vstd::prelude::*;

verus! {

/// What a line of a key file says.
pub ghost enum LineView {
    Nothing,
    Header(Seq<char>),
    Entry(Seq<char>, Seq<char>),
}

/// A line is read without the white space around it; empty lines and comments say nothing.
pub open spec fn read_line(raw: Seq<char>) -> LineView {
    let line = trim(raw);
    if line.len() == 0 || line[0] == '#' {
        LineView::Nothing
    } else if line[0] == '[' && line.last() == ']' {
        LineView::Header(line.subrange(1, line.len() - 1))
    } else {
        match split_once(line, '=') {
            Some((key, value)) => LineView::Entry(trim(key), trim(value)),
            None => LineView::Nothing,
        }
    }
}

/// The section that is open after the lines.
pub open spec fn section_at(ls: Seq<Seq<char>>) -> Option<Seq<char>>
    decreases ls.len(),
{
    if ls.len() == 0 {
        None
    } else {
        match read_line(ls.last()) {
            LineView::Header(name) => Some(name),
            _ => section_at(ls.drop_last()),
        }
    }
}

/// The entries that the lines give a section, in their order.
pub open spec fn entries_in(ls: Seq<Seq<char>>, section: Seq<char>) -> Seq<(Seq<char>, Seq<char>)>
    decreases ls.len(),
{
    if ls.len() == 0 {
        Seq::empty()
    } else {
        let before = entries_in(ls.drop_last(), section);
        match read_line(ls.last()) {
            LineView::Entry(key, value) => if section_at(ls.drop_last()) == Some(section) {
                before.push((key, value))
            } else {
                before
            },
            _ => before,
        }
    }
}

/// The names of the sections, each where it first occurs.
pub open spec fn names_in(ls: Seq<Seq<char>>) -> Seq<Seq<char>>
    decreases ls.len(),
{
    if ls.len() == 0 {
        Seq::empty()
    } else {
        let before = names_in(ls.drop_last());
        match read_line(ls.last()) {
            LineView::Header(name) => if before.contains(name) {
                before
            } else {
                before.push(name)
            },
            _ => before,
        }
    }
}

/// The value that the last pair with the key has.
pub open spec fn last_value(pairs: Seq<(Seq<char>, Seq<char>)>, key: Seq<char>) -> Option<
    Seq<char>,
>
    decreases pairs.len(),
{
    if pairs.len() == 0 {
        None
    } else if pairs.last().0 == key {
        Some(pairs.last().1)
    } else {
        last_value(pairs.drop_last(), key)
    }
}

/// The entries of a section of the metadata.
pub open spec fn entries_of(metadata: Seq<char>, section: Seq<char>) -> Seq<
    (Seq<char>, Seq<char>),
> {
    entries_in(lines(metadata), section)
}

/// The value of a key in a section of the metadata. Where a key is repeated the last line counts.
pub open spec fn value_of(metadata: Seq<char>, section: Seq<char>, key: Seq<char>) -> Option<
    Seq<char>,
> {
    last_value(entries_of(metadata, section), key)
}

/// The pieces without the white space around them, and without those that are then empty.
pub open spec fn clean_items(parts: Seq<Seq<char>>) -> Seq<Seq<char>>
    decreases parts.len(),
{
    if parts.len() == 0 {
        Seq::empty()
    } else {
        let before = clean_items(parts.drop_last());
        let item = trim(parts.last());
        if item.len() == 0 {
            before
        } else {
            before.push(item)
        }
    }
}

/// The items of a list value.
pub open spec fn list_items(value: Seq<char>) -> Seq<Seq<char>> {
    clean_items(split(value, ';'))
}

/// The texts of a sequence of pairs.
pub open spec fn pair_texts(v: Seq<(String, String)>) -> Seq<(Seq<char>, Seq<char>)> {
    Seq::new(v.len(), |i: int| (v[i].0@, v[i].1@))
}

pub proof fn lemma_pair_texts_push(v: Seq<(String, String)>, p: (String, String))
    ensures
        pair_texts(v.push(p)) == pair_texts(v).push((p.0@, p.1@)),
{
    assert(pair_texts(v.push(p)) =~= pair_texts(v).push((p.0@, p.1@)));
}

/// What a line of a key file says.
#[derive(Debug)]
pub enum Line {
    Nothing,
    Header(String),
    Entry(String, String),
}

impl View for Line {
    type V = LineView;

    open spec fn view(&self) -> LineView {
        match self {
            Line::Nothing => LineView::Nothing,
            Line::Header(name) => LineView::Header(name@),
            Line::Entry(key, value) => LineView::Entry(key@, value@),
        }
    }
}

/// Reads one line.
pub fn parse_line(raw: &str) -> (r: Line)
    ensures
        r@ == read_line(raw@),
{
    let line = trim_text(raw);
    let chars = chars_of(&line);
    let n: usize = chars.len();
    if n == 0 || chars[0] == '#' {
        return Line::Nothing;
    }
    if chars[0] == '[' && chars[n - 1] == ']' {
        return Line::Header(text_of(chars.as_slice(), 1, n - 1));
    }
    match split_text_once(&line, '=') {
        Some((key, value)) => Line::Entry(trim_text(&key), trim_text(&value)),
        None => Line::Nothing,
    }
}

/// The entries of a section, in their order.
pub fn section_entries(metadata: &str, section: &str) -> (r: Vec<(String, String)>)
    ensures
        pair_texts(r@) == entries_of(metadata@, section@),
{
    let ls = split_lines(metadata);
    let mut out: Vec<(String, String)> = Vec::new();
    let mut open: bool = false;
    let mut i: usize = 0;
    let ghost all = texts(ls@);
    assert(pair_texts(out@) =~= entries_in(all.take(0), section@));
    while i < ls.len()
        invariant
            i <= ls@.len(),
            all == texts(ls@),
            open == (section_at(all.take(i as int)) == Some(section@)),
            pair_texts(out@) == entries_in(all.take(i as int), section@),
        decreases ls@.len() - i,
    {
        let ghost next = all.take(i + 1);
        proof {
            assert(next.drop_last() =~= all.take(i as int));
            assert(next.last() == ls@[i as int]@);
        }
        match parse_line(&ls[i]) {
            Line::Nothing => {},
            Line::Header(name) => {
                open = text_eq(&name, section);
            },
            Line::Entry(key, value) => {
                if open {
                    proof {
                        lemma_pair_texts_push(out@, (key, value));
                    }
                    out.push((key, value));
                }
            },
        }
        i += 1;
    }
    assert(all.take(i as int) =~= all);
    out
}

/// Whether the text is one of the texts.
pub fn contains_text(list: &[String], text: &str) -> (r: bool)
    ensures
        r == texts(list@).contains(text@),
{
    let mut i: usize = 0;
    while i < list.len()
        invariant
            i <= list@.len(),
            forall|j: int| 0 <= j < i ==> list@[j]@ != text@,
        decreases list@.len() - i,
    {
        if text_eq(&list[i], text) {
            assert(texts(list@)[i as int] == text@);
            return true;
        }
        i += 1;
    }
    false
}

/// The names of the sections, each where it first occurs.
pub fn section_names(metadata: &str) -> (r: Vec<String>)
    ensures
        texts(r@) == names_in(lines(metadata@)),
{
    let ls = split_lines(metadata);
    let mut out: Vec<String> = Vec::new();
    let mut i: usize = 0;
    let ghost all = texts(ls@);
    assert(texts(out@) =~= names_in(all.take(0)));
    while i < ls.len()
        invariant
            i <= ls@.len(),
            all == texts(ls@),
            texts(out@) == names_in(all.take(i as int)),
        decreases ls@.len() - i,
    {
        let ghost next = all.take(i + 1);
        proof {
            assert(next.drop_last() =~= all.take(i as int));
            assert(next.last() == ls@[i as int]@);
        }
        match parse_line(&ls[i]) {
            Line::Header(name) => {
                if !contains_text(out.as_slice(), &name) {
                    proof {
                        lemma_texts_push(out@, name);
                    }
                    out.push(name);
                }
            },
            _ => {},
        }
        i += 1;
    }
    assert(all.take(i as int) =~= all);
    out
}

/// The value of a key in a section.
pub fn value(metadata: &str, section: &str, key: &str) -> (r: Option<String>)
    ensures
        r is Some <==> value_of(metadata@, section@, key@) is Some,
        r matches Some(v) ==> Some(v@) == value_of(metadata@, section@, key@),
{
    let pairs = section_entries(metadata, section);
    let ghost all = pair_texts(pairs@);
    let mut i: usize = pairs.len();
    assert(all.take(i as int) =~= all);
    while i > 0
        invariant
            i <= pairs@.len(),
            all == pair_texts(pairs@),
            all == entries_of(metadata@, section@),
            last_value(all, key@) == last_value(all.take(i as int), key@),
        decreases i,
    {
        let ghost here = all.take(i as int);
        assert(here.last() == (pairs@[i - 1].0@, pairs@[i - 1].1@));
        assert(here.drop_last() =~= all.take(i - 1));
        if text_eq(&pairs[i - 1].0, key) {
            return Some(pairs[i - 1].1.clone());
        }
        i -= 1;
    }
    None
}

/// The items of a list value.
pub fn split_list(value: &str) -> (r: Vec<String>)
    ensures
        texts(r@) == list_items(value@),
{
    let parts = split_text(value, ';');
    let mut out: Vec<String> = Vec::new();
    let mut i: usize = 0;
    let ghost all = texts(parts@);
    assert(texts(out@) =~= clean_items(all.take(0)));
    while i < parts.len()
        invariant
            i <= parts@.len(),
            all == texts(parts@),
            texts(out@) == clean_items(all.take(i as int)),
        decreases parts@.len() - i,
    {
        let ghost next = all.take(i + 1);
        proof {
            assert(next.drop_last() =~= all.take(i as int));
            assert(next.last() == parts@[i as int]@);
        }
        let item = trim_text(&parts[i]);
        if item.as_str().unicode_len() > 0 {
            proof {
                lemma_texts_push(out@, item);
            }
            out.push(item);
        }
        i += 1;
    }
    assert(all.take(i as int) =~= all);
    out
}

} // verus!
