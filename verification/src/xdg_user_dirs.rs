//! The user's directories for documents, music and the like.

use crate::path::{is_absolute, joined, path_texts, FsPath};
use crate::text::{
    chars_of, ends_with, has_prefix, lines, split_lines, split_once, split_text_once, starts_with,
    strip_prefix, strip_suffix, text_eq, texts, trim, trim_text,
};
use vstd::prelude::*;

verus! {

/// The names under which permissions speak of the directories.
pub open spec fn xdg_labels() -> Seq<Seq<char>> {
    seq![
        "xdg-desktop"@,
        "xdg-documents"@,
        "xdg-download"@,
        "xdg-music"@,
        "xdg-pictures"@,
        "xdg-public-share"@,
        "xdg-templates"@,
        "xdg-videos"@,
    ]
}

/// The variables that hold the directories.
pub open spec fn xdg_variables() -> Seq<Seq<char>> {
    seq![
        "XDG_DESKTOP_DIR"@,
        "XDG_DOCUMENTS_DIR"@,
        "XDG_DOWNLOAD_DIR"@,
        "XDG_MUSIC_DIR"@,
        "XDG_PICTURES_DIR"@,
        "XDG_PUBLICSHARE_DIR"@,
        "XDG_TEMPLATES_DIR"@,
        "XDG_VIDEOS_DIR"@,
    ]
}

/// Where the directories are below the home directory, if nothing says otherwise.
pub open spec fn xdg_default_names() -> Seq<Seq<char>> {
    seq![
        "Desktop"@,
        "Documents"@,
        "Downloads"@,
        "Music"@,
        "Pictures"@,
        "Public"@,
        "Templates"@,
        "Videos"@,
    ]
}

/// The place of `name` in `list`, if it is one of the eight.
pub open spec fn place_in(list: Seq<Seq<char>>, name: Seq<char>) -> Option<int>
    recommends
        list.len() == 8,
{
    if name == list[0] {
        Some(0)
    } else if name == list[1] {
        Some(1)
    } else if name == list[2] {
        Some(2)
    } else if name == list[3] {
        Some(3)
    } else if name == list[4] {
        Some(4)
    } else if name == list[5] {
        Some(5)
    } else if name == list[6] {
        Some(6)
    } else if name == list[7] {
        Some(7)
    } else {
        None
    }
}

/// A value in which a backslash makes the next character stand for itself.
pub open spec fn unescaped(s: Seq<char>) -> Seq<char>
    decreases s.len(),
{
    if s.len() == 0 {
        s
    } else if s[0] == '\\' {
        if s.len() == 1 {
            s
        } else {
            seq![s[1]] + unescaped(s.skip(2))
        }
    } else {
        seq![s[0]] + unescaped(s.skip(1))
    }
}

pub open spec fn unquoted(value: Seq<char>) -> Seq<char> {
    if starts_with(value, "\""@) && ends_with(value.skip(1), "\""@) {
        value.skip(1).take(value.len() - 2)
    } else {
        value
    }
}

/// The path that a value names: one below the home directory, or an absolute one.
pub open spec fn xdg_value_path(value: Seq<char>, home: Seq<char>) -> Option<Seq<char>> {
    let text = unescaped(unquoted(value));
    if starts_with(text, "$HOME/"@) {
        Some(joined(home, text.skip(6)))
    } else if text == "$HOME"@ {
        Some(home)
    } else if starts_with(text, "${HOME}/"@) {
        Some(joined(home, text.skip(8)))
    } else if text == "${HOME}"@ {
        Some(home)
    } else if is_absolute(text) {
        Some(text)
    } else {
        None
    }
}

/// What a line of the configuration sets.
pub open spec fn xdg_assignment(raw: Seq<char>, home: Seq<char>) -> Option<(int, Seq<char>)> {
    let line = trim(raw);
    if line.len() == 0 || starts_with(line, "#"@) {
        None
    } else {
        match split_once(line, '=') {
            Some((key, value)) => match (
                xdg_value_path(trim(value), home),
                place_in(xdg_variables(), trim(key)),
            ) {
                (Some(path), Some(i)) => Some((i, path)),
                _ => None,
            },
            None => None,
        }
    }
}

/// The directories after the lines of the configuration.
pub open spec fn xdg_paths(ls: Seq<Seq<char>>, home: Seq<char>) -> Seq<Seq<char>>
    decreases ls.len(),
{
    if ls.len() == 0 {
        Seq::new(8, |i: int| joined(home, xdg_default_names()[i]))
    } else {
        let before = xdg_paths(ls.drop_last(), home);
        match xdg_assignment(ls.last(), home) {
            Some((i, path)) => before.update(i, path),
            None => before,
        }
    }
}

/// The user's directories, in the order of their names.
#[derive(Debug)]
pub struct XdgUserDirs {
    pub paths: Vec<FsPath>,
}

pub fn xdg_label(i: usize) -> (r: &'static str)
    requires
        i < 8,
    ensures
        r@ == xdg_labels()[i as int],
{
    if i == 0 {
        "xdg-desktop"
    } else if i == 1 {
        "xdg-documents"
    } else if i == 2 {
        "xdg-download"
    } else if i == 3 {
        "xdg-music"
    } else if i == 4 {
        "xdg-pictures"
    } else if i == 5 {
        "xdg-public-share"
    } else if i == 6 {
        "xdg-templates"
    } else {
        "xdg-videos"
    }
}

pub fn xdg_variable(i: usize) -> (r: &'static str)
    requires
        i < 8,
    ensures
        r@ == xdg_variables()[i as int],
{
    if i == 0 {
        "XDG_DESKTOP_DIR"
    } else if i == 1 {
        "XDG_DOCUMENTS_DIR"
    } else if i == 2 {
        "XDG_DOWNLOAD_DIR"
    } else if i == 3 {
        "XDG_MUSIC_DIR"
    } else if i == 4 {
        "XDG_PICTURES_DIR"
    } else if i == 5 {
        "XDG_PUBLICSHARE_DIR"
    } else if i == 6 {
        "XDG_TEMPLATES_DIR"
    } else {
        "XDG_VIDEOS_DIR"
    }
}

fn xdg_default_name(i: usize) -> (r: &'static str)
    requires
        i < 8,
    ensures
        r@ == xdg_default_names()[i as int],
{
    if i == 0 {
        "Desktop"
    } else if i == 1 {
        "Documents"
    } else if i == 2 {
        "Downloads"
    } else if i == 3 {
        "Music"
    } else if i == 4 {
        "Pictures"
    } else if i == 5 {
        "Public"
    } else if i == 6 {
        "Templates"
    } else {
        "Videos"
    }
}

fn variable_place(name: &str) -> (r: Option<usize>)
    ensures
        r is Some <==> place_in(xdg_variables(), name@) is Some,
        r matches Some(i) ==> i < 8 && place_in(xdg_variables(), name@) == Some(i as int),
{
    if text_eq(name, xdg_variable(0)) {
        Some(0)
    } else if text_eq(name, xdg_variable(1)) {
        Some(1)
    } else if text_eq(name, xdg_variable(2)) {
        Some(2)
    } else if text_eq(name, xdg_variable(3)) {
        Some(3)
    } else if text_eq(name, xdg_variable(4)) {
        Some(4)
    } else if text_eq(name, xdg_variable(5)) {
        Some(5)
    } else if text_eq(name, xdg_variable(6)) {
        Some(6)
    } else if text_eq(name, xdg_variable(7)) {
        Some(7)
    } else {
        None
    }
}

/// The place of the directory that permissions know under the name.
pub fn label_place(name: &str) -> (r: Option<usize>)
    ensures
        r is Some <==> place_in(xdg_labels(), name@) is Some,
        r matches Some(i) ==> i < 8 && place_in(xdg_labels(), name@) == Some(i as int),
{
    if text_eq(name, xdg_label(0)) {
        Some(0)
    } else if text_eq(name, xdg_label(1)) {
        Some(1)
    } else if text_eq(name, xdg_label(2)) {
        Some(2)
    } else if text_eq(name, xdg_label(3)) {
        Some(3)
    } else if text_eq(name, xdg_label(4)) {
        Some(4)
    } else if text_eq(name, xdg_label(5)) {
        Some(5)
    } else if text_eq(name, xdg_label(6)) {
        Some(6)
    } else if text_eq(name, xdg_label(7)) {
        Some(7)
    } else {
        None
    }
}

/// Reads a value in which a backslash makes the next character stand for itself.
pub fn unescape_xdg_value(value: &str) -> (r: String)
    ensures
        r@ == unescaped(value@),
{
    let chars = chars_of(value);
    let mut out = String::new();
    let mut i: usize = 0;
    assert(chars@.skip(0) =~= chars@);
    assert(out@ + unescaped(value@) =~= unescaped(value@));
    while i < chars.len()
        invariant
            i <= chars@.len(),
            chars@ == value@,
            out@ + unescaped(chars@.skip(i as int)) == unescaped(value@),
        decreases chars@.len() - i,
    {
        let ghost rest = chars@.skip(i as int);
        let ghost before = out@;
        if chars[i] == '\\' && i + 1 < chars.len() {
            out.push(chars[i + 1]);
            assert(rest.skip(2) =~= chars@.skip(i + 2));
            assert(out@ + unescaped(chars@.skip(i + 2)) =~= before + unescaped(rest));
            i += 2;
        } else {
            out.push(chars[i]);
            assert(rest.skip(1) =~= chars@.skip(i + 1));
            proof {
                if rest[0] == '\\' {
                    assert(rest =~= seq!['\\']);
                    assert(chars@.skip(i + 1) =~= Seq::<char>::empty());
                }
            }
            assert(out@ + unescaped(chars@.skip(i + 1)) =~= before + unescaped(rest));
            i += 1;
        }
    }
    assert(out@ + unescaped(chars@.skip(i as int)) =~= out@);
    out
}

/// The path that a value names.
pub fn parse_xdg_user_dir_value(value: &str, home: &FsPath) -> (r: Option<FsPath>)
    ensures
        r is Some <==> xdg_value_path(value@, home@) is Some,
        r matches Some(p) ==> xdg_value_path(value@, home@) == Some(p@),
{
    proof {
        reveal_strlit("\"");
        reveal_strlit("$HOME/");
        reveal_strlit("${HOME}/");
    }
    let bare = match strip_prefix(value, "\"") {
        Some(rest) => match strip_suffix(&rest, "\"") {
            Some(inner) => inner,
            None => value.to_owned(),
        },
        None => value.to_owned(),
    };
    let text = unescape_xdg_value(&bare);
    if let Some(rest) = strip_prefix(&text, "$HOME/") {
        return Some(home.join(&rest));
    }
    if text_eq(&text, "$HOME") {
        return Some(home.clone());
    }
    if let Some(rest) = strip_prefix(&text, "${HOME}/") {
        return Some(home.join(&rest));
    }
    if text_eq(&text, "${HOME}") {
        return Some(home.clone());
    }
    let path = FsPath { text };
    if path.is_absolute() {
        Some(path)
    } else {
        None
    }
}

fn parse_assignment(raw: &str, home: &FsPath) -> (r: Option<(usize, FsPath)>)
    ensures
        r is Some <==> xdg_assignment(raw@, home@) is Some,
        r matches Some(a) ==> a.0 < 8 && xdg_assignment(raw@, home@) == Some((a.0 as int, a.1@)),
{
    let line = trim_text(raw);
    if line.as_str().unicode_len() == 0 || has_prefix(&line, "#") {
        return None;
    }
    let (key, value) = match split_text_once(&line, '=') {
        Some(parts) => parts,
        None => {
            return None;
        },
    };
    let trimmed = trim_text(&value);
    match parse_xdg_user_dir_value(&trimmed, home) {
        Some(path) => {
            let name = trim_text(&key);
            match variable_place(&name) {
                Some(i) => Some((i, path)),
                None => None,
            }
        },
        None => None,
    }
}

impl XdgUserDirs {
    pub open spec fn wf(&self) -> bool {
        self.paths@.len() == 8
    }

    /// The directories that the configuration sets, with the defaults for the others.
    pub fn from_config(home: &FsPath, config: Option<&str>) -> (r: XdgUserDirs)
        ensures
            r.wf(),
            path_texts(r.paths@) == xdg_paths(
                match config {
                    Some(text) => lines(text@),
                    None => Seq::empty(),
                },
                home@,
            ),
    {
        let mut paths: Vec<FsPath> = Vec::new();
        let mut i: usize = 0;
        while i < 8
            invariant
                i <= 8,
                paths@.len() == i,
                forall|j: int|
                    0 <= j < i ==> (#[trigger] paths@[j])@ == joined(
                        home@,
                        xdg_default_names()[j],
                    ),
            decreases 8 - i,
        {
            paths.push(home.join(xdg_default_name(i)));
            i += 1;
        }
        assert(path_texts(paths@) =~= xdg_paths(Seq::empty(), home@));
        let text = match config {
            Some(text) => text,
            None => {
                return XdgUserDirs { paths };
            },
        };
        let ls = split_lines(text);
        let ghost all = texts(ls@);
        let mut k: usize = 0;
        assert(all.take(0) =~= Seq::<Seq<char>>::empty());
        while k < ls.len()
            invariant
                k <= ls@.len(),
                all == texts(ls@),
                paths@.len() == 8,
                path_texts(paths@) == xdg_paths(all.take(k as int), home@),
            decreases ls@.len() - k,
        {
            proof {
                let next = all.take(k + 1);
                assert(next.drop_last() =~= all.take(k as int));
                assert(next.last() == ls@[k as int]@);
            }
            if let Some((place, path)) = parse_assignment(&ls[k], home) {
                let ghost before = paths@;
                let ghost p = path@;
                paths.set(place, path);
                assert(path_texts(paths@) =~= path_texts(before).update(place as int, p));
            }
            k += 1;
        }
        assert(all.take(k as int) =~= all);
        XdgUserDirs { paths }
    }
}

} // verus!
