//! File arguments: paths and `file://` URIs on a command line, as host paths.

use crate::path::{
    body, components, is_absolute, is_name, joined, kept, lead, lemma_body_concat, lemma_body_kept,
    lemma_body_names, lemma_name, within, FsPath,
};
use crate::text::{
    concat, first_index, has_prefix, join, join_texts, lemma_first_index, lemma_first_index_unique,
    lemma_texts_push,
    split_once, split_text_once, starts_with, strip_prefix, text_eq, texts,
};
use vstd::prelude::*;
use vstd::utf8::{decode_utf8, encode_utf8, is_ascii_chars, valid_utf8};

verus! {

/// Why a file argument cannot be read.
#[derive(Debug)]
pub enum ArgumentError {
    NotFileUri,
    NonLocalUri(String),
    InvalidEscape(String),
    NotUtf8,
    HomeUnset,
    /// A relative argument, and no current directory that it could be seen from.
    NoCurrentDirectory,
    /// A relative path, and no current directory that it could be normalized from.
    NoNormalizationDirectory,
}

impl ArgumentError {
    pub fn message(&self) -> (r: String)
        ensures
            r@ == (match self {
                ArgumentError::NotFileUri => "file URI must start with file://"@,
                ArgumentError::NonLocalUri(uri) => "unsupported non-local file URI: "@ + uri@,
                ArgumentError::InvalidEscape(value) => "invalid percent escape in file URI: "@
                    + value@,
                ArgumentError::NotUtf8 => "file URI path is not valid UTF-8"@,
                ArgumentError::HomeUnset => "HOME must be set to expand ~/ file argument"@,
                ArgumentError::NoCurrentDirectory =>
                    "determine current directory for relative file argument"@,
                ArgumentError::NoNormalizationDirectory =>
                    "determine current directory for path normalization"@,
            }),
    {
        match self {
            ArgumentError::NotFileUri => "file URI must start with file://".to_owned(),
            ArgumentError::NonLocalUri(uri) => concat("unsupported non-local file URI: ", uri),
            ArgumentError::InvalidEscape(value) => concat(
                "invalid percent escape in file URI: ",
                value,
            ),
            ArgumentError::NotUtf8 => "file URI path is not valid UTF-8".to_owned(),
            ArgumentError::HomeUnset => "HOME must be set to expand ~/ file argument".to_owned(),
            ArgumentError::NoCurrentDirectory =>
                "determine current directory for relative file argument".to_owned(),
            ArgumentError::NoNormalizationDirectory =>
                "determine current directory for path normalization".to_owned(),
        }
    }
}

/// Where the process that was given the arguments stands.
#[derive(Debug)]
pub struct Surroundings {
    pub home: Option<FsPath>,
    pub current_dir: Option<FsPath>,
}

/// `String::from_utf8` gives the text that the bytes encode, if they are valid UTF-8.
#[verifier::external_body]
pub(crate) fn text_from_utf8(bytes: Vec<u8>) -> (r: Option<String>)
    ensures
        r is Some <==> valid_utf8(bytes@),
        r matches Some(text) ==> text@ == decode_utf8(bytes@),
{
    String::from_utf8(bytes).ok()
}

/// The value of a hexadecimal digit.
pub open spec fn hex_digit_value(byte: u8) -> Option<u8> {
    if 0x30 <= byte <= 0x39 {
        Some((byte - 0x30) as u8)
    } else if 0x61 <= byte <= 0x66 {
        Some((byte - 0x61 + 10) as u8)
    } else if 0x41 <= byte <= 0x46 {
        Some((byte - 0x41 + 10) as u8)
    } else {
        None
    }
}

/// The bytes that a percent-encoded text stands for; a `%` must begin an escape.
pub open spec fn percent_decoded(bytes: Seq<u8>) -> Option<Seq<u8>>
    decreases bytes.len(),
{
    if bytes.len() == 0 {
        Some(bytes)
    } else if bytes[0] != 0x25 {
        match percent_decoded(bytes.skip(1)) {
            Some(rest) => Some(seq![bytes[0]] + rest),
            None => None,
        }
    } else if bytes.len() < 3 {
        None
    } else {
        match (
            hex_digit_value(bytes[1]),
            hex_digit_value(bytes[2]),
            percent_decoded(bytes.skip(3)),
        ) {
            (Some(hi), Some(lo), Some(rest)) => Some(seq![(hi * 16 + lo) as u8] + rest),
            _ => None,
        }
    }
}

/// Whether a byte of a path stands for itself in a URI.
pub open spec fn stands_plain(byte: u8) -> bool {
    ||| 0x30 <= byte <= 0x39
    ||| 0x41 <= byte <= 0x5a
    ||| 0x61 <= byte <= 0x7a
    ||| byte == 0x2f
    ||| byte == 0x2d
    ||| byte == 0x5f
    ||| byte == 0x2e
    ||| byte == 0x7e
}

pub open spec fn hex_digit(n: u8) -> char {
    if n < 10 {
        (0x30 + n) as u8 as char
    } else {
        (0x41 + n - 10) as u8 as char
    }
}

pub open spec fn encoded_byte(byte: u8) -> Seq<char> {
    if stands_plain(byte) {
        seq![byte as char]
    } else {
        seq!['%', hex_digit(byte / 16), hex_digit(byte % 16)]
    }
}

/// The text in which the bytes are percent-encoded.
pub open spec fn percent_encoded(bytes: Seq<u8>) -> Seq<char>
    decreases bytes.len(),
{
    if bytes.len() == 0 {
        Seq::empty()
    } else {
        percent_encoded(bytes.drop_last()) + encoded_byte(bytes.last())
    }
}

/// The part of a local file URI that is a path: from the slash of the root on, up to the query
/// where there is one before a fragment.
pub open spec fn uri_path_part(uri: Seq<char>) -> Option<Seq<char>> {
    let rest = uri.skip(7);
    if starts_with(rest, "localhost/"@) {
        Some(without_query("/"@ + rest.skip(10)))
    } else if starts_with(rest, "/"@) {
        Some(without_query(rest))
    } else {
        None
    }
}

pub open spec fn without_query(part: Seq<char>) -> Seq<char> {
    let before_fragment = match split_once(part, '#') {
        Some((path, _)) => path,
        None => part,
    };
    match split_once(before_fragment, '?') {
        Some((path, _)) => path,
        None => part,
    }
}

/// The host path that a file URI names.
pub open spec fn uri_path(uri: Seq<char>) -> Result<Seq<char>, ()> {
    if !starts_with(uri, "file://"@) {
        Err(())
    } else {
        match uri_path_part(uri) {
            Some(part) => match percent_decoded(encode_utf8(part)) {
                Some(bytes) => if valid_utf8(bytes) {
                    Ok(decode_utf8(bytes))
                } else {
                    Err(())
                },
                None => Err(()),
            },
            None => Err(()),
        }
    }
}

/// The names that are left when each `..` has taken back the name before it.
pub open spec fn resolved_names(parts: Seq<Seq<char>>) -> Seq<Seq<char>>
    decreases parts.len(),
{
    if parts.len() == 0 {
        Seq::empty()
    } else {
        let before = resolved_names(parts.drop_last());
        let part = parts.last();
        if part == "/"@ || part == "."@ {
            before
        } else if part == ".."@ {
            if before.len() > 0 {
                before.drop_last()
            } else {
                before
            }
        } else {
            before.push(part)
        }
    }
}

/// A path without `.` and `..`.
pub open spec fn normalized(p: Seq<char>) -> Seq<char> {
    let names = resolved_names(components(p));
    if is_absolute(p) || names.len() == 0 {
        "/"@ + join(names, "/"@)
    } else {
        join(names, "/"@)
    }
}

/// Whether an argument is read as a path.
pub open spec fn looks_like_path(arg: Seq<char>) -> bool {
    starts_with(arg, "/"@) || starts_with(arg, "./"@) || starts_with(arg, "../"@) || starts_with(
        arg,
        "~/"@,
    )
}

/// The directories that belong to the sandbox itself.
pub open spec fn internal_roots() -> Seq<Seq<char>> {
    seq![
        "/app"@,
        "/bin"@,
        "/dev"@,
        "/etc"@,
        "/lib"@,
        "/lib64"@,
        "/proc"@,
        "/run"@,
        "/sys"@,
        "/tmp"@,
        "/usr"@,
        "/var"@,
    ]
}

pub open spec fn is_internal(p: Seq<char>) -> bool {
    exists|i: int| 0 <= i < internal_roots().len() && within(p, #[trigger] internal_roots()[i])
}

/// The field codes of desktop entries that stand for nothing when they are left over.
pub open spec fn is_field_code(arg: Seq<char>) -> bool {
    arg == "%f"@ || arg == "%F"@ || arg == "%u"@ || arg == "%U"@ || arg == "%i"@ || arg == "%c"@
        || arg == "%k"@ || arg == "%%"@
}

fn hex_value(byte: u8) -> (r: Option<u8>)
    ensures
        r == hex_digit_value(byte),
        r matches Some(n) ==> n < 16,
{
    if 0x30 <= byte && byte <= 0x39 {
        Some(byte - 0x30)
    } else if 0x61 <= byte && byte <= 0x66 {
        Some(byte - 0x61 + 10)
    } else if 0x41 <= byte && byte <= 0x46 {
        Some(byte - 0x41 + 10)
    } else {
        None
    }
}

/// Reads percent escapes.
pub fn percent_decode(value: &str) -> (r: Result<String, ArgumentError>)
    ensures
        match percent_decoded(encode_utf8(value@)) {
            Some(bytes) => if valid_utf8(bytes) {
                r matches Ok(text) && text@ == decode_utf8(bytes)
            } else {
                r == Err::<String, ArgumentError>(ArgumentError::NotUtf8)
            },
            None => r matches Err(ArgumentError::InvalidEscape(text)) && text@ == value@,
        },
{
    let bytes = value.as_bytes();
    let mut decoded: Vec<u8> = Vec::new();
    let mut index: usize = 0;
    let ghost goal = percent_decoded(bytes@);
    assert(bytes@.skip(0) =~= bytes@);
    proof {
        if goal is Some {
            assert(decoded@ + goal->0 =~= goal->0);
        }
    }
    while index < bytes.len()
        invariant
            index <= bytes@.len(),
            bytes@ == encode_utf8(value@),
            goal == percent_decoded(bytes@),
            goal is Some <==> percent_decoded(bytes@.skip(index as int)) is Some,
            goal is Some ==> goal->0 == decoded@ + percent_decoded(bytes@.skip(index as int))->0,
        decreases bytes@.len() - index,
    {
        let ghost rest = bytes@.skip(index as int);
        let ghost before = decoded@;
        if bytes[index] == 0x25 {
            if bytes.len() - index < 3 {
                return Err(ArgumentError::InvalidEscape(value.to_owned()));
            }
            assert(rest.skip(3) =~= bytes@.skip(index + 3));
            match (hex_value(bytes[index + 1]), hex_value(bytes[index + 2])) {
                (Some(hi), Some(lo)) => {
                    decoded.push(hi * 16 + lo);
                    proof {
                        if percent_decoded(rest.skip(3)) is Some {
                            assert(decoded@ + percent_decoded(rest.skip(3))->0 =~= before
                                + percent_decoded(rest)->0);
                        }
                    }
                    index += 3;
                },
                _ => {
                    return Err(ArgumentError::InvalidEscape(value.to_owned()));
                },
            }
        } else {
            assert(rest.skip(1) =~= bytes@.skip(index + 1));
            decoded.push(bytes[index]);
            proof {
                if percent_decoded(rest.skip(1)) is Some {
                    assert(decoded@ + percent_decoded(rest.skip(1))->0 =~= before
                        + percent_decoded(rest)->0);
                }
            }
            index += 1;
        }
    }
    assert(percent_decoded(bytes@.skip(index as int)) == Some(Seq::<u8>::empty())) by {
        assert(bytes@.skip(index as int) =~= Seq::<u8>::empty());
    }
    assert(decoded@ + Seq::<u8>::empty() =~= decoded@);
    match text_from_utf8(decoded) {
        Some(text) => Ok(text),
        None => Err(ArgumentError::NotUtf8),
    }
}

fn keeps_plain(byte: u8) -> (r: bool)
    ensures
        r == stands_plain(byte),
{
    (0x30 <= byte && byte <= 0x39) || (0x41 <= byte && byte <= 0x5a) || (0x61 <= byte && byte
        <= 0x7a) || byte == 0x2f || byte == 0x2d || byte == 0x5f || byte == 0x2e || byte == 0x7e
}

fn hex_char(n: u8) -> (r: char)
    requires
        n < 16,
    ensures
        r == hex_digit(n),
{
    if n < 10 {
        (0x30 + n) as char
    } else {
        (0x41 + (n - 10)) as char
    }
}

/// Writes the path so that a URI can hold it.
pub fn percent_encode_path(path: &FsPath) -> (r: String)
    ensures
        r@ == percent_encoded(encode_utf8(path@)),
{
    let bytes = path.as_str().as_bytes();
    let mut encoded = String::new();
    let mut i: usize = 0;
    assert(bytes@.take(0) =~= Seq::<u8>::empty());
    while i < bytes.len()
        invariant
            i <= bytes@.len(),
            bytes@ == encode_utf8(path@),
            encoded@ == percent_encoded(bytes@.take(i as int)),
        decreases bytes@.len() - i,
    {
        let byte: u8 = bytes[i];
        let ghost before = encoded@;
        proof {
            assert(bytes@.take(i + 1).drop_last() =~= bytes@.take(i as int));
            assert(bytes@.take(i + 1).last() == byte);
        }
        if keeps_plain(byte) {
            encoded.push(byte as char);
            assert(encoded@ =~= before + encoded_byte(byte));
        } else {
            encoded.push('%');
            encoded.push(hex_char(byte / 16));
            encoded.push(hex_char(byte % 16));
            assert(encoded@ =~= before + encoded_byte(byte));
        }
        i += 1;
    }
    assert(bytes@.take(i as int) =~= bytes@);
    encoded
}

/// Why a file URI names no host path.
pub open spec fn uri_refused(e: ArgumentError, uri: Seq<char>) -> bool {
    match e {
        ArgumentError::NotFileUri => !starts_with(uri, "file://"@),
        ArgumentError::NonLocalUri(u) => u@ == uri && starts_with(uri, "file://"@)
            && uri_path_part(uri) is None,
        ArgumentError::InvalidEscape(part) => starts_with(uri, "file://"@) && uri_path_part(uri)
            == Some(part@) && percent_decoded(encode_utf8(part@)) is None,
        ArgumentError::NotUtf8 => starts_with(uri, "file://"@) && (uri_path_part(
            uri,
        ) matches Some(part) && percent_decoded(encode_utf8(part)) matches Some(bytes)
            && !valid_utf8(bytes)),
        _ => false,
    }
}

/// The host path that a file URI names.
pub fn local_file_uri_path(uri: &str) -> (r: Result<FsPath, ArgumentError>)
    ensures
        r is Ok <==> uri_path(uri@) is Ok,
        r matches Ok(path) ==> uri_path(uri@) == Ok::<Seq<char>, ()>(path@),
        r matches Err(e) ==> uri_refused(e, uri@),
{
    proof {
        reveal_strlit("file://");
        reveal_strlit("localhost/");
    }
    let rest = match strip_prefix(uri, "file://") {
        Some(rest) => rest,
        None => {
            return Err(ArgumentError::NotFileUri);
        },
    };
    let part = match strip_prefix(&rest, "localhost/") {
        Some(path) => concat("/", &path),
        None => if has_prefix(&rest, "/") {
            rest
        } else {
            return Err(ArgumentError::NonLocalUri(uri.to_owned()));
        },
    };
    let before_fragment = match split_text_once(&part, '#') {
        Some((path, _)) => path,
        None => part.clone(),
    };
    let path_part = match split_text_once(&before_fragment, '?') {
        Some((path, _)) => path,
        None => part,
    };
    match percent_decode(&path_part) {
        Ok(text) => Ok(FsPath { text }),
        Err(e) => Err(e),
    }
}

/// The host path that a path argument names, before `..` is taken out.
pub open spec fn arg_path(
    arg: Seq<char>,
    home: Option<Seq<char>>,
    current_dir: Option<Seq<char>>,
) -> Option<Seq<char>> {
    if starts_with(arg, "~/"@) {
        match home {
            Some(home) => Some(joined(home, arg.skip(2))),
            None => None,
        }
    } else if is_absolute(arg) {
        Some(arg)
    } else {
        match current_dir {
            Some(dir) => Some(joined(dir, arg)),
            None => None,
        }
    }
}

pub open spec fn path_text(path: Option<FsPath>) -> Option<Seq<char>> {
    match path {
        Some(p) => Some(p@),
        None => None,
    }
}

/// The host path that a path argument names.
pub fn host_path_from_arg(arg: &str, around: &Surroundings) -> (r: Result<FsPath, ArgumentError>)
    ensures
        r is Ok <==> arg_path(
            arg@,
            path_text(around.home),
            path_text(around.current_dir),
        ) is Some,
        r matches Ok(path) ==> arg_path(
            arg@,
            path_text(around.home),
            path_text(around.current_dir),
        ) == Some(path@),
        r matches Err(e) ==> if starts_with(arg@, "~/"@) {
            e == ArgumentError::HomeUnset
        } else {
            e == ArgumentError::NoCurrentDirectory
        },
{
    proof {
        reveal_strlit("~/");
    }
    if let Some(rest) = strip_prefix(arg, "~/") {
        return match &around.home {
            Some(home) => Ok(home.join(&rest)),
            None => Err(ArgumentError::HomeUnset),
        };
    }
    let path = FsPath::new(arg);
    if path.is_absolute() {
        Ok(path)
    } else {
        match &around.current_dir {
            Some(dir) => Ok(dir.join_path(&path)),
            None => Err(ArgumentError::NoCurrentDirectory),
        }
    }
}

/// The path seen from the current directory, without `.` and `..`.
pub open spec fn normalized_from(p: Seq<char>, current_dir: Option<Seq<char>>) -> Option<
    Seq<char>,
> {
    if is_absolute(p) {
        Some(normalized(p))
    } else {
        match current_dir {
            Some(dir) => Some(normalized(joined(dir, p))),
            None => None,
        }
    }
}

/// Whether a text can stand between slashes as a name.
pub open spec fn is_plain(name: Seq<char>) -> bool {
    kept(name) && !name.contains('/') && name != ".."@
}

/// What is left of a path is made of names.
pub proof fn lemma_resolved_plain(p: Seq<char>, n: int)
    requires
        0 <= n <= components(p).len(),
    ensures
        forall|i: int|
            0 <= i < resolved_names(components(p).take(n)).len() ==> is_plain(
                #[trigger] resolved_names(components(p).take(n))[i],
            ),
    decreases n,
{
    reveal_strlit("/");
    reveal_strlit(".");
    assert("/"@ =~= seq!['/']);
    assert("."@ =~= seq!['.']);
    let all = components(p);
    let names = resolved_names(all.take(n));
    if n > 0 {
        lemma_resolved_plain(p, n - 1);
        assert(all.take(n).drop_last() =~= all.take(n - 1));
        let before = resolved_names(all.take(n - 1));
        let part = all[n - 1];
        lemma_body_kept(p);
        lemma_body_names(p);
        let l = lead(p).len() as int;
        if n - 1 >= l {
            assert(part == body(p)[n - 1 - l]);
        } else {
            assert(part == "/"@ || part == "."@);
        }
        assert forall|i: int| 0 <= i < names.len() implies is_plain(#[trigger] names[i]) by {
            if i < before.len() {
                assert(names[i] == before[i]);
            }
        }
    }
}

proof fn lemma_plain_joined(names: Seq<Seq<char>>)
    requires
        forall|i: int| 0 <= i < names.len() ==> is_plain(#[trigger] names[i]),
    ensures
        body(join(names, "/"@)) == names,
        names.len() > 0 ==> join(names, "/"@).len() > 0 && join(names, "/"@)[0] != '/' && lead(
            join(names, "/"@),
        ).len() == 0,
    decreases names.len(),
{
    reveal_strlit("/");
    assert("/"@ =~= seq!['/']);
    let text = join(names, "/"@);
    if names.len() == 1 {
        lemma_name(names[0]);
        assert(names =~= seq![names[0]]);
        assert(lead(text).len() == 0);
        if text[0] == '/' {
            assert(text.contains(text[0]));
        }
    } else if names.len() > 1 {
        let head = names.drop_last();
        let last = names[names.len() - 1];
        assert forall|i: int| 0 <= i < head.len() implies is_plain(#[trigger] head[i]) by {
            assert(head[i] == names[i]);
        }
        lemma_plain_joined(head);
        let before = join(head, "/"@);
        assert(text =~= before + seq!['/'] + last);
        lemma_body_concat(before, last);
        lemma_name(last);
        assert(head + seq![last] =~= names);
        assert(text[0] == before[0]);
        lemma_lead_extended(before, last);
    } else {
        assert(body(text) =~= names);
    }
}

/// What leads a path is not changed by what follows a slash.
proof fn lemma_lead_extended(before: Seq<char>, last: Seq<char>)
    requires
        before.len() > 0,
    ensures
        lead(before + seq!['/'] + last) == lead(before),
{
    let text = before + seq!['/'] + last;
    lemma_first_index(before, '/');
    let i = first_index(before, '/') as int;
    assert forall|j: int| 0 <= j < i implies text[j] != '/' by {
        assert(text[j] == before[j]);
    }
    lemma_first_index_unique(text, '/', i);
    assert(text.take(i) =~= before.take(i));
    assert(text[0] == before[0]);
}

proof fn lemma_resolved_again(lead: Seq<Seq<char>>, names: Seq<Seq<char>>)
    requires
        lead.len() == 0 || lead == seq!["/"@],
        forall|i: int| 0 <= i < names.len() ==> is_plain(#[trigger] names[i]),
    ensures
        resolved_names(lead + names) == names,
    decreases names.len(),
{
    reveal_strlit("/");
    reveal_strlit(".");
    assert("/"@ =~= seq!['/']);
    assert("."@ =~= seq!['.']);
    let all = lead + names;
    if names.len() == 0 {
        if lead.len() == 1 {
            assert(all.drop_last() =~= Seq::<Seq<char>>::empty());
            assert(all.last() == "/"@);
            assert(resolved_names(all.drop_last()) =~= names);
        }
        assert(resolved_names(all) =~= names);
    } else {
        let head = names.drop_last();
        let last = names[names.len() - 1];
        assert forall|i: int| 0 <= i < head.len() implies is_plain(#[trigger] head[i]) by {
            assert(head[i] == names[i]);
        }
        lemma_resolved_again(lead, head);
        assert(all.drop_last() =~= lead + head);
        assert(all.last() == last);
        if last == "/"@ {
            assert(last[0] == '/');
            assert(last.contains('/'));
        }
        assert(is_name(last));
        assert(head.push(last) =~= names);
    }
}

/// Normalizing a path again changes nothing; and a path that was normalized to an absolute one is
/// the same seen from any directory.
pub proof fn lemma_normalized_again(p: Seq<char>, current_dir: Option<Seq<char>>)
    ensures
        normalized(normalized(p)) == normalized(p),
        is_absolute(normalized(p)) ==> normalized_from(normalized(p), current_dir) == Some(
            normalized(p),
        ),
        is_absolute(p) ==> is_absolute(normalized(p)),
{
    reveal_strlit("/");
    assert("/"@ =~= seq!['/']);
    let names = resolved_names(components(p));
    assert(components(p).take(components(p).len() as int) =~= components(p));
    lemma_resolved_plain(p, components(p).len() as int);
    lemma_plain_joined(names);
    let text = join(names, "/"@);
    let normal = normalized(p);
    if is_absolute(p) || names.len() == 0 {
        assert(normal =~= Seq::<char>::empty() + seq!['/'] + text);
        lemma_body_concat(Seq::empty(), text);
        assert(body(Seq::<char>::empty()) + names =~= names);
        assert(components(normal) =~= seq!["/"@] + names);
        lemma_resolved_again(seq!["/"@], names);
    } else {
        assert(components(normal) =~= Seq::<Seq<char>>::empty() + names);
        lemma_resolved_again(Seq::empty(), names);
    }
}

/// The path without `.` and `..`, read by its text alone.
pub fn normalize_absolute_path(path: &FsPath, around: &Surroundings) -> (r: Result<
    FsPath,
    ArgumentError,
>)
    ensures
        r is Ok <==> normalized_from(path@, path_text(around.current_dir)) is Some,
        r matches Ok(p) ==> normalized_from(path@, path_text(around.current_dir)) == Some(p@),
        r matches Err(e) ==> e == ArgumentError::NoNormalizationDirectory,
{
    let absolute = if path.is_absolute() {
        path.clone()
    } else {
        match &around.current_dir {
            Some(dir) => dir.join_path(path),
            None => {
                return Err(ArgumentError::NoNormalizationDirectory);
            },
        }
    };
    Ok(normalize(&absolute))
}

/// The path without `.` and `..`.
fn normalize(path: &FsPath) -> (r: FsPath)
    ensures
        r@ == normalized(path@),
{
    let parts = path.components();
    let ghost all = texts(parts@);
    let mut names: Vec<String> = Vec::new();
    let mut i: usize = 0;
    assert(texts(names@) =~= resolved_names(all.take(0)));
    while i < parts.len()
        invariant
            i <= parts@.len(),
            all == texts(parts@),
            texts(names@) == resolved_names(all.take(i as int)),
        decreases parts@.len() - i,
    {
        proof {
            let next = all.take(i + 1);
            assert(next.drop_last() =~= all.take(i as int));
            assert(next.last() == parts@[i as int]@);
            assert(texts(names@).len() == names@.len());
        }
        let part = parts[i].clone();
        if text_eq(&part, "/") || text_eq(&part, ".") {
        } else if text_eq(&part, "..") {
            if names.len() > 0 {
                let ghost before = names@;
                let _ = names.pop();
                assert(texts(names@) =~= texts(before).drop_last());
            }
        } else {
            proof {
                lemma_texts_push(names@, part);
            }
            names.push(part);
        }
        i += 1;
    }
    assert(all.take(i as int) =~= all);
    assert(texts(names@).len() == names@.len());
    let text = join_texts(names.as_slice(), "/");
    if path.is_absolute() || names.len() == 0 {
        FsPath { text: concat("/", &text) }
    } else {
        FsPath { text }
    }
}

/// Whether an argument is read as a path.
pub fn looks_like_path_arg(arg: &str) -> (r: bool)
    ensures
        r == looks_like_path(arg@),
{
    has_prefix(arg, "/") || has_prefix(arg, "./") || has_prefix(arg, "../") || has_prefix(arg, "~/")
}

fn lies_below(path: &FsPath, root: &str) -> (r: bool)
    ensures
        r == within(path@, root@),
{
    path.starts_with(&FsPath::new(root))
}

/// Whether the path belongs to the sandbox itself.
pub fn is_sandbox_internal_path(path: &FsPath) -> (r: bool)
    ensures
        r == is_internal(path@),
{
    let ghost p = path@;
    let ghost roots = internal_roots();
    let found = lies_below(path, "/app") || lies_below(path, "/bin") || lies_below(path, "/dev")
        || lies_below(path, "/etc") || lies_below(path, "/lib") || lies_below(path, "/lib64")
        || lies_below(path, "/proc") || lies_below(path, "/run") || lies_below(path, "/sys")
        || lies_below(path, "/tmp") || lies_below(path, "/usr") || lies_below(path, "/var");
    proof {
        assert(roots[0] == "/app"@ && roots[1] == "/bin"@ && roots[2] == "/dev"@ && roots[3]
            == "/etc"@ && roots[4] == "/lib"@ && roots[5] == "/lib64"@ && roots[6] == "/proc"@
            && roots[7] == "/run"@ && roots[8] == "/sys"@ && roots[9] == "/tmp"@ && roots[10]
            == "/usr"@ && roots[11] == "/var"@);
    }
    found
}

/// Whether the argument is a field code that is left over from a desktop entry.
pub fn is_standalone_desktop_field_code(arg: &str) -> (r: bool)
    ensures
        r == is_field_code(arg@),
{
    text_eq(arg, "%f") || text_eq(arg, "%F") || text_eq(arg, "%u") || text_eq(arg, "%U") || text_eq(
        arg,
        "%i",
    ) || text_eq(arg, "%c") || text_eq(arg, "%k") || text_eq(arg, "%%")
}

proof fn lemma_encoded_cons(byte: u8, rest: Seq<u8>)
    ensures
        percent_encoded(seq![byte] + rest) == encoded_byte(byte) + percent_encoded(rest),
    decreases rest.len(),
{
    let all = seq![byte] + rest;
    if rest.len() == 0 {
        assert(all.drop_last() =~= Seq::<u8>::empty());
        assert(percent_encoded(all.drop_last()) =~= Seq::<char>::empty());
        assert(percent_encoded(rest) =~= Seq::<char>::empty());
        assert(percent_encoded(all) =~= encoded_byte(byte) + percent_encoded(rest));
    } else {
        lemma_encoded_cons(byte, rest.drop_last());
        assert(all.drop_last() =~= seq![byte] + rest.drop_last());
        assert(percent_encoded(all) =~= encoded_byte(byte) + percent_encoded(rest));
    }
}

/// A percent-encoded text is made of letters, digits and a few marks, `#` and `?` not among them.
pub proof fn lemma_encoded_chars(bytes: Seq<u8>)
    ensures
        is_ascii_chars(percent_encoded(bytes)),
        !percent_encoded(bytes).contains('#'),
        !percent_encoded(bytes).contains('?'),
    decreases bytes.len(),
{
    if bytes.len() > 0 {
        lemma_encoded_chars(bytes.drop_last());
        let head = percent_encoded(bytes.drop_last());
        let tail = encoded_byte(bytes.last());
        let all = percent_encoded(bytes);
        assert forall|i: int| 0 <= i < all.len() implies 0 <= (#[trigger] all[i]) as u32 <= 127
            && all[i] != '#' && all[i] != '?' by {
            if i < head.len() {
                assert(all[i] == head[i]);
                assert(head.contains(head[i]));
            } else {
                assert(all[i] == tail[i - head.len()]);
            }
        }
    }
}

/// The bytes of a percent-encoded text.
spec fn ascii_bytes(chars: Seq<char>) -> Seq<u8> {
    Seq::new(chars.len(), |i: int| chars[i] as u8)
}

proof fn lemma_decode_encoded(bytes: Seq<u8>)
    ensures
        percent_decoded(ascii_bytes(percent_encoded(bytes))) == Some(bytes),
    decreases bytes.len(),
{
    if bytes.len() == 0 {
        assert(ascii_bytes(percent_encoded(bytes)) =~= bytes);
    } else {
        let byte = bytes[0];
        let rest = bytes.skip(1);
        assert(bytes =~= seq![byte] + rest);
        lemma_encoded_cons(byte, rest);
        lemma_decode_encoded(rest);
        let text = ascii_bytes(percent_encoded(bytes));
        let tail = ascii_bytes(percent_encoded(rest));
        if stands_plain(byte) {
            assert(text[0] == byte);
            assert(text.skip(1) =~= tail);
        } else {
            let (hi, lo) = ((byte / 16) as u8, (byte % 16) as u8);
            assert(text[0] == 0x25);
            assert(text[1] == hex_digit(hi) as u8);
            assert(text[2] == hex_digit(lo) as u8);
            assert(hex_digit_value(text[1]) == Some(hi));
            assert(hex_digit_value(text[2]) == Some(lo));
            assert(text.skip(3) =~= tail);
            assert(hi * 16 + lo == byte);
        }
    }
}

/// Decoding gives back what was encoded.
pub proof fn lemma_percent_round_trip(text: Seq<char>)
    ensures
        percent_decoded(encode_utf8(percent_encoded(encode_utf8(text)))) == Some(
            encode_utf8(text),
        ),
        decode_utf8(encode_utf8(text)) == text,
        valid_utf8(encode_utf8(text)),
{
    let bytes = encode_utf8(text);
    lemma_encoded_chars(bytes);
    vstd::utf8::is_ascii_chars_encode_utf8(percent_encoded(bytes));
    assert(encode_utf8(percent_encoded(bytes)) =~= ascii_bytes(percent_encoded(bytes)));
    lemma_decode_encoded(bytes);
    vstd::utf8::encode_utf8_decode_utf8(text);
    vstd::utf8::encode_utf8_valid_utf8(text);
}

/// An absolute path written as a file URI is read back from it.
pub proof fn lemma_uri_round_trip(path: Seq<char>)
    requires
        is_absolute(path),
    ensures
        uri_path("file://"@ + percent_encoded(encode_utf8(path))) == Ok::<Seq<char>, ()>(path),
{
    reveal_strlit("file://");
    reveal_strlit("localhost/");
    reveal_strlit("/");
    let bytes = encode_utf8(path);
    let part = percent_encoded(bytes);
    let uri = "file://"@ + part;
    assert(uri.take(7) =~= "file://"@);
    assert(uri.skip(7) =~= part);
    vstd::utf8::encode_utf8_first_scalar(path);
    assert(bytes[0] == 0x2f) by {
        assert(vstd::utf8::encode_scalar('/' as u32) =~= seq![0x2fu8]) by {
            assert(vstd::utf8::leading_byte_width_1(0x2fu32) == 0x2fu8) by (bit_vector);
        }
        assert(bytes == vstd::utf8::encode_scalar(path[0] as u32) + encode_utf8(
            path.drop_first(),
        ));
    }
    assert(bytes =~= seq![bytes[0]] + bytes.skip(1));
    lemma_encoded_cons(bytes[0], bytes.skip(1));
    assert(part[0] == '/');
    assert(part.take(1) =~= "/"@);
    assert(!starts_with(part, "localhost/"@)) by {
        if starts_with(part, "localhost/"@) {
            assert(part.take(10)[0] == 'l');
        }
    }
    lemma_encoded_chars(bytes);
    lemma_first_index(part, '#');
    lemma_first_index(part, '?');
    if first_index(part, '#') < part.len() {
        assert(part.contains(part[first_index(part, '#') as int]));
    }
    if first_index(part, '?') < part.len() {
        assert(part.contains(part[first_index(part, '?') as int]));
    }
    lemma_percent_round_trip(path);
}

} // verus!
