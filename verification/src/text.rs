//! Text as sequences of characters: the string operations the library is built on.

use vstd::prelude::*;

verus! {

/// `String::push` appends the character at the end.
pub assume_specification[ String::push ](s: &mut String, c: char)
    ensures
        final(s)@ == old(s)@.push(c),
;

/// How a text is shown between quotation marks, with escapes for what could not be told apart
/// otherwise. Which characters are escaped goes by tables of Unicode and is not said here.
pub uninterp spec fn debug_text(text: Seq<char>) -> Seq<char>;

/// What the `Debug` implementation of `str` writes under `{:?}`: it depends on the text alone.
#[verifier::external_body]
pub(crate) fn debug_quoted(text: &str) -> (r: String)
    ensures
        r@ == debug_text(text@),
{
    format!("{:?}", text)
}

/// The views of a sequence of values.
pub open spec fn views<T: View>(v: Seq<T>) -> Seq<T::V> {
    Seq::new(v.len(), |i: int| v[i]@)
}

pub proof fn lemma_views_push<T: View>(v: Seq<T>, x: T)
    ensures
        views(v.push(x)) == views(v).push(x@),
{
    assert(views(v.push(x)) =~= views(v).push(x@));
}

/// The values for which `keep` holds, in their order.
pub open spec fn selected<A>(s: Seq<A>, keep: spec_fn(A) -> bool) -> Seq<A>
    decreases s.len(),
{
    if s.len() == 0 {
        s
    } else {
        let before = selected(s.drop_last(), keep);
        if keep(s.last()) {
            before.push(s.last())
        } else {
            before
        }
    }
}

/// What is selected is what was there and meets the condition.
pub proof fn lemma_selected<A>(s: Seq<A>, keep: spec_fn(A) -> bool)
    ensures
        selected(s, keep).len() <= s.len(),
        forall|x: A| #[trigger] selected(s, keep).contains(x) <==> s.contains(x) && keep(x),
    decreases s.len(),
{
    if s.len() > 0 {
        let head = s.drop_last();
        lemma_selected(head, keep);
        let before = selected(head, keep);
        let all = selected(s, keep);
        assert forall|x: A| #[trigger] all.contains(x) <==> s.contains(x) && keep(x) by {
            if all.contains(x) {
                let i = choose|i: int| 0 <= i < all.len() && all[i] == x;
                if i < before.len() {
                    assert(before[i] == x);
                    assert(before.contains(x));
                    let k = choose|k: int| 0 <= k < head.len() && head[k] == x;
                    assert(s[k] == x);
                } else {
                    assert(s[s.len() - 1] == x);
                }
            }
            if s.contains(x) && keep(x) {
                let k = choose|k: int| 0 <= k < s.len() && s[k] == x;
                if k < head.len() {
                    assert(head[k] == x);
                    assert(before.contains(x));
                    let i = choose|i: int| 0 <= i < before.len() && before[i] == x;
                    assert(all[i] == x);
                } else {
                    assert(all[all.len() - 1] == x);
                }
            }
        }
    }
}

/// The texts that a sequence of strings holds.
pub open spec fn texts(v: Seq<String>) -> Seq<Seq<char>> {
    views(v)
}

pub proof fn lemma_texts_push(v: Seq<String>, s: String)
    ensures
        texts(v.push(s)) == texts(v).push(s@),
{
    assert(texts(v.push(s)) =~= texts(v).push(s@));
}

/// The position of the first `c` in `s`, or the length of `s` if there is none.
pub open spec fn first_index(s: Seq<char>, c: char) -> nat
    decreases s.len(),
{
    if s.len() == 0 || s[0] == c {
        0
    } else {
        1 + first_index(s.skip(1), c)
    }
}

pub proof fn lemma_first_index(s: Seq<char>, c: char)
    ensures
        first_index(s, c) <= s.len(),
        first_index(s, c) < s.len() ==> s[first_index(s, c) as int] == c,
        forall|j: int| 0 <= j < first_index(s, c) ==> s[j] != c,
    decreases s.len(),
{
    if s.len() != 0 && s[0] != c {
        lemma_first_index(s.skip(1), c);
        assert forall|j: int| 0 <= j < first_index(s, c) implies s[j] != c by {
            if j > 0 {
                assert(s[j] == s.skip(1)[j - 1]);
            }
        }
    }
}

/// The position of the first `c` is determined by what it means to be first.
pub proof fn lemma_first_index_unique(s: Seq<char>, c: char, i: int)
    requires
        0 <= i <= s.len(),
        i < s.len() ==> s[i] == c,
        forall|j: int| 0 <= j < i ==> s[j] != c,
    ensures
        first_index(s, c) == i,
{
    lemma_first_index(s, c);
    let f = first_index(s, c) as int;
    if f < i {
        assert(s[f] != c);
    } else if i < f {
        assert(s[i] != c);
    }
}

/// The pieces of `s` between occurrences of `sep`; a text without `sep` is its own only piece.
pub open spec fn split(s: Seq<char>, sep: char) -> Seq<Seq<char>>
    decreases s.len(),
{
    let i = first_index(s, sep) as int;
    if i >= s.len() {
        seq![s]
    } else {
        seq![s.take(i)] + split(s.skip(i + 1), sep)
    }
}

/// The pieces put back together with `sep` between each two.
pub open spec fn join(parts: Seq<Seq<char>>, sep: Seq<char>) -> Seq<char>
    decreases parts.len(),
{
    if parts.len() == 0 {
        Seq::empty()
    } else if parts.len() == 1 {
        parts[0]
    } else {
        join(parts.drop_last(), sep) + sep + parts.last()
    }
}

pub proof fn lemma_join_cons(first: Seq<char>, rest: Seq<Seq<char>>, sep: Seq<char>)
    requires
        rest.len() > 0,
    ensures
        join(seq![first] + rest, sep) == first + sep + join(rest, sep),
    decreases rest.len(),
{
    let all = seq![first] + rest;
    assert(all.drop_last() =~= seq![first] + rest.drop_last());
    if rest.len() == 1 {
        assert(all.drop_last() =~= seq![first]);
        assert(all.last() == rest[0]);
        assert(join(all.drop_last(), sep) == first);
    } else {
        lemma_join_cons(first, rest.drop_last(), sep);
        assert(join(all, sep) =~= first + sep + join(rest, sep));
    }
}

/// Splitting loses nothing: joining the pieces with the separator gives the text back, and no
/// piece holds the separator.
pub proof fn lemma_split_join(s: Seq<char>, sep: char)
    ensures
        split(s, sep).len() >= 1,
        join(split(s, sep), seq![sep]) == s,
        forall|k: int, j: int|
            0 <= k < split(s, sep).len() && 0 <= j < split(s, sep)[k].len() ==> split(
                s,
                sep,
            )[k][j] != sep,
    decreases s.len(),
{
    lemma_first_index(s, sep);
    let i = first_index(s, sep) as int;
    if i < s.len() {
        let rest = s.skip(i + 1);
        lemma_split_join(rest, sep);
        lemma_join_cons(s.take(i), split(rest, sep), seq![sep]);
        assert(s =~= s.take(i) + seq![sep] + rest);
        assert forall|k: int, j: int|
            0 <= k < split(s, sep).len() && 0 <= j < split(s, sep)[k].len() implies split(
            s,
            sep,
        )[k][j] != sep by {
            if k > 0 {
                assert(split(s, sep)[k] == split(rest, sep)[k - 1]);
            } else {
                assert(split(s, sep)[0] == s.take(i));
            }
        }
    }
}

/// Pieces that do not hold the separator are split as they were joined.
pub proof fn lemma_join_split(parts: Seq<Seq<char>>, sep: char)
    requires
        parts.len() > 0,
        forall|i: int| 0 <= i < parts.len() ==> !(#[trigger] parts[i]).contains(sep),
    ensures
        split(join(parts, seq![sep]), sep) == parts,
    decreases parts.len(),
{
    let first = parts[0];
    assert(!first.contains(sep));
    if parts.len() == 1 {
        assert forall|j: int| 0 <= j < first.len() implies first[j] != sep by {
            assert(first.contains(first[j]));
        }
        lemma_first_index_unique(first, sep, first.len() as int);
        assert(split(first, sep) =~= parts);
    } else {
        let rest = parts.skip(1);
        assert(parts =~= seq![first] + rest);
        lemma_join_cons(first, rest, seq![sep]);
        let text = join(parts, seq![sep]);
        assert forall|j: int| 0 <= j < first.len() implies text[j] != sep by {
            assert(text[j] == first[j]);
            assert(first.contains(first[j]));
        }
        assert(text[first.len() as int] == sep);
        lemma_first_index_unique(text, sep, first.len() as int);
        assert(text.take(first.len() as int) =~= first);
        assert(text.skip(first.len() as int + 1) =~= join(rest, seq![sep]));
        assert forall|i: int| 0 <= i < rest.len() implies !(#[trigger] rest[i]).contains(sep) by {
            assert(rest[i] == parts[i + 1]);
        }
        lemma_join_split(rest, sep);
        assert(split(text, sep) =~= parts);
    }
}

/// A line without its carriage return, if it ends in one.
pub open spec fn chomp(s: Seq<char>) -> Seq<char> {
    if s.len() > 0 && s.last() == '\r' {
        s.drop_last()
    } else {
        s
    }
}

/// The lines of `s`. Each is ended by a line feed, which is not part of it, nor is a carriage
/// return before it; the last line may go without.
pub open spec fn lines(s: Seq<char>) -> Seq<Seq<char>>
    decreases s.len(),
{
    let i = first_index(s, '\n') as int;
    if s.len() == 0 {
        Seq::empty()
    } else if i >= s.len() {
        seq![s]
    } else {
        seq![chomp(s.take(i))] + lines(s.skip(i + 1))
    }
}

/// Whether Unicode gives the character the property White_Space.
pub open spec fn is_space(c: char) -> bool {
    let n = c as u32;
    ||| 0x9 <= n <= 0xd
    ||| n == 0x20
    ||| n == 0x85
    ||| n == 0xa0
    ||| n == 0x1680
    ||| 0x2000 <= n <= 0x200a
    ||| n == 0x2028
    ||| n == 0x2029
    ||| n == 0x202f
    ||| n == 0x205f
    ||| n == 0x3000
}

pub open spec fn trim_start(s: Seq<char>) -> Seq<char>
    decreases s.len(),
{
    if s.len() > 0 && is_space(s[0]) {
        trim_start(s.skip(1))
    } else {
        s
    }
}

pub open spec fn trim_end(s: Seq<char>) -> Seq<char>
    decreases s.len(),
{
    if s.len() > 0 && is_space(s.last()) {
        trim_end(s.drop_last())
    } else {
        s
    }
}

/// `s` without white space at either end.
pub open spec fn trim(s: Seq<char>) -> Seq<char> {
    trim_end(trim_start(s))
}

pub open spec fn starts_with(s: Seq<char>, prefix: Seq<char>) -> bool {
    prefix.len() <= s.len() && s.take(prefix.len() as int) == prefix
}

pub open spec fn ends_with(s: Seq<char>, suffix: Seq<char>) -> bool {
    suffix.len() <= s.len() && s.skip(s.len() - suffix.len()) == suffix
}

/// The texts on both sides of the first `sep`, if there is one.
pub open spec fn split_once(s: Seq<char>, sep: char) -> Option<(Seq<char>, Seq<char>)> {
    let i = first_index(s, sep) as int;
    if i < s.len() {
        Some((s.take(i), s.skip(i + 1)))
    } else {
        None
    }
}

/// The position of the last `c` in `s`, or -1 if there is none.
pub open spec fn last_index(s: Seq<char>, c: char) -> int
    decreases s.len(),
{
    if s.len() == 0 {
        -1
    } else if s.last() == c {
        s.len() - 1
    } else {
        last_index(s.drop_last(), c)
    }
}

pub proof fn lemma_last_index(s: Seq<char>, c: char)
    ensures
        -1 <= last_index(s, c) < s.len(),
        last_index(s, c) >= 0 ==> s[last_index(s, c)] == c,
        forall|j: int| last_index(s, c) < j < s.len() ==> s[j] != c,
    decreases s.len(),
{
    if s.len() > 0 && s.last() != c {
        lemma_last_index(s.drop_last(), c);
        assert forall|j: int| last_index(s, c) < j < s.len() implies s[j] != c by {
            if j < s.len() - 1 {
                assert(s[j] == s.drop_last()[j]);
            }
        }
    }
}

/// The texts on both sides of the last `sep`, if there is one.
pub open spec fn rsplit_once(s: Seq<char>, sep: char) -> Option<(Seq<char>, Seq<char>)> {
    let i = last_index(s, sep);
    if i >= 0 {
        Some((s.take(i), s.skip(i + 1)))
    } else {
        None
    }
}

proof fn lemma_trim_start(s: Seq<char>)
    ensures
        trim_start(s).len() <= s.len(),
        trim_start(s) == s.skip(s.len() - trim_start(s).len()),
        trim_start(s).len() > 0 ==> !is_space(trim_start(s)[0]),
        s.len() > 0 && !is_space(s[0]) ==> trim_start(s) == s,
        s.len() > 0 && !is_space(s.last()) ==> trim_start(s).len() > 0,
    decreases s.len(),
{
    if s.len() > 0 && is_space(s[0]) {
        lemma_trim_start(s.skip(1));
        assert(trim_start(s) =~= s.skip(s.len() - trim_start(s).len()));
        if s.len() > 1 {
            assert(s.skip(1).last() == s.last());
        }
    } else {
        assert(s.skip(0) =~= s);
    }
}

proof fn lemma_trim_end(s: Seq<char>)
    ensures
        trim_end(s).len() <= s.len(),
        trim_end(s) == s.take(trim_end(s).len() as int),
        trim_end(s).len() > 0 ==> !is_space(trim_end(s).last()),
        s.len() > 0 && !is_space(s.last()) ==> trim_end(s) == s,
        s.len() > 0 && !is_space(s[0]) ==> trim_end(s).len() > 0,
    decreases s.len(),
{
    if s.len() > 0 && is_space(s.last()) {
        lemma_trim_end(s.drop_last());
        assert(trim_end(s) =~= s.take(trim_end(s).len() as int));
    } else {
        assert(s.take(s.len() as int) =~= s);
    }
}

/// Whether no white space stands at either end.
pub open spec fn is_trimmed(s: Seq<char>) -> bool {
    s.len() > 0 ==> !is_space(s[0]) && !is_space(s.last())
}

/// Trimming gives a trimmed part of the text and leaves a trimmed text as it is.
pub proof fn lemma_trim(s: Seq<char>)
    ensures
        is_trimmed(trim(s)),
        is_trimmed(s) ==> trim(s) == s,
        forall|c: char| trim(s).contains(c) ==> s.contains(c),
        s.len() > 0 && !is_space(s[0]) ==> trim(s).len() > 0 && trim(s)[0] == s[0],
        s.len() > 0 && !is_space(s.last()) ==> trim(s).len() > 0 && trim(s).last() == s.last(),
{
    let t = trim_start(s);
    lemma_trim_start(s);
    lemma_trim_end(t);
    let r = trim(s);
    assert forall|c: char| r.contains(c) implies s.contains(c) by {
        let i = choose|i: int| 0 <= i < r.len() && r[i] == c;
        assert(t[i] == c);
        assert(s[s.len() - t.len() + i] == c);
    }
    if r.len() > 0 {
        assert(r[0] == t[0]);
    }
    if s.len() > 0 && !is_space(s.last()) {
        assert(t.last() == s.last());
    }
}

/// The characters of a text.
pub fn chars_of(s: &str) -> (r: Vec<char>)
    ensures
        r@ == s@,
{
    let mut out: Vec<char> = Vec::new();
    for c in it: s.chars()
        invariant
            it.seq() == s@,
            out@ == s@.take(it.index()),
    {
        out.push(c);
        assert(out@ =~= s@.take(it.index() + 1));
    }
    assert(out@ =~= s@);
    out
}

/// The text made of `chars[from..to]`.
pub fn text_of(chars: &[char], from: usize, to: usize) -> (r: String)
    requires
        from <= to <= chars@.len(),
    ensures
        r@ == chars@.subrange(from as int, to as int),
{
    let mut out = String::new();
    let mut i: usize = from;
    while i < to
        invariant
            from <= i <= to <= chars@.len(),
            out@ == chars@.subrange(from as int, i as int),
        decreases to - i,
    {
        out.push(chars[i]);
        i += 1;
        assert(out@ =~= chars@.subrange(from as int, i as int));
    }
    out
}

/// Whether two texts are the same.
pub fn text_eq(a: &str, b: &str) -> (r: bool)
    ensures
        r == (a@ == b@),
{
    let x = chars_of(a);
    let y = chars_of(b);
    if x.len() != y.len() {
        return false;
    }
    let mut i: usize = 0;
    while i < x.len()
        invariant
            i <= x@.len() == y@.len(),
            x@ == a@,
            y@ == b@,
            forall|j: int| 0 <= j < i ==> x@[j] == y@[j],
        decreases x@.len() - i,
    {
        if x[i] != y[i] {
            return false;
        }
        i += 1;
    }
    assert(x@ =~= y@);
    true
}

/// One text after another.
pub fn concat(a: &str, b: &str) -> (r: String)
    ensures
        r@ == a@ + b@,
{
    let mut out = a.to_owned();
    out.append(b);
    out
}

/// Three texts after one another.
pub fn concat3(a: &str, b: &str, c: &str) -> (r: String)
    ensures
        r@ == a@ + b@ + c@,
{
    let mut out = a.to_owned();
    out.append(b);
    out.append(c);
    out
}

/// Whether `s` begins with `prefix`.
pub fn has_prefix(s: &str, prefix: &str) -> (r: bool)
    ensures
        r == starts_with(s@, prefix@),
{
    let x = chars_of(s);
    let y = chars_of(prefix);
    if x.len() < y.len() {
        return false;
    }
    let mut i: usize = 0;
    while i < y.len()
        invariant
            i <= y@.len() <= x@.len(),
            x@ == s@,
            y@ == prefix@,
            forall|j: int| 0 <= j < i ==> x@[j] == y@[j],
        decreases y@.len() - i,
    {
        if x[i] != y[i] {
            assert(s@.take(prefix@.len() as int)[i as int] != prefix@[i as int]);
            return false;
        }
        i += 1;
    }
    assert(s@.take(prefix@.len() as int) =~= prefix@);
    true
}

/// What follows `prefix` in `s`, if `s` begins with it.
pub fn strip_prefix(s: &str, prefix: &str) -> (r: Option<String>)
    ensures
        r is Some <==> starts_with(s@, prefix@),
        r matches Some(rest) ==> rest@ == s@.skip(prefix@.len() as int),
{
    if has_prefix(s, prefix) {
        let x = chars_of(s);
        let n: usize = prefix.unicode_len();
        let out = text_of(x.as_slice(), n, x.len());
        assert(out@ =~= s@.skip(prefix@.len() as int));
        Some(out)
    } else {
        None
    }
}

/// Whether `s` ends with `suffix`.
pub fn has_suffix(s: &str, suffix: &str) -> (r: bool)
    ensures
        r == ends_with(s@, suffix@),
{
    let x = chars_of(s);
    let n: usize = suffix.unicode_len();
    if x.len() < n {
        return false;
    }
    let out = text_of(x.as_slice(), x.len() - n, x.len());
    assert(out@ =~= s@.skip(s@.len() - suffix@.len()));
    text_eq(&out, suffix)
}

/// What comes before `suffix` in `s`, if `s` ends with it.
pub fn strip_suffix(s: &str, suffix: &str) -> (r: Option<String>)
    ensures
        r is Some <==> ends_with(s@, suffix@),
        r matches Some(rest) ==> rest@ == s@.take(s@.len() - suffix@.len()),
{
    if has_suffix(s, suffix) {
        let x = chars_of(s);
        let n: usize = suffix.unicode_len();
        let out = text_of(x.as_slice(), 0, x.len() - n);
        assert(out@ =~= s@.take(s@.len() - suffix@.len()));
        Some(out)
    } else {
        None
    }
}

/// The position of the first `c` at or after `from`, or the length.
pub fn find_from(chars: &[char], c: char, from: usize) -> (r: usize)
    requires
        from <= chars@.len(),
    ensures
        r == from + first_index(chars@.skip(from as int), c),
        from <= r <= chars@.len(),
{
    let mut i: usize = from;
    while i < chars.len() && chars[i] != c
        invariant
            from <= i <= chars@.len(),
            forall|j: int| from <= j < i ==> chars@[j] != c,
        decreases chars@.len() - i,
    {
        i += 1;
    }
    proof {
        let s = chars@.skip(from as int);
        assert forall|j: int| 0 <= j < i - from implies s[j] != c by {
            assert(s[j] == chars@[from + j]);
        }
        lemma_first_index_unique(s, c, i - from);
    }
    i
}

/// Whether `c` occurs in `s`.
pub fn contains_char(s: &str, c: char) -> (r: bool)
    ensures
        r == s@.contains(c),
{
    let x = chars_of(s);
    let i: usize = find_from(x.as_slice(), c, 0);
    proof {
        assert(x@.skip(0) =~= x@);
        lemma_first_index(x@, c);
    }
    if i < x.len() {
        assert(s@[i as int] == c);
        true
    } else {
        false
    }
}

/// The pieces of `s` between occurrences of `sep`.
pub fn split_text(s: &str, sep: char) -> (r: Vec<String>)
    ensures
        texts(r@) == split(s@, sep),
{
    let x = chars_of(s);
    let mut out: Vec<String> = Vec::new();
    let mut from: usize = 0;
    assert(x@.skip(0) =~= x@);
    assert(texts(out@) + split(s@, sep) =~= split(s@, sep));
    loop
        invariant
            x@ == s@,
            from <= x@.len(),
            texts(out@) + split(x@.skip(from as int), sep) == split(s@, sep),
        decreases x@.len() - from,
    {
        let ghost rest = x@.skip(from as int);
        let i: usize = find_from(x.as_slice(), sep, from);
        let piece = text_of(x.as_slice(), from, i);
        let ghost before = out@;
        proof {
            lemma_texts_push(before, piece);
            assert(piece@ =~= rest.take(i - from));
        }
        out.push(piece);
        if i >= x.len() {
            proof {
                assert(piece@ =~= rest);
                assert(texts(out@) =~= texts(before) + split(rest, sep));
            }
            return out;
        }
        proof {
            assert(rest.skip(i - from + 1) =~= x@.skip(i + 1));
            assert(texts(out@) + split(x@.skip(i + 1), sep) =~= texts(before) + split(rest, sep));
        }
        from = i + 1;
    }
}

/// The lines of `s`.
pub fn split_lines(s: &str) -> (r: Vec<String>)
    ensures
        texts(r@) == lines(s@),
{
    let x = chars_of(s);
    let mut out: Vec<String> = Vec::new();
    let mut from: usize = 0;
    assert(x@.skip(0) =~= x@);
    assert(texts(out@) + lines(s@) =~= lines(s@));
    while from < x.len()
        invariant
            x@ == s@,
            from <= x@.len(),
            texts(out@) + lines(x@.skip(from as int)) == lines(s@),
        decreases x@.len() - from,
    {
        let ghost rest = x@.skip(from as int);
        let i: usize = find_from(x.as_slice(), '\n', from);
        let ghost before = out@;
        if i >= x.len() {
            let piece = text_of(x.as_slice(), from, i);
            proof {
                lemma_texts_push(before, piece);
                assert(piece@ =~= rest);
                assert(texts(before.push(piece)) =~= texts(before) + lines(rest));
            }
            out.push(piece);
            return out;
        }
        let end: usize = if i > from && x[i - 1] == '\r' {
            i - 1
        } else {
            i
        };
        let piece = text_of(x.as_slice(), from, end);
        proof {
            lemma_texts_push(before, piece);
            let line = rest.take(i - from);
            assert(line.len() > 0 ==> line.last() == x@[i - 1]);
            assert(piece@ =~= chomp(line));
            assert(rest.skip(i - from + 1) =~= x@.skip(i + 1));
            assert(texts(before.push(piece)) + lines(x@.skip(i + 1)) =~= texts(before) + lines(
                rest,
            ));
        }
        out.push(piece);
        from = i + 1;
    }
    assert(texts(out@) + lines(x@.skip(from as int)) =~= texts(out@));
    out
}

/// Whether the character is white space.
pub fn is_space_char(c: char) -> (r: bool)
    ensures
        r == is_space(c),
{
    let n: u32 = c as u32;
    (0x9 <= n && n <= 0xd) || n == 0x20 || n == 0x85 || n == 0xa0 || n == 0x1680 || (0x2000 <= n
        && n <= 0x200a) || n == 0x2028 || n == 0x2029 || n == 0x202f || n == 0x205f || n == 0x3000
}

/// `s` without white space at either end.
pub fn trim_text(s: &str) -> (r: String)
    ensures
        r@ == trim(s@),
{
    let x = chars_of(s);
    let mut from: usize = 0;
    assert(x@.skip(0) =~= x@);
    while from < x.len() && is_space_char(x[from])
        invariant
            x@ == s@,
            from <= x@.len(),
            trim_start(x@.skip(from as int)) == trim_start(s@),
        decreases x@.len() - from,
    {
        assert(x@.skip(from as int).skip(1) =~= x@.skip(from + 1));
        from += 1;
    }
    let ghost head = trim_start(s@);
    assert(head == x@.skip(from as int));
    let mut to: usize = x.len();
    assert(x@.subrange(from as int, to as int) =~= head);
    while to > from && is_space_char(x[to - 1])
        invariant
            from <= to <= x@.len(),
            trim_end(x@.subrange(from as int, to as int)) == trim_end(head),
        decreases to,
    {
        assert(x@.subrange(from as int, to as int).drop_last() =~= x@.subrange(
            from as int,
            to - 1,
        ));
        to -= 1;
    }
    text_of(x.as_slice(), from, to)
}

/// `s` without white space at its end.
pub fn trim_text_end(s: &str) -> (r: String)
    ensures
        r@ == trim_end(s@),
{
    let x = chars_of(s);
    let mut to: usize = x.len();
    assert(x@.take(to as int) =~= s@);
    while to > 0 && is_space_char(x[to - 1])
        invariant
            to <= x@.len(),
            trim_end(x@.take(to as int)) == trim_end(s@),
        decreases to,
    {
        assert(x@.take(to as int).drop_last() =~= x@.take(to - 1));
        to -= 1;
    }
    let out = text_of(x.as_slice(), 0, to);
    assert(out@ =~= x@.take(to as int));
    out
}

/// The texts on both sides of the first `sep`, if there is one.
pub fn split_text_once(s: &str, sep: char) -> (r: Option<(String, String)>)
    ensures
        r is Some <==> split_once(s@, sep) is Some,
        r matches Some(p) ==> (p.0@, p.1@) == split_once(s@, sep)->0,
{
    let x = chars_of(s);
    let i: usize = find_from(x.as_slice(), sep, 0);
    assert(x@.skip(0) =~= x@);
    if i < x.len() {
        let a = text_of(x.as_slice(), 0, i);
        let b = text_of(x.as_slice(), i + 1, x.len());
        assert(a@ =~= s@.take(i as int));
        assert(b@ =~= s@.skip(i + 1));
        Some((a, b))
    } else {
        None
    }
}

/// The texts on both sides of the last `sep`, if there is one.
pub fn rsplit_text_once(s: &str, sep: char) -> (r: Option<(String, String)>)
    ensures
        r is Some <==> rsplit_once(s@, sep) is Some,
        r matches Some(p) ==> (p.0@, p.1@) == rsplit_once(s@, sep)->0,
{
    let x = chars_of(s);
    let mut i: usize = x.len();
    assert(x@.take(i as int) =~= x@);
    while i > 0
        invariant
            i <= x@.len(),
            x@ == s@,
            last_index(s@, sep) == last_index(x@.take(i as int), sep),
        decreases i,
    {
        let ghost here = x@.take(i as int);
        assert(here.last() == x@[i - 1]);
        assert(here.drop_last() =~= x@.take(i - 1));
        if x[i - 1] == sep {
            let a = text_of(x.as_slice(), 0, i - 1);
            let b = text_of(x.as_slice(), i, x.len());
            assert(a@ =~= s@.take(i - 1));
            assert(b@ =~= s@.skip(i as int));
            return Some((a, b));
        }
        i -= 1;
    }
    None
}

/// The texts with `sep` between each two.
pub fn join_texts(parts: &[String], sep: &str) -> (r: String)
    ensures
        r@ == join(texts(parts@), sep@),
{
    let mut out = String::new();
    let mut i: usize = 0;
    assert(texts(parts@).take(0) =~= Seq::<Seq<char>>::empty());
    while i < parts.len()
        invariant
            i <= parts@.len(),
            out@ == join(texts(parts@).take(i as int), sep@),
        decreases parts@.len() - i,
    {
        let ghost next = texts(parts@).take(i + 1);
        assert(next.drop_last() =~= texts(parts@).take(i as int));
        if i > 0 {
            out.append(sep);
        }
        out.append(&parts[i]);
        proof {
            assert(next.last() == parts@[i as int]@);
            assert(out@ =~= join(next, sep@));
        }
        i += 1;
    }
    assert(texts(parts@).take(i as int) =~= texts(parts@));
    out
}

/// The number of characters before the first white space.
pub open spec fn word_length(s: Seq<char>) -> nat
    decreases s.len(),
{
    if s.len() == 0 || is_space(s[0]) {
        0
    } else {
        1 + word_length(s.skip(1))
    }
}

pub proof fn lemma_word_length(s: Seq<char>)
    ensures
        word_length(s) <= s.len(),
    decreases s.len(),
{
    if s.len() != 0 && !is_space(s[0]) {
        lemma_word_length(s.skip(1));
    }
}

/// The pieces of a text between white space.
pub open spec fn words(s: Seq<char>) -> Seq<Seq<char>>
    decreases s.len(),
{
    if s.len() == 0 {
        Seq::empty()
    } else if is_space(s[0]) {
        words(s.skip(1))
    } else {
        let n = word_length(s) as int;
        proof {
            lemma_word_length(s);
        }
        seq![s.take(n)] + words(s.skip(n))
    }
}

/// The pieces of a text between white space.
pub fn split_words(s: &str) -> (r: Vec<String>)
    ensures
        texts(r@) == words(s@),
{
    let x = chars_of(s);
    let mut out: Vec<String> = Vec::new();
    let mut i: usize = 0;
    assert(x@.skip(0) =~= x@);
    assert(texts(out@) + words(s@) =~= words(s@));
    while i < x.len()
        invariant
            x@ == s@,
            i <= x@.len(),
            texts(out@) + words(x@.skip(i as int)) == words(s@),
        decreases x@.len() - i,
    {
        let ghost rest = x@.skip(i as int);
        if is_space_char(x[i]) {
            assert(rest.skip(1) =~= x@.skip(i + 1));
            i += 1;
        } else {
            let mut j: usize = i + 1;
            assert(rest.skip(1) =~= x@.skip(j as int));
            while j < x.len() && !is_space_char(x[j])
                invariant
                    rest == x@.skip(i as int),
                    i < j <= x@.len(),
                    word_length(rest) == j - i + word_length(x@.skip(j as int)),
                decreases x@.len() - j,
            {
                assert(x@.skip(j as int).skip(1) =~= x@.skip(j + 1));
                j += 1;
            }
            let word = text_of(x.as_slice(), i, j);
            let ghost before = out@;
            proof {
                lemma_texts_push(before, word);
                assert(word_length(x@.skip(j as int)) == 0);
                assert(word@ =~= rest.take(j - i));
                assert(rest.skip(j - i) =~= x@.skip(j as int));
                assert(texts(before.push(word)) + words(x@.skip(j as int)) =~= texts(before)
                    + words(rest));
            }
            out.push(word);
            i = j;
        }
    }
    assert(texts(out@) + words(x@.skip(i as int)) =~= texts(out@));
    out
}

/// The place where a pattern first stands in a text.
pub open spec fn text_place(s: Seq<char>, pattern: Seq<char>) -> Option<int>
    decreases s.len(),
{
    if starts_with(s, pattern) {
        Some(0)
    } else if s.len() == 0 {
        None
    } else {
        match text_place(s.skip(1), pattern) {
            Some(i) => Some(i + 1),
            None => None,
        }
    }
}

/// What stands before and after the first occurrence of a pattern.
pub open spec fn split_at_text(s: Seq<char>, pattern: Seq<char>) -> Option<
    (Seq<char>, Seq<char>),
> {
    match text_place(s, pattern) {
        Some(i) => Some((s.take(i), s.skip(i + pattern.len()))),
        None => None,
    }
}

/// Whether the pattern stands in a text at a place.
fn stands_at(chars: &[char], pattern: &[char], at: usize) -> (r: bool)
    requires
        at <= chars@.len(),
    ensures
        r == starts_with(chars@.skip(at as int), pattern@),
{
    let ghost rest = chars@.skip(at as int);
    if chars.len() - at < pattern.len() {
        return false;
    }
    let mut i: usize = 0;
    while i < pattern.len()
        invariant
            i <= pattern@.len(),
            at + pattern@.len() <= chars@.len() <= usize::MAX,
            rest == chars@.skip(at as int),
            forall|j: int| 0 <= j < i ==> rest[j] == pattern@[j],
        decreases pattern@.len() - i,
    {
        assert(rest[i as int] == chars@[at + i]);
        if chars[at + i] != pattern[i] {
            assert(rest.take(pattern@.len() as int)[i as int] != pattern@[i as int]);
            return false;
        }
        i += 1;
    }
    assert(rest.take(pattern@.len() as int) =~= pattern@);
    true
}

/// What stands before and after the first occurrence of a pattern.
pub fn split_text_at(s: &str, pattern: &str) -> (r: Option<(String, String)>)
    ensures
        r is Some <==> split_at_text(s@, pattern@) is Some,
        r matches Some((a, b)) ==> split_at_text(s@, pattern@) == Some((a@, b@)),
{
    let x = chars_of(s);
    let p = chars_of(pattern);
    let mut i: usize = 0;
    assert(x@.skip(0) =~= x@);
    while i <= x.len()
        invariant
            x@ == s@,
            p@ == pattern@,
            i <= x@.len() + 1,
            i <= x@.len() ==> (match text_place(x@.skip(i as int), p@) {
                Some(n) => text_place(s@, p@) == Some(n + i),
                None => text_place(s@, p@) is None,
            }),
            i > x@.len() ==> text_place(s@, p@) is None,
        decreases x@.len() + 1 - i,
    {
        let ghost rest = x@.skip(i as int);
        if stands_at(x.as_slice(), p.as_slice(), i) {
            let a = text_of(x.as_slice(), 0, i);
            let b = text_of(x.as_slice(), i + p.len(), x.len());
            proof {
                assert(a@ =~= s@.take(i as int));
                assert(b@ =~= s@.skip(i + p@.len()));
            }
            return Some((a, b));
        }
        if i == x.len() {
            return None;
        }
        assert(rest.skip(1) =~= x@.skip(i + 1));
        i += 1;
    }
    None
}

/// A text without the ends that consist of one character.
pub open spec fn trim_end_of(s: Seq<char>, c: char) -> Seq<char>
    decreases s.len(),
{
    if s.len() > 0 && s.last() == c {
        trim_end_of(s.drop_last(), c)
    } else {
        s
    }
}

/// A text without the occurrences of a character at its end.
pub fn trim_text_end_of(s: &str, c: char) -> (r: String)
    ensures
        r@ == trim_end_of(s@, c),
{
    let x = chars_of(s);
    let mut end: usize = x.len();
    assert(x@.take(end as int) =~= x@);
    while end > 0 && x[end - 1] == c
        invariant
            x@ == s@,
            end <= x@.len(),
            trim_end_of(x@.take(end as int), c) == trim_end_of(s@, c),
        decreases end,
    {
        assert(x@.take(end as int).drop_last() =~= x@.take(end - 1));
        end -= 1;
    }
    assert(x@.take(end as int) =~= x@.subrange(0, end as int));
    text_of(x.as_slice(), 0, end)
}

} // verus!
