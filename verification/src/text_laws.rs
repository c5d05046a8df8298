//! How texts are taken apart: at white space, at line ends, and at what separates their parts.

use crate::text::{
    first_index, is_space, is_trimmed, last_index, lemma_first_index, lemma_first_index_unique,
    lemma_last_index, lines, rsplit_once, split_at_text, split_once, starts_with, text_place, trim,
    trim_end, trim_end_of, trim_start, word_length, words,
};
use vstd::prelude::*;

verus! {

/// White space is what separates words in any script: the space itself, the tabulator and the line
/// ends, and the wider and narrower spaces, one of them from the old Irish script.
pub proof fn lemma_white_space(c: char)
    ensures
        is_space(c) <==> c == ' ' || c == '\t' || c == '\n' || c == '\u{b}' || c == '\u{c}' || c
            == '\r' || c == '\u{85}' || c == '\u{a0}' || c == '\u{1680}' || '\u{2000}' <= c
            <= '\u{200a}' || c == '\u{2028}' || c == '\u{2029}' || c == '\u{202f}' || c
            == '\u{205f}' || c == '\u{3000}',
{
}

/// Whether a text holds nothing but white space.
pub open spec fn all_space(s: Seq<char>) -> bool {
    forall|i: int| 0 <= i < s.len() ==> is_space(#[trigger] s[i])
}

proof fn lemma_start(before: Seq<char>, rest: Seq<char>)
    requires
        all_space(before),
        rest.len() > 0 ==> !is_space(rest[0]),
    ensures
        trim_start(before + rest) == rest,
    decreases before.len(),
{
    let s = before + rest;
    if before.len() > 0 {
        assert(s[0] == before[0]);
        assert(s.skip(1) =~= before.skip(1) + rest);
        assert forall|i: int| 0 <= i < before.skip(1).len() implies is_space(
            #[trigger] before.skip(1)[i],
        ) by {
            assert(before.skip(1)[i] == before[i + 1]);
        }
        lemma_start(before.skip(1), rest);
    } else {
        assert(s =~= rest);
    }
}

proof fn lemma_end(rest: Seq<char>, after: Seq<char>)
    requires
        all_space(after),
        rest.len() > 0 ==> !is_space(rest.last()),
    ensures
        trim_end(rest + after) == rest,
    decreases after.len(),
{
    let s = rest + after;
    if after.len() > 0 {
        assert(s.last() == after.last());
        assert(s.drop_last() =~= rest + after.drop_last());
        assert forall|i: int| 0 <= i < after.drop_last().len() implies is_space(
            #[trigger] after.drop_last()[i],
        ) by {
            assert(after.drop_last()[i] == after[i]);
        }
        lemma_end(rest, after.drop_last());
    } else {
        assert(s =~= rest);
    }
}

proof fn lemma_only_space(s: Seq<char>)
    requires
        all_space(s),
    ensures
        trim(s) == Seq::<char>::empty(),
{
    let none = Seq::<char>::empty();
    assert(s + none =~= s);
    lemma_start(s, none);
    assert(trim_end(none) == none);
}

/// Trimming takes the white space away at both ends, all of it and nothing else.
pub proof fn lemma_trimmed_exactly(before: Seq<char>, middle: Seq<char>, after: Seq<char>)
    requires
        all_space(before),
        all_space(after),
        is_trimmed(middle),
    ensures
        trim(before + middle + after) == middle,
{
    if middle.len() == 0 {
        let s = before + middle + after;
        assert forall|i: int| 0 <= i < s.len() implies is_space(#[trigger] s[i]) by {
            if i < before.len() {
                assert(s[i] == before[i]);
            } else {
                assert(s[i] == after[i - before.len()]);
            }
        }
        lemma_only_space(s);
    } else {
        assert(before + middle + after =~= before + (middle + after));
        assert((middle + after)[0] == middle[0]);
        lemma_start(before, middle + after);
        lemma_end(middle, after);
    }
}

/// A line ends at the first line feed. A carriage return before that belongs to the end, one at the
/// end of the text does not.
pub proof fn lemma_lines_one_by_one(line: Seq<char>, rest: Seq<char>)
    requires
        !line.contains('\n'),
    ensures
        lines(Seq::empty()) == Seq::<Seq<char>>::empty(),
        line.len() > 0 ==> lines(line) == seq![line],
        lines(line + seq!['\n'] + rest) == seq![
            if line.len() > 0 && line.last() == '\r' {
                line.take(line.len() - 1)
            } else {
                line
            },
        ] + lines(rest),
{
    let s = line + seq!['\n'] + rest;
    lemma_first_index(line, '\n');
    let i = first_index(line, '\n') as int;
    if i < line.len() {
        assert(line.contains('\n'));
    }
    let n = line.len() as int;
    assert(s[n] == '\n');
    assert forall|k: int| 0 <= k < n implies s[k] != '\n' by {
        assert(s[k] == line[k]);
    }
    lemma_first_index_unique(s, '\n', n);
    assert(s.take(n) =~= line);
    assert(s.skip(n + 1) =~= rest);
    assert(line.len() > 0 ==> line.take(line.len() - 1) =~= line.drop_last());
}

proof fn lemma_length(word: Seq<char>, rest: Seq<char>)
    requires
        forall|i: int| 0 <= i < word.len() ==> !is_space(#[trigger] word[i]),
        rest.len() > 0 ==> is_space(rest[0]),
    ensures
        word_length(word + rest) == word.len(),
    decreases word.len(),
{
    let s = word + rest;
    if word.len() > 0 {
        assert(s[0] == word[0]);
        assert(s.skip(1) =~= word.skip(1) + rest);
        assert forall|i: int| 0 <= i < word.skip(1).len() implies !is_space(
            #[trigger] word.skip(1)[i],
        ) by {
            assert(word.skip(1)[i] == word[i + 1]);
        }
        lemma_length(word.skip(1), rest);
    } else {
        assert(s =~= rest);
    }
}

/// A word is what stands between white space; white space alone holds none.
pub proof fn lemma_words_one_by_one(space: Seq<char>, word: Seq<char>, rest: Seq<char>)
    requires
        all_space(space),
        word.len() > 0,
        forall|i: int| 0 <= i < word.len() ==> !is_space(#[trigger] word[i]),
        rest.len() > 0 ==> is_space(rest[0]),
    ensures
        words(space) == Seq::<Seq<char>>::empty(),
        words(space + word + rest) == seq![word] + words(rest),
    decreases space.len(),
{
    let s = space + word + rest;
    if space.len() > 0 {
        let less = space.skip(1);
        assert(s[0] == space[0]);
        assert(s.skip(1) =~= less + word + rest);
        assert forall|i: int| 0 <= i < less.len() implies is_space(#[trigger] less[i]) by {
            assert(less[i] == space[i + 1]);
        }
        lemma_words_one_by_one(less, word, rest);
    } else {
        assert(s =~= word + rest);
        assert(s[0] == word[0]);
        lemma_length(word, rest);
        assert(s.take(word.len() as int) =~= word);
        assert(s.skip(word.len() as int) =~= rest);
    }
}

/// A text is split at the first separator, or at the last one where it is looked at from its end;
/// one that holds none is not split.
pub proof fn lemma_split_at_a_character(a: Seq<char>, b: Seq<char>, sep: char)
    ensures
        !a.contains(sep) ==> split_once(a + seq![sep] + b, sep) == Some((a, b)),
        !b.contains(sep) ==> rsplit_once(a + seq![sep] + b, sep) == Some((a, b)),
        split_once(a, sep) is None <==> !a.contains(sep),
        rsplit_once(a, sep) is None <==> !a.contains(sep),
{
    let s = a + seq![sep] + b;
    let n = a.len() as int;
    assert(s[n] == sep);
    assert(s.take(n) =~= a);
    assert(s.skip(n + 1) =~= b);
    if !a.contains(sep) {
        assert forall|k: int| 0 <= k < n implies s[k] != sep by {
            assert(s[k] == a[k]);
        }
        lemma_first_index_unique(s, sep, n);
    }
    lemma_first_index(a, sep);
    lemma_last_index(a, sep);
    lemma_last_index(s, sep);
    if !b.contains(sep) {
        let i = last_index(s, sep);
        assert(s.contains(sep));
        if i > n {
            assert(s[i] == b[i - n - 1]);
        }
    }
    if a.contains(sep) {
        let k = choose|k: int| 0 <= k < a.len() && a[k] == sep;
        assert(a[k] == sep);
    }
}

/// Whether a pattern stands at a place in a text.
pub open spec fn stands_at(s: Seq<char>, pattern: Seq<char>, at: int) -> bool {
    0 <= at && at + pattern.len() <= s.len() && s.subrange(at, at + pattern.len()) == pattern
}

proof fn lemma_place(s: Seq<char>, pattern: Seq<char>)
    ensures
        match text_place(s, pattern) {
            Some(i) => stands_at(s, pattern, i) && forall|k: int|
                0 <= k < i ==> !stands_at(s, pattern, k),
            None => forall|k: int| !stands_at(s, pattern, k),
        },
    decreases s.len(),
{
    if starts_with(s, pattern) {
        assert(s.subrange(0, pattern.len() as int) =~= pattern);
    } else {
        assert(!stands_at(s, pattern, 0)) by {
            if stands_at(s, pattern, 0) {
                assert(s.subrange(0, pattern.len() as int) =~= s.take(pattern.len() as int));
                assert(starts_with(s, pattern));
            }
        }
        if s.len() > 0 {
            let rest = s.skip(1);
            lemma_place(rest, pattern);
            if let Some(i) = text_place(rest, pattern) {
                assert(s.subrange(i + 1, i + 1 + pattern.len()) =~= rest.subrange(
                    i,
                    i + pattern.len(),
                ));
                assert(stands_at(s, pattern, i + 1));
            }
            assert forall|k: int| k > 0 && stands_at(s, pattern, k) implies stands_at(
                rest,
                pattern,
                k - 1,
            ) by {
                assert(s.subrange(k, k + pattern.len()) =~= rest.subrange(
                    k - 1,
                    k - 1 + pattern.len(),
                ));
            }
            match text_place(s, pattern) {
                Some(i) => {
                    assert forall|k: int| 0 <= k < i implies !stands_at(s, pattern, k) by {
                        if k > 0 && stands_at(s, pattern, k) {
                            assert(stands_at(rest, pattern, k - 1));
                        }
                    }
                },
                None => {
                    assert forall|k: int| !stands_at(s, pattern, k) by {
                        if k > 0 && stands_at(s, pattern, k) {
                            assert(stands_at(rest, pattern, k - 1));
                        }
                    }
                },
            }
        }
    }
}

/// A text is split at the first place where the pattern stands; the pattern belongs to neither part,
/// and one in which it stands nowhere is not split.
pub proof fn lemma_split_at_a_text(s: Seq<char>, pattern: Seq<char>)
    ensures
        match split_at_text(s, pattern) {
            Some((a, b)) => s == a + pattern + b && forall|k: int|
                0 <= k < a.len() ==> !stands_at(s, pattern, k),
            None => forall|k: int| !stands_at(s, pattern, k),
        },
{
    lemma_place(s, pattern);
    if let Some(i) = text_place(s, pattern) {
        assert(s =~= s.take(i) + pattern + s.skip(i + pattern.len())) by {
            assert(s.subrange(i, i + pattern.len()) =~= pattern);
            assert forall|k: int| i <= k < i + pattern.len() implies s[k] == pattern[k - i] by {
                assert(s.subrange(i, i + pattern.len())[k - i] == s[k]);
            }
        }
    }
}

/// Every character of the kind is taken away at the end of a text, and nothing else.
pub proof fn lemma_ends_are_cut(s: Seq<char>, c: char, n: nat)
    requires
        s.len() > 0 ==> s.last() != c,
    ensures
        trim_end_of(s + Seq::new(n, |i: int| c), c) == s,
    decreases n,
{
    let all = s + Seq::new(n, |i: int| c);
    if n > 0 {
        let m = (n - 1) as nat;
        assert(all.drop_last() =~= s + Seq::new(m, |i: int| c));
        lemma_ends_are_cut(s, c, m);
    } else {
        assert(all =~= s);
    }
}

} // verus!
